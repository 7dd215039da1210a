//! The score updater and the staking event handlers that keep the voter
//! ranking and the target approval ranking in step with the stake source.

use vstd::prelude::*;
use crate::sorted_list::{AccountId, Score, SortedList, sat_add, sat_sub};
use crate::staking::{weight, ExtendedBalance, Role, Stake, StakerStatus, Staking};

verus! {

/// A signed change of approval weight to apply to a target's score.
#[derive(Clone, Copy, Debug, PartialEq, Eq, Structural)]
pub enum StakeImbalance {
    /// The score goes down by the amount.
    Negative(ExtendedBalance),
    /// The score goes up by the amount.
    Positive(ExtendedBalance),
}

/// The tracker: the voter ranking and the target approval ranking.
pub struct Pallet {
    /// Voters scored by the vote weight of their active stake.
    pub voter_list: SortedList,
    /// Targets scored by their approval weight, always sorted.
    pub target_list: SortedList,
}

/// Scores after applying `imb` to target `who`.
///
/// An absent target is first inserted with score zero when it is idle; any
/// other absent target is left alone. A decrease saturates at zero, and a
/// target that reaches zero while unbonded leaves the ranking.
pub open spec fn target_after(
    targets: Map<AccountId, Score>,
    l: Staking,
    who: AccountId,
    imb: StakeImbalance,
) -> Map<AccountId, Score> {
    if !targets.contains_key(who) && l.role(who) != Some(Role::Idle) {
        targets
    } else {
        let cur: Score = if targets.contains_key(who) {
            targets[who]
        } else {
            0
        };
        match imb {
            StakeImbalance::Positive(d) => targets.insert(who, sat_add(cur, d)),
            StakeImbalance::Negative(d) => {
                let b = sat_sub(cur, d);
                if b == 0 && !l.bonded(who) {
                    targets.remove(who)
                } else {
                    targets.insert(who, b)
                }
            },
        }
    }
}

/// Scores after applying `imb`, in order, to every target of `ts` that `skip`
/// does not hold.
pub open spec fn apply_all(
    targets: Map<AccountId, Score>,
    l: Staking,
    ts: Seq<AccountId>,
    skip: Seq<AccountId>,
    imb: StakeImbalance,
) -> Map<AccountId, Score>
    decreases ts.len(),
{
    if ts.len() == 0 {
        targets
    } else {
        let m = apply_all(targets, l, ts.drop_last(), skip, imb);
        if skip.contains(ts.last()) {
            m
        } else {
            target_after(m, l, ts.last(), imb)
        }
    }
}

/// The imbalance that a change of active stake from `prev` to `now` makes.
pub open spec fn imbalance_of(prev: Option<Stake>, now: Stake, issuance: u128) -> StakeImbalance {
    let w = weight(now.active, issuance) as ExtendedBalance;
    match prev {
        Some(p) => {
            let pw = weight(p.active, issuance) as ExtendedBalance;
            if pw > w {
                StakeImbalance::Negative((pw - w) as ExtendedBalance)
            } else {
                StakeImbalance::Positive((w - pw) as ExtendedBalance)
            }
        },
        None => StakeImbalance::Positive(w),
    }
}

/// The vote weight of `who`'s active stake, as a score.
pub open spec fn vote_of(l: Staking, who: AccountId) -> Score {
    weight(l.active_of(who), l.issuance()) as Score
}

/// Scores of a voter ranking after it gains `who`, when absent.
pub open spec fn voters_with(voters: Map<AccountId, Score>, l: Staking, who: AccountId) -> Map<
    AccountId,
    Score,
> {
    if voters.contains_key(who) {
        voters
    } else {
        voters.insert(who, vote_of(l, who))
    }
}

/// Target scores after `who` starts nominating `noms`.
pub open spec fn targets_on_nominator_add(
    voters: Map<AccountId, Score>,
    targets: Map<AccountId, Score>,
    l: Staking,
    who: AccountId,
    noms: Seq<AccountId>,
) -> Map<AccountId, Score> {
    if !voters.contains_key(who) && l.role(who) matches Some(Role::Nominator(_)) {
        apply_all(targets, l, noms, Seq::empty(), StakeImbalance::Positive(vote_of(l, who)))
    } else {
        targets
    }
}

/// Target scores after `who` stops nominating `noms`.
pub open spec fn targets_on_nominator_remove(
    targets: Map<AccountId, Score>,
    l: Staking,
    who: AccountId,
    noms: Seq<AccountId>,
) -> Map<AccountId, Score> {
    apply_all(targets, l, noms, Seq::empty(), StakeImbalance::Negative(vote_of(l, who)))
}

/// Target scores after `who` changes its nominations from `prev` to `noms`.
pub open spec fn targets_on_nominator_update(
    targets: Map<AccountId, Score>,
    l: Staking,
    who: AccountId,
    prev: Seq<AccountId>,
    noms: Seq<AccountId>,
) -> Map<AccountId, Score> {
    let w = vote_of(l, who);
    apply_all(
        apply_all(targets, l, noms, prev, StakeImbalance::Positive(w)),
        l,
        prev,
        noms,
        StakeImbalance::Negative(w),
    )
}

/// Target scores after `who`'s self-stake stops counting.
pub open spec fn targets_on_validator_idle(
    targets: Map<AccountId, Score>,
    l: Staking,
    who: AccountId,
) -> Map<AccountId, Score> {
    target_after(targets, l, who, StakeImbalance::Negative(vote_of(l, who)))
}

/// Target scores after `who` declares intent to validate with `self_stake`.
pub open spec fn targets_on_validator_add(
    targets: Map<AccountId, Score>,
    l: Staking,
    who: AccountId,
    self_stake: Option<Stake>,
) -> Map<AccountId, Score> {
    let w = match self_stake {
        Some(s) => weight(s.active, l.issuance()) as Score,
        None => 0,
    };
    if !targets.contains_key(who) {
        targets.insert(who, w)
    } else {
        target_after(targets, l, who, StakeImbalance::Positive(w))
    }
}

/// Voter scores after `who`'s active stake became `stake`: a bonded
/// nominator or validator in the ranking gets the new weight.
pub open spec fn voters_on_stake_update(
    voters: Map<AccountId, Score>,
    l: Staking,
    who: AccountId,
    stake: Stake,
) -> Map<AccountId, Score> {
    match l.role(who) {
        Some(Role::Nominator(_)) | Some(Role::Validator) => if voters.contains_key(who) {
            voters.insert(who, weight(stake.active, l.issuance()) as Score)
        } else {
            voters
        },
        _ => voters,
    }
}

/// Target scores after `who`'s active stake changed from `prev` to `stake`:
/// a nominator's targets, or a validator itself, take the weight change.
pub open spec fn targets_on_stake_update(
    targets: Map<AccountId, Score>,
    l: Staking,
    who: AccountId,
    prev: Option<Stake>,
    stake: Stake,
) -> Map<AccountId, Score> {
    match l.role(who) {
        Some(Role::Nominator(noms)) => apply_all(
            targets,
            l,
            noms,
            Seq::empty(),
            imbalance_of(prev, stake, l.issuance()),
        ),
        Some(Role::Validator) => target_after(targets, l, who, imbalance_of(prev, stake, l.issuance())),
        _ => targets,
    }
}

/// Voter scores after validator `who` was removed: an active validator
/// leaves the voter ranking.
pub open spec fn voters_on_validator_remove(
    voters: Map<AccountId, Score>,
    l: Staking,
    who: AccountId,
) -> Map<AccountId, Score> {
    if l.role(who) == Some(Role::Validator) {
        voters.remove(who)
    } else {
        voters
    }
}

/// Target scores after validator `who` was removed: an active validator
/// first loses its self weight; an idle or active one then leaves the
/// ranking when its score is zero. Any other account changes nothing.
pub open spec fn targets_on_validator_remove(
    targets: Map<AccountId, Score>,
    l: Staking,
    who: AccountId,
) -> Map<AccountId, Score> {
    let idled = if l.role(who) == Some(Role::Validator) {
        targets_on_validator_idle(targets, l, who)
    } else {
        targets
    };
    match l.role(who) {
        Some(Role::Idle) | Some(Role::Validator) => if !idled.contains_key(who) || idled[who] == 0 {
            idled.remove(who)
        } else {
            idled
        },
        _ => targets,
    }
}

/// Whether `v` holds `x`.
pub fn contains_account(v: &Vec<AccountId>, x: AccountId) -> (r: bool)
    ensures
        r == v@.contains(x),
{
    let mut i: usize = 0;
    while i < v.len()
        invariant
            i <= v@.len(),
            forall|j: int| 0 <= j < i ==> v@[j] != x,
        decreases v@.len() - i,
    {
        if v[i] == x {
            return true;
        }
        i += 1;
    }
    false
}

impl Pallet {
    /// Both rankings are well formed.
    pub open spec fn wf(&self) -> bool {
        self.voter_list.wf() && self.target_list.wf()
    }

    /// A tracker with two empty rankings.
    pub fn new() -> (r: Pallet)
        ensures
            r.wf(),
            r.voter_list@ == Map::<AccountId, Score>::empty(),
            r.target_list@ == Map::<AccountId, Score>::empty(),
    {
        Pallet { voter_list: SortedList::new(), target_list: SortedList::new() }
    }

    /// Whether a target with `score` should leave the target ranking: its
    /// score is zero and it is not bonded.
    pub fn should_remove_target(staking: &Staking, who: AccountId, score: Score) -> (r: bool)
        ensures
            r == (score == 0 && !staking.bonded(who)),
    {
        score == 0 && staking.status(who).is_none()
    }

    /// Applies `imbalance` to the approval score of target `who`.
    pub fn update_target_score(
        &mut self,
        staking: &Staking,
        who: AccountId,
        imbalance: StakeImbalance,
    )
        requires
            old(self).wf(),
        ensures
            final(self).wf(),
            final(self).voter_list@ == old(self).voter_list@,
            final(self).target_list@ == target_after(
                old(self).target_list@,
                *staking,
                who,
                imbalance,
            ),
    {
        if !self.target_list.contains(who) {
            match staking.status(who) {
                Some(StakerStatus::Idle) => {
                    let _ = self.target_list.on_insert(who, 0);
                },
                _ => {
                    return ;
                },
            }
        }
        match imbalance {
            StakeImbalance::Positive(d) => {
                let _ = self.target_list.on_increase(who, d);
            },
            StakeImbalance::Negative(d) => {
                if let Ok(current) = self.target_list.get_score(who) {
                    let balance = current.saturating_sub(d);
                    if Self::should_remove_target(staking, who, balance) {
                        let _ = self.target_list.on_remove(who);
                    } else {
                        let _ = self.target_list.on_update(who, balance);
                    }
                }
            },
        }
        proof {
            assert(final(self).target_list@ =~= target_after(
                old(self).target_list@,
                *staking,
                who,
                imbalance,
            ));
        }
    }

    /// Applies `imbalance` to every target of `targets` that `skip` does not hold.
    pub fn update_target_scores(
        &mut self,
        staking: &Staking,
        targets: &Vec<AccountId>,
        skip: &Vec<AccountId>,
        imbalance: StakeImbalance,
    )
        requires
            old(self).wf(),
        ensures
            final(self).wf(),
            final(self).voter_list@ == old(self).voter_list@,
            final(self).target_list@ == apply_all(
                old(self).target_list@,
                *staking,
                targets@,
                skip@,
                imbalance,
            ),
    {
        let mut i: usize = 0;
        while i < targets.len()
            invariant
                self.wf(),
                i <= targets@.len(),
                self.voter_list@ == old(self).voter_list@,
                self.target_list@ == apply_all(
                    old(self).target_list@,
                    *staking,
                    targets@.subrange(0, i as int),
                    skip@,
                    imbalance,
                ),
            decreases targets@.len() - i,
        {
            let t = targets[i];
            proof {
                assert(targets@.subrange(0, i + 1).drop_last() =~= targets@.subrange(0, i as int));
            }
            if !contains_account(skip, t) {
                self.update_target_score(staking, t, imbalance);
            }
            i += 1;
        }
        proof {
            assert(targets@.subrange(0, i as int) =~= targets@);
        }
    }

    /// A staker's active stake changed from `prev_stake` to `stake`; the
    /// ledger already holds the new state.
    ///
    /// A nominator's voter score is set to the new weight and the weight
    /// change is applied to each of its targets; a validator's own target
    /// score takes the weight change and its voter score is set. Nothing
    /// happens for an idle or unbonded account.
    pub fn on_stake_update(
        &mut self,
        staking: &Staking,
        who: AccountId,
        prev_stake: Option<Stake>,
        stake: Stake,
    )
        requires
            old(self).wf(),
        ensures
            final(self).wf(),
            final(self).voter_list@ == voters_on_stake_update(
                old(self).voter_list@,
                *staking,
                who,
                stake,
            ),
            final(self).target_list@ == targets_on_stake_update(
                old(self).target_list@,
                *staking,
                who,
                prev_stake,
                stake,
            ),
    {
        if staking.stake(who).is_none() {
            return ;
        }
        let voter_weight = staking.weight_of(stake.active);
        let w = voter_weight as ExtendedBalance;
        let imbalance = match prev_stake {
            Some(p) => {
                let pw = staking.weight_of(p.active) as ExtendedBalance;
                if pw > w {
                    StakeImbalance::Negative(pw - w)
                } else {
                    StakeImbalance::Positive(w - pw)
                }
            },
            None => StakeImbalance::Positive(w),
        };
        let empty: Vec<AccountId> = Vec::new();
        match staking.status(who) {
            Some(StakerStatus::Nominator(nominations)) => {
                let _ = self.voter_list.on_update(who, w);
                self.update_target_scores(staking, nominations, &empty, imbalance);
                proof {
                    assert(empty@ =~= Seq::<AccountId>::empty());
                }
            },
            Some(StakerStatus::Validator) => {
                self.update_target_score(staking, who, imbalance);
                let _ = self.voter_list.on_update(who, w);
            },
            _ => {},
        }
    }

    /// `who` declared intent to validate with `self_stake`.
    ///
    /// A new target enters the target ranking with its self weight; one that
    /// was already there (idle or dangling) gains it. The validator then
    /// enters the voter ranking as a voter with no nominations.
    pub fn on_validator_add(&mut self, staking: &Staking, who: AccountId, self_stake: Option<Stake>)
        requires
            old(self).wf(),
        ensures
            final(self).wf(),
            final(self).voter_list@ == voters_with(old(self).voter_list@, *staking, who),
            final(self).target_list@ == targets_on_validator_add(
                old(self).target_list@,
                *staking,
                who,
                self_stake,
            ),
    {
        let self_weight: Score = match self_stake {
            Some(s) => staking.weight_of(s.active) as Score,
            None => 0,
        };
        if !self.target_list.contains(who) {
            let _ = self.target_list.on_insert(who, self_weight);
        } else {
            self.update_target_score(staking, who, StakeImbalance::Positive(self_weight));
        }
        let ghost mid = self.target_list@;
        self.on_nominator_add(staking, who, Vec::new());
        proof {
            assert(apply_all(mid, *staking, Seq::empty(), Seq::empty(), StakeImbalance::Positive(
                vote_of(*staking, who),
            )) == mid);
        }
    }

    /// Validator `who` became idle: its self weight leaves its target score,
    /// the nominations it holds stay, and it leaves the voter ranking.
    pub fn on_validator_idle(&mut self, staking: &Staking, who: AccountId)
        requires
            old(self).wf(),
        ensures
            final(self).wf(),
            final(self).voter_list@ == old(self).voter_list@.remove(who),
            final(self).target_list@ == targets_on_validator_idle(
                old(self).target_list@,
                *staking,
                who,
            ),
    {
        let self_weight = staking.weight_of(staking.active_vote_of(who)) as ExtendedBalance;
        self.update_target_score(staking, who, StakeImbalance::Negative(self_weight));
        let ghost mid = self.target_list@;
        self.on_nominator_idle(staking, who, Vec::new());
        proof {
            assert(apply_all(mid, *staking, Seq::empty(), Seq::empty(), StakeImbalance::Negative(
                vote_of(*staking, who),
            )) == mid);
        }
    }

    /// Validator `who` was removed from staking.
    ///
    /// An active validator is first made idle. Then the target leaves the
    /// target ranking if its score is zero. A nominator or an unbonded
    /// account is a broken precondition and changes nothing.
    pub fn on_validator_remove(&mut self, staking: &Staking, who: AccountId)
        requires
            old(self).wf(),
        ensures
            final(self).wf(),
            final(self).voter_list@ == voters_on_validator_remove(
                old(self).voter_list@,
                *staking,
                who,
            ),
            final(self).target_list@ == targets_on_validator_remove(
                old(self).target_list@,
                *staking,
                who,
            ),
    {
        match staking.status(who) {
            Some(StakerStatus::Idle) => {},
            Some(StakerStatus::Validator) => {
                self.on_validator_idle(staking, who);
            },
            _ => {
                return ;
            },
        }
        let score: Score = match self.target_list.get_score(who) {
            Ok(s) => s,
            Err(_) => 0,
        };
        if score == 0 {
            let _ = self.target_list.on_remove(who);
        }
    }

    /// `who` started nominating `nominations`.
    ///
    /// A voter already in the voter ranking is left as it is. Otherwise it
    /// enters with the weight of its active stake, and, when it is a
    /// nominator, each of its targets gains that weight.
    pub fn on_nominator_add(&mut self, staking: &Staking, who: AccountId, nominations: Vec<AccountId>)
        requires
            old(self).wf(),
        ensures
            final(self).wf(),
            final(self).voter_list@ == voters_with(old(self).voter_list@, *staking, who),
            final(self).target_list@ == targets_on_nominator_add(
                old(self).voter_list@,
                old(self).target_list@,
                *staking,
                who,
                nominations@,
            ),
    {
        let nominator_vote = staking.weight_of(staking.active_vote_of(who)) as Score;
        if self.voter_list.contains(who) {
            return ;
        }
        let _ = self.voter_list.on_insert(who, nominator_vote);
        let empty: Vec<AccountId> = Vec::new();
        match staking.status(who) {
            Some(StakerStatus::Nominator(_)) => {
                self.update_target_scores(
                    staking,
                    &nominations,
                    &empty,
                    StakeImbalance::Positive(nominator_vote),
                );
                proof {
                    assert(empty@ =~= Seq::<AccountId>::empty());
                }
            },
            _ => {},
        }
    }

    /// Nominator `who` became idle; for the rankings this is a removal.
    pub fn on_nominator_idle(&mut self, staking: &Staking, who: AccountId, nominations: Vec<AccountId>)
        requires
            old(self).wf(),
        ensures
            final(self).wf(),
            final(self).voter_list@ == old(self).voter_list@.remove(who),
            final(self).target_list@ == targets_on_nominator_remove(
                old(self).target_list@,
                *staking,
                who,
                nominations@,
            ),
    {
        self.on_nominator_remove(staking, who, nominations);
    }

    /// `who` stopped nominating `nominations`: each target loses the weight
    /// of its active stake, and it leaves the voter ranking.
    pub fn on_nominator_remove(
        &mut self,
        staking: &Staking,
        who: AccountId,
        nominations: Vec<AccountId>,
    )
        requires
            old(self).wf(),
        ensures
            final(self).wf(),
            final(self).voter_list@ == old(self).voter_list@.remove(who),
            final(self).target_list@ == targets_on_nominator_remove(
                old(self).target_list@,
                *staking,
                who,
                nominations@,
            ),
    {
        let nominator_vote = staking.weight_of(staking.active_vote_of(who)) as ExtendedBalance;
        let empty: Vec<AccountId> = Vec::new();
        self.update_target_scores(
            staking,
            &nominations,
            &empty,
            StakeImbalance::Negative(nominator_vote),
        );
        proof {
            assert(empty@ =~= Seq::<AccountId>::empty());
        }
        let _ = self.voter_list.on_remove(who);
        proof {
            assert(final(self).voter_list@ =~= old(self).voter_list@.remove(who));
        }
    }

    /// Nominator `who` changed its nominations from `prev_nominations` to
    /// `nominations`, its stake unchanged.
    ///
    /// Targets only in the new set gain its weight, targets only in the old
    /// set lose it, and targets in both are untouched.
    pub fn on_nominator_update(
        &mut self,
        staking: &Staking,
        who: AccountId,
        prev_nominations: Vec<AccountId>,
        nominations: Vec<AccountId>,
    )
        requires
            old(self).wf(),
        ensures
            final(self).wf(),
            final(self).voter_list@ == old(self).voter_list@,
            final(self).target_list@ == targets_on_nominator_update(
                old(self).target_list@,
                *staking,
                who,
                prev_nominations@,
                nominations@,
            ),
    {
        let nominator_vote = staking.weight_of(staking.active_vote_of(who)) as ExtendedBalance;
        self.update_target_scores(
            staking,
            &nominations,
            &prev_nominations,
            StakeImbalance::Positive(nominator_vote),
        );
        self.update_target_scores(
            staking,
            &prev_nominations,
            &nominations,
            StakeImbalance::Negative(nominator_vote),
        );
    }

    /// A slash happened. Slashes reach the rankings as stake updates, so
    /// nothing changes here.
    pub fn on_slash(&mut self, stash: AccountId, slashed_active: Score, slashed_total: Score)
        ensures
            final(self).voter_list@ == old(self).voter_list@,
            final(self).target_list@ == old(self).target_list@,
    {
    }
}

} // verus!
