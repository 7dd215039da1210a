//! Consistency checks: the approval scores recomputed from the voter ranking
//! and the stake source, compared with the target ranking, and the order of
//! the target ranking.

use vstd::prelude::*;
use crate::sorted_list::{AccountId, Score};
use crate::staking::{weight, Role, StakerStatus, Staking};
use crate::tracker::Pallet;

verus! {

/// A failed consistency check.
#[derive(Clone, Copy, Debug, PartialEq, Eq, Structural)]
pub enum TryStateError {
    /// A nominator's voter score differs from the weight of its active stake.
    VoterScoreMismatch,
    /// A nominator nominates an account absent from the target ranking.
    UntrackedNomination,
    /// An unbonded target is in the voter ranking.
    DanglingVoter,
    /// An unbonded target has score zero.
    DanglingWithoutApprovals,
    /// An idle target is in the voter ranking.
    IdleVoter,
    /// An active validator is absent from the voter ranking.
    ValidatorNotVoter,
    /// A nominator is in the target ranking.
    NominatorTarget,
    /// A target's score differs from its recomputed approvals.
    ApprovalMismatch,
    /// The target ranking is out of order.
    Unsorted,
}

/// `score` for each occurrence of `t` in the nominations `n`.
pub open spec fn nom_sum(score: Score, n: Seq<AccountId>, t: AccountId) -> int
    decreases n.len(),
{
    if n.len() == 0 {
        0
    } else {
        nom_sum(score, n.drop_last(), t) + if n.last() == t {
            score as int
        } else {
            0
        }
    }
}

/// What voter `v` contributes to the approvals of `t`.
pub open spec fn voter_contribution(
    voters: Map<AccountId, Score>,
    l: Staking,
    v: AccountId,
    t: AccountId,
) -> int {
    match l.role(v) {
        Some(Role::Nominator(n)) => nom_sum(voters[v], n, t),
        _ => 0,
    }
}

/// What the voters `vs` contribute to the approvals of `t`.
pub open spec fn nominated_approval(
    voters: Map<AccountId, Score>,
    l: Staking,
    vs: Seq<AccountId>,
    t: AccountId,
) -> int
    decreases vs.len(),
{
    if vs.len() == 0 {
        0
    } else {
        nominated_approval(voters, l, vs.drop_last(), t) + voter_contribution(
            voters,
            l,
            vs.last(),
            t,
        )
    }
}

/// The self weight that `t` adds to its own approvals.
pub open spec fn self_approval(l: Staking, t: AccountId) -> int {
    if l.role(t) == Some(Role::Validator) {
        weight(l.active_of(t), l.issuance()) as int
    } else {
        0
    }
}

/// The approvals of `t` recomputed from the voter ranking and the stake source.
pub open spec fn expected_approval(p: Pallet, l: Staking, t: AccountId) -> int {
    self_approval(l, t) + nominated_approval(p.voter_list@, l, p.voter_list.order(), t)
}

/// A voter in the voter ranking agrees with the stake source.
pub open spec fn voter_ok(p: Pallet, l: Staking, v: AccountId) -> bool {
    match l.role(v) {
        Some(Role::Nominator(n)) => p.voter_list@[v] == weight(l.active_of(v), l.issuance()) as Score
            && all_tracked(p, n),
        _ => true,
    }
}

/// Every account of `n` is in the target ranking.
pub open spec fn all_tracked(p: Pallet, n: Seq<AccountId>) -> bool {
    forall|j: int| 0 <= j < n.len() ==> p.target_list@.contains_key(#[trigger] n[j])
}

/// A target's role fits its place in the rankings.
pub open spec fn target_role_ok(p: Pallet, l: Staking, t: AccountId) -> bool {
    match l.role(t) {
        None => !p.voter_list@.contains_key(t) && p.target_list@[t] > 0,
        Some(Role::Idle) => !p.voter_list@.contains_key(t),
        Some(Role::Validator) => p.voter_list@.contains_key(t),
        Some(Role::Nominator(_)) => false,
    }
}

/// A target in the target ranking agrees with the rest of the state.
pub open spec fn target_ok(p: Pallet, l: Staking, t: AccountId) -> bool {
    target_role_ok(p, l, t) && p.target_list@[t] as int == expected_approval(p, l, t)
}

/// Every voter and every target agrees with the stake source.
pub open spec fn approvals_consistent(p: Pallet, l: Staking) -> bool {
    &&& forall|i: int|
        0 <= i < p.voter_list.order().len() ==> voter_ok(p, l, #[trigger] p.voter_list.order()[i])
    &&& forall|i: int|
        0 <= i < p.target_list.order().len() ==> target_ok(
            p,
            l,
            #[trigger] p.target_list.order()[i],
        )
}

/// Consecutive targets in ranking order never go up in score.
pub open spec fn targets_sorted(p: Pallet) -> bool {
    forall|i: int|
        0 <= i && i + 1 < p.target_list.order().len() ==> p.target_list@[p.target_list.order()[i]]
            >= p.target_list@[#[trigger] p.target_list.order()[i + 1]]
}

proof fn lemma_nom_sum_prefix(score: Score, n: Seq<AccountId>, j: int, t: AccountId)
    requires
        0 <= j <= n.len(),
    ensures
        0 <= nom_sum(score, n.subrange(0, j), t) <= nom_sum(score, n, t),
    decreases n.len(),
{
    if j == n.len() {
        assert(n.subrange(0, j) =~= n);
        if n.len() > 0 {
            lemma_nom_sum_prefix(score, n.drop_last(), 0, t);
            assert(n.drop_last().subrange(0, 0) =~= Seq::<AccountId>::empty());
        }
    } else {
        lemma_nom_sum_prefix(score, n.drop_last(), j, t);
        assert(n.drop_last().subrange(0, j) =~= n.subrange(0, j));
    }
}

proof fn lemma_nominated_prefix(
    voters: Map<AccountId, Score>,
    l: Staking,
    vs: Seq<AccountId>,
    k: int,
    t: AccountId,
)
    requires
        0 <= k <= vs.len(),
    ensures
        0 <= nominated_approval(voters, l, vs.subrange(0, k), t) <= nominated_approval(
            voters,
            l,
            vs,
            t,
        ),
    decreases vs.len(),
{
    if vs.len() > 0 {
        let v = vs.last();
        if let Some(Role::Nominator(n)) = l.role(v) {
            lemma_nom_sum_prefix(voters[v], n, 0, t);
            assert(n.subrange(0, 0) =~= Seq::<AccountId>::empty());
        }
    }
    if k == vs.len() {
        assert(vs.subrange(0, k) =~= vs);
        if vs.len() > 0 {
            lemma_nominated_prefix(voters, l, vs.drop_last(), 0, t);
            assert(vs.drop_last().subrange(0, 0) =~= Seq::<AccountId>::empty());
        }
    } else {
        lemma_nominated_prefix(voters, l, vs.drop_last(), k, t);
        assert(vs.drop_last().subrange(0, k) =~= vs.subrange(0, k));
    }
}

impl Pallet {
    /// Runs both consistency checks: approvals, then target order.
    pub fn do_try_state(&self, staking: &Staking) -> (r: Result<(), TryStateError>)
        requires
            self.wf(),
        ensures
            r is Ok <==> approvals_consistent(*self, *staking) && targets_sorted(*self),
    {
        self.do_try_state_approvals(staking)?;
        self.do_try_state_target_sorting()
    }

    /// Recomputes `t`'s approvals from the nominators in `voters`; `None`
    /// when the sum exceeds the score range.
    fn nominated_approval_of(&self, staking: &Staking, voters: &Vec<AccountId>, t: AccountId) -> (r:
        Option<Score>)
        requires
            self.wf(),
            voters@ == self.voter_list.order(),
        ensures
            r matches Some(x) ==> x as int == nominated_approval(
                self.voter_list@,
                *staking,
                voters@,
                t,
            ),
            r is None ==> nominated_approval(self.voter_list@, *staking, voters@, t) > Score::MAX,
    {
        proof {
            self.voter_list.lemma_order();
        }
        let mut acc: Score = 0;
        let mut i: usize = 0;
        while i < voters.len()
            invariant
                self.wf(),
                voters@ == self.voter_list.order(),
                i <= voters@.len(),
                acc as int == nominated_approval(
                    self.voter_list@,
                    *staking,
                    voters@.subrange(0, i as int),
                    t,
                ),
                forall|k: AccountId| self.voter_list@.contains_key(k) <==> voters@.contains(k),
            decreases voters@.len() - i,
        {
            let v = voters[i];
            proof {
                assert(voters@.subrange(0, i + 1).drop_last() =~= voters@.subrange(0, i as int));
                assert(voters@.subrange(0, i + 1).last() == v);
                assert(voters@[i as int] == v);
                assert(voters@.contains(v));
            }
            match staking.status(v) {
                Some(StakerStatus::Nominator(noms)) => {
                    let score = match self.voter_list.get_score(v) {
                        Ok(s) => s,
                        Err(_) => 0,
                    };
                    let mut j: usize = 0;
                    while j < noms.len()
                        invariant
                            self.wf(),
                            voters@ == self.voter_list.order(),
                            i < voters@.len(),
                            voters@[i as int] == v,
                            voters@.subrange(0, i + 1).drop_last() == voters@.subrange(0, i as int),
                            staking.role(v) == Some(Role::Nominator(noms@)),
                            j <= noms@.len(),
                            self.voter_list@.contains_key(v),
                            score == self.voter_list@[v],
                            acc as int == nominated_approval(
                                self.voter_list@,
                                *staking,
                                voters@.subrange(0, i as int),
                                t,
                            ) + nom_sum(score, noms@.subrange(0, j as int), t),
                        decreases noms@.len() - j,
                    {
                        proof {
                            assert(noms@.subrange(0, j + 1).drop_last() =~= noms@.subrange(
                                0,
                                j as int,
                            ));
                        }
                        if noms[j] == t {
                            match acc.checked_add(score) {
                                Some(a) => {
                                    acc = a;
                                },
                                None => {
                                    proof {
                                        assert(voters@.subrange(0, i + 1).last() == v);
                                        lemma_nom_sum_prefix(score, noms@, j + 1, t);
                                        lemma_nominated_prefix(
                                            self.voter_list@,
                                            *staking,
                                            voters@,
                                            i + 1,
                                            t,
                                        );
                                    }
                                    return None;
                                },
                            }
                        }
                        j += 1;
                    }
                    proof {
                        assert(noms@.subrange(0, j as int) =~= noms@);
                    }
                },
                _ => {},
            }
            i += 1;
        }
        proof {
            assert(voters@.subrange(0, i as int) =~= voters@);
        }
        Some(acc)
    }

    /// Checks the approvals of every target against those recomputed from
    /// the voter ranking and the stake source, and each staker's role
    /// against its place in the rankings.
    pub fn do_try_state_approvals(&self, staking: &Staking) -> (r: Result<(), TryStateError>)
        requires
            self.wf(),
        ensures
            r is Ok <==> approvals_consistent(*self, *staking),
    {
        proof {
            self.voter_list.lemma_order();
            self.target_list.lemma_order();
        }
        let voters = self.voter_list.iter();
        let mut i: usize = 0;
        while i < voters.len()
            invariant
                self.wf(),
                voters@ == self.voter_list.order(),
                i <= voters@.len(),
                forall|k: int| 0 <= k < i ==> voter_ok(*self, *staking, #[trigger] voters@[k]),
                forall|k: AccountId| self.voter_list@.contains_key(k) <==> voters@.contains(k),
            decreases voters@.len() - i,
        {
            let v = voters[i];
            proof {
                assert(voters@[i as int] == v);
                assert(voters@.contains(v));
            }
            match staking.status(v) {
                Some(StakerStatus::Nominator(noms)) => {
                    let score = match self.voter_list.get_score(v) {
                        Ok(s) => s,
                        Err(_) => 0,
                    };
                    if score != staking.weight_of(staking.active_vote_of(v)) as Score {
                        proof {
                            assert(!voter_ok(*self, *staking, voters@[i as int]));
                        }
                        return Err(TryStateError::VoterScoreMismatch);
                    }
                    let mut j: usize = 0;
                    while j < noms.len()
                        invariant
                            self.wf(),
                            voters@ == self.voter_list.order(),
                            i < voters@.len(),
                            voters@[i as int] == v,
                            staking.role(v) == Some(Role::Nominator(noms@)),
                            j <= noms@.len(),
                            forall|m: int|
                                0 <= m < j ==> self.target_list@.contains_key(#[trigger] noms@[m]),
                        decreases noms@.len() - j,
                    {
                        if !self.target_list.contains(noms[j]) {
                            proof {
                                let n = noms@;
                                assert(!self.target_list@.contains_key(n[j as int]));
                                assert(staking.role(voters@[i as int]) == Some(Role::Nominator(n)));
                                assert(!all_tracked(*self, n));
                                assert(!voter_ok(*self, *staking, voters@[i as int]));
                            }
                            return Err(TryStateError::UntrackedNomination);
                        }
                        j += 1;
                    }
                },
                _ => {},
            }
            i += 1;
        }
        let targets = self.target_list.iter();
        let mut i: usize = 0;
        while i < targets.len()
            invariant
                self.wf(),
                voters@ == self.voter_list.order(),
                targets@ == self.target_list.order(),
                i <= targets@.len(),
                forall|k: int| 0 <= k < voters@.len() ==> voter_ok(*self, *staking, #[trigger] voters@[k]),
                forall|k: int| 0 <= k < i ==> target_ok(*self, *staking, #[trigger] targets@[k]),
                forall|k: AccountId| self.target_list@.contains_key(k) <==> targets@.contains(k),
            decreases targets@.len() - i,
        {
            let t = targets[i];
            proof {
                assert(targets@[i as int] == t);
                assert(targets@.contains(t));
            }
            let score = match self.target_list.get_score(t) {
                Ok(s) => s,
                Err(_) => 0,
            };
            let self_weight: Score = match staking.status(t) {
                None => {
                    if self.voter_list.contains(t) {
                        return Err(TryStateError::DanglingVoter);
                    }
                    if score == 0 {
                        return Err(TryStateError::DanglingWithoutApprovals);
                    }
                    0
                },
                Some(StakerStatus::Idle) => {
                    if self.voter_list.contains(t) {
                        return Err(TryStateError::IdleVoter);
                    }
                    0
                },
                Some(StakerStatus::Validator) => {
                    if !self.voter_list.contains(t) {
                        return Err(TryStateError::ValidatorNotVoter);
                    }
                    staking.weight_of(staking.active_vote_of(t)) as Score
                },
                Some(StakerStatus::Nominator(_)) => {
                    return Err(TryStateError::NominatorTarget);
                },
            };
            let nominated = match self.nominated_approval_of(staking, &voters, t) {
                Some(x) => x,
                None => {
                    return Err(TryStateError::ApprovalMismatch);
                },
            };
            match self_weight.checked_add(nominated) {
                Some(expected) => {
                    if expected != score {
                        return Err(TryStateError::ApprovalMismatch);
                    }
                },
                None => {
                    return Err(TryStateError::ApprovalMismatch);
                },
            }
            i += 1;
        }
        Ok(())
    }

    /// Checks that target scores never go up along the target ranking.
    pub fn do_try_state_target_sorting(&self) -> (r: Result<(), TryStateError>)
        requires
            self.wf(),
        ensures
            r is Ok <==> targets_sorted(*self),
            r is Ok,
    {
        proof {
            self.target_list.lemma_order();
        }
        let targets = self.target_list.iter();
        if targets.len() == 0 {
            return Ok(());
        }
        let mut previous = match self.target_list.get_score(targets[0]) {
            Ok(s) => s,
            Err(_) => 0,
        };
        proof {
            assert(targets@[0] == targets[0]);
            assert(targets@.contains(targets@[0]));
        }
        let mut i: usize = 1;
        while i < targets.len()
            invariant
                self.wf(),
                targets@ == self.target_list.order(),
                1 <= i <= targets@.len(),
                self.target_list@.contains_key(targets@[i - 1]),
                previous == self.target_list@[targets@[i - 1]],
                forall|k: int|
                    0 <= k && k + 1 < i ==> self.target_list@[targets@[k]]
                        >= self.target_list@[#[trigger] targets@[k + 1]],
                forall|k: AccountId| self.target_list@.contains_key(k) <==> targets@.contains(k),
                forall|a: int, b: int|
                    0 <= a < b < targets@.len() ==> self.target_list@[targets@[a]]
                        >= self.target_list@[targets@[b]],
            decreases targets@.len() - i,
        {
            let t = targets[i];
            proof {
                assert(targets@[i as int] == t);
                assert(targets@.contains(t));
                assert(self.target_list@[targets@[i - 1]] >= self.target_list@[targets@[i as int]]);
            }
            let score = match self.target_list.get_score(t) {
                Ok(s) => s,
                Err(_) => 0,
            };
            if previous < score {
                return Err(TryStateError::Unsorted);
            }
            previous = score;
            i += 1;
        }
        Ok(())
    }
}

} // verus!
