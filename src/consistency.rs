//! The tracker's invariant: every target score equals the target's
//! approval weight, summed over the ledger, and each staker's role fits its
//! place in the rankings. Each event handler keeps it, and a state that
//! meets it passes both consistency checks.

use vstd::prelude::*;
use crate::sorted_list::{AccountId, Score};
use crate::staking::{Role, Stake, Staking};
use crate::tracker::{
    apply_all, imbalance_of, target_after, targets_on_nominator_add, targets_on_nominator_remove,
    targets_on_nominator_update, targets_on_stake_update, targets_on_validator_add,
    targets_on_validator_idle, targets_on_validator_remove, vote_of, voters_on_stake_update,
    voters_on_validator_remove, voters_with, Pallet, StakeImbalance,
};
use crate::try_state::{
    approvals_consistent, nom_sum, nominated_approval, target_ok, targets_sorted,
    voter_contribution, voter_ok,
};
use vstd::set::fold::{is_fun_commutative, lemma_fold_empty, lemma_fold_insert};

verus! {

/// What nominator `v` adds to the approvals of `t`: the weight of its active
/// stake when it nominates `t`.
pub open spec fn contribution(l: Staking, v: AccountId, t: AccountId) -> int {
    match l.role(v) {
        Some(Role::Nominator(n)) => if n.contains(t) {
            vote_of(l, v) as int
        } else {
            0
        },
        _ => 0,
    }
}

/// The sum of `c` over the accounts of `s`.
pub open spec fn sum_of(s: Set<AccountId>, c: spec_fn(AccountId) -> int) -> int {
    s.fold(0int, |acc: int, v: AccountId| acc + c(v))
}

/// The approval weight of `t`: its self weight when it validates, plus the
/// weight of every bonded nominator that nominates it.
pub open spec fn approval(l: Staking, t: AccountId) -> int {
    (if l.role(t) == Some(Role::Validator) {
        vote_of(l, t) as int
    } else {
        0
    }) + sum_of(l.accounts(), |v: AccountId| contribution(l, v, t))
}

/// Every target in the ranking has exactly its approval weight as score.
pub open spec fn scores_exact(targets: Map<AccountId, Score>, l: Staking) -> bool {
    forall|t: AccountId| #[trigger] targets.contains_key(t) ==> targets[t] as int == approval(l, t)
}

/// No account outside the ranking has approval weight.
pub open spec fn untracked_unapproved(targets: Map<AccountId, Score>, l: Staking) -> bool {
    forall|t: AccountId| !targets.contains_key(t) ==> #[trigger] approval(l, t) == 0
}

/// `l2` is `l1` with the nominations of `who` changed from `prev` to `noms`.
pub open spec fn renominated(
    l1: Staking,
    l2: Staking,
    who: AccountId,
    prev: Seq<AccountId>,
    noms: Seq<AccountId>,
) -> bool {
    &&& l1.role(who) == Some(Role::Nominator(prev))
    &&& l2.role(who) == Some(Role::Nominator(noms))
    &&& only_changed(l1, l2, who)
    &&& l2.stake_of(who) == l1.stake_of(who)
}

proof fn lemma_sum_commutative(c: spec_fn(AccountId) -> int)
    ensures
        is_fun_commutative(|acc: int, v: AccountId| acc + c(v)),
{
}

proof fn lemma_sum_insert(s: Set<AccountId>, c: spec_fn(AccountId) -> int, x: AccountId)
    requires
        s.finite(),
        !s.contains(x),
    ensures
        sum_of(s.insert(x), c) == sum_of(s, c) + c(x),
{
    lemma_sum_commutative(c);
    lemma_fold_insert(s, 0int, |acc: int, v: AccountId| acc + c(v), x);
}

proof fn lemma_sum_eq(s: Set<AccountId>, c1: spec_fn(AccountId) -> int, c2: spec_fn(AccountId) -> int)
    requires
        s.finite(),
        forall|v: AccountId| s.contains(v) ==> c1(v) == c2(v),
    ensures
        sum_of(s, c1) == sum_of(s, c2),
    decreases s.len(),
{
    if s.len() == 0 {
        assert(s =~= Set::<AccountId>::empty());
        lemma_fold_empty(0int, |acc: int, v: AccountId| acc + c1(v));
        lemma_fold_empty(0int, |acc: int, v: AccountId| acc + c2(v));
    } else {
        let x = s.choose();
        let r = s.remove(x);
        assert(r.insert(x) =~= s);
        lemma_sum_eq(r, c1, c2);
        lemma_sum_insert(r, c1, x);
        lemma_sum_insert(r, c2, x);
    }
}

proof fn lemma_sum_empty(c: spec_fn(AccountId) -> int)
    ensures
        sum_of(Set::empty(), c) == 0,
{
    lemma_fold_empty(0int, |acc: int, v: AccountId| acc + c(v));
}

proof fn lemma_sum_nonneg(s: Set<AccountId>, c: spec_fn(AccountId) -> int)
    requires
        s.finite(),
        forall|v: AccountId| #[trigger] c(v) >= 0,
    ensures
        sum_of(s, c) >= 0,
    decreases s.len(),
{
    if s.len() == 0 {
        assert(s =~= Set::<AccountId>::empty());
        lemma_fold_empty(0int, |acc: int, v: AccountId| acc + c(v));
    } else {
        let x = s.choose();
        let r = s.remove(x);
        assert(r.insert(x) =~= s);
        lemma_sum_nonneg(r, c);
        lemma_sum_insert(r, c, x);
    }
}

/// The sum over `s` split into the term of `x` and the rest.
proof fn lemma_sum_split(s: Set<AccountId>, c: spec_fn(AccountId) -> int, x: AccountId)
    requires
        s.finite(),
        s.contains(x),
    ensures
        sum_of(s, c) == sum_of(s.remove(x), c) + c(x),
{
    assert(s.remove(x).insert(x) =~= s);
    lemma_sum_insert(s.remove(x), c, x);
}

/// `l2` is `l1` with only the role and stake of `who` changed.
pub open spec fn only_changed(l1: Staking, l2: Staking, who: AccountId) -> bool {
    &&& l2.issuance() == l1.issuance()
    &&& forall|v: AccountId| v != who ==> #[trigger] l2.role(v) == l1.role(v)
    &&& forall|v: AccountId| v != who ==> #[trigger] l2.stake_of(v) == l1.stake_of(v)
}

/// The self weight of `t`: the weight of its active stake when it validates.
pub open spec fn self_part(l: Staking, t: AccountId) -> int {
    if l.role(t) == Some(Role::Validator) {
        vote_of(l, t) as int
    } else {
        0
    }
}

/// How approvals move when one account changes: only its own nominations
/// and, for itself, its self weight count differently.
proof fn lemma_approval_one_changed(l1: Staking, l2: Staking, who: AccountId, t: AccountId)
    requires
        only_changed(l1, l2, who),
    ensures
        approval(l2, t) - self_part(l2, t) == approval(l1, t) - self_part(l1, t) - contribution(
            l1,
            who,
            t,
        ) + contribution(l2, who, t),
        approval(l1, t) - self_part(l1, t) - contribution(l1, who, t) >= 0,
        contribution(l1, who, t) >= 0,
        contribution(l2, who, t) >= 0,
        self_part(l1, t) >= 0,
        t != who ==> self_part(l1, t) == self_part(l2, t),
{
    l1.lemma_accounts();
    l2.lemma_accounts();
    let s1 = l1.accounts();
    let s2 = l2.accounts();
    assert(s1.remove(who) =~= s2.remove(who)) by {
        assert forall|v: AccountId| s1.remove(who).contains(v) == s2.remove(who).contains(v) by {
            if v != who {
                assert(l2.role(v) == l1.role(v));
            }
        }
    }
    if t != who {
        assert(l2.role(t) == l1.role(t));
        assert(l2.stake_of(t) == l1.stake_of(t));
    }
    let c1 = |v: AccountId| contribution(l1, v, t);
    let c2 = |v: AccountId| contribution(l2, v, t);
    assert forall|v: AccountId| s1.remove(who).contains(v) implies c1(v) == c2(v) by {
        assert(l2.role(v) == l1.role(v));
        assert(l2.stake_of(v) == l1.stake_of(v));
    }
    lemma_sum_eq(s1.remove(who), c1, c2);
    if s1.contains(who) {
        lemma_sum_split(s1, c1, who);
    } else {
        assert(s1.remove(who) =~= s1);
    }
    if s2.contains(who) {
        lemma_sum_split(s2, c2, who);
    } else {
        assert(s2.remove(who) =~= s2);
    }
    lemma_sum_nonneg(s1.remove(who), c1);
}

/// `m1` and `m2` agree on `t`.
pub open spec fn same_at(m1: Map<AccountId, Score>, m2: Map<AccountId, Score>, t: AccountId) -> bool {
    &&& m1.contains_key(t) == m2.contains_key(t)
    &&& m1.contains_key(t) ==> m1[t] == m2[t]
}

/// Applying an imbalance to a list of distinct targets acts on each of them
/// as a single update, and leaves every other target alone.
proof fn lemma_apply_all_at(
    targets: Map<AccountId, Score>,
    l: Staking,
    ts: Seq<AccountId>,
    skip: Seq<AccountId>,
    imb: StakeImbalance,
    t: AccountId,
)
    requires
        ts.no_duplicates(),
    ensures
        same_at(
            apply_all(targets, l, ts, skip, imb),
            if ts.contains(t) && !skip.contains(t) {
                target_after(targets, l, t, imb)
            } else {
                targets
            },
            t,
        ),
    decreases ts.len(),
{
    if ts.len() > 0 {
        let rest = ts.drop_last();
        assert(rest.no_duplicates());
        lemma_apply_all_at(targets, l, rest, skip, imb, t);
        let x = ts.last();
        if x == t {
            assert(!rest.contains(t)) by {
                if rest.contains(t) {
                    let i = choose|i: int| 0 <= i < rest.len() && rest[i] == t;
                    assert(ts[i] == ts[ts.len() - 1]);
                }
            }
        } else {
            assert(ts.contains(t) == rest.contains(t)) by {
                if ts.contains(t) {
                    let i = choose|i: int| 0 <= i < ts.len() && ts[i] == t;
                    assert(rest[i] == t);
                }
                if rest.contains(t) {
                    let i = choose|i: int| 0 <= i < rest.len() && rest[i] == t;
                    assert(ts[i] == t);
                }
            }
        }
    }
}

/// Changing a nominator's nominations keeps every target score equal to its
/// approval weight and leaves no approval weight outside the ranking, when
/// the nominations hold no account twice, each newly nominated account is
/// tracked or idle, and every approval weight fits in a score.
pub proof fn lemma_nominator_update_keeps_scores_exact(
    targets: Map<AccountId, Score>,
    l1: Staking,
    l2: Staking,
    who: AccountId,
    prev: Seq<AccountId>,
    noms: Seq<AccountId>,
)
    requires
        renominated(l1, l2, who, prev, noms),
        prev.no_duplicates(),
        noms.no_duplicates(),
        scores_exact(targets, l1),
        untracked_unapproved(targets, l1),
        forall|t: AccountId|
            #[trigger] noms.contains(t) ==> targets.contains_key(t) || l2.role(t) == Some(
                Role::Idle,
            ),
        forall|t: AccountId| #[trigger] approval(l2, t) <= Score::MAX,
    ensures
        scores_exact(targets_on_nominator_update(targets, l2, who, prev, noms), l2),
        untracked_unapproved(targets_on_nominator_update(targets, l2, who, prev, noms), l2),
{
    let w = vote_of(l2, who);
    let mid = apply_all(targets, l2, noms, prev, StakeImbalance::Positive(w));
    let post = targets_on_nominator_update(targets, l2, who, prev, noms);
    assert forall|t: AccountId| #![auto]
        (post.contains_key(t) ==> post[t] as int == approval(l2, t)) && (!post.contains_key(t)
            ==> approval(l2, t) == 0) by {
        lemma_approval_one_changed(l1, l2, who, t);
        assert(vote_of(l1, who) == w);
        lemma_apply_all_at(targets, l2, noms, prev, StakeImbalance::Positive(w), t);
        lemma_apply_all_at(mid, l2, prev, noms, StakeImbalance::Negative(w), t);
        if noms.contains(t) && !prev.contains(t) {
            assert(approval(l2, t) <= Score::MAX);
        }
        if prev.contains(t) && !noms.contains(t) {
            assert(l2.role(t) == l1.role(t) || t == who);
        }
    }
}

/// A nominator joining keeps every target score equal to its approval
/// weight and leaves no approval weight outside the ranking, when it was not
/// nominating before, is not yet a voter, nominates no account twice, each
/// nominated account is tracked or idle, and every approval weight fits in a
/// score.
pub proof fn lemma_nominator_add_keeps_scores_exact(
    voters: Map<AccountId, Score>,
    targets: Map<AccountId, Score>,
    l1: Staking,
    l2: Staking,
    who: AccountId,
    noms: Seq<AccountId>,
)
    requires
        only_changed(l1, l2, who),
        l1.role(who) is None || l1.role(who) == Some(Role::Idle),
        l2.role(who) == Some(Role::Nominator(noms)),
        !voters.contains_key(who),
        noms.no_duplicates(),
        scores_exact(targets, l1),
        untracked_unapproved(targets, l1),
        forall|t: AccountId|
            #[trigger] noms.contains(t) ==> targets.contains_key(t) || l2.role(t) == Some(
                Role::Idle,
            ),
        forall|t: AccountId| #[trigger] approval(l2, t) <= Score::MAX,
    ensures
        scores_exact(targets_on_nominator_add(voters, targets, l2, who, noms), l2),
        untracked_unapproved(targets_on_nominator_add(voters, targets, l2, who, noms), l2),
{
    let w = vote_of(l2, who);
    let post = targets_on_nominator_add(voters, targets, l2, who, noms);
    assert forall|t: AccountId| #![auto]
        (post.contains_key(t) ==> post[t] as int == approval(l2, t)) && (!post.contains_key(t)
            ==> approval(l2, t) == 0) by {
        lemma_approval_one_changed(l1, l2, who, t);
        lemma_apply_all_at(targets, l2, noms, Seq::empty(), StakeImbalance::Positive(w), t);
        if noms.contains(t) {
            assert(approval(l2, t) <= Score::MAX);
        }
    }
}

/// A nominator chilling keeps every target score equal to its approval
/// weight and leaves no approval weight outside the ranking, when it stays
/// bonded with the same stake and its nominations hold no account twice.
pub proof fn lemma_nominator_remove_keeps_scores_exact(
    targets: Map<AccountId, Score>,
    l1: Staking,
    l2: Staking,
    who: AccountId,
    noms: Seq<AccountId>,
)
    requires
        only_changed(l1, l2, who),
        l1.role(who) == Some(Role::Nominator(noms)),
        l2.role(who) == Some(Role::Idle),
        l2.stake_of(who) == l1.stake_of(who),
        noms.no_duplicates(),
        scores_exact(targets, l1),
        untracked_unapproved(targets, l1),
    ensures
        scores_exact(targets_on_nominator_remove(targets, l2, who, noms), l2),
        untracked_unapproved(targets_on_nominator_remove(targets, l2, who, noms), l2),
{
    let w = vote_of(l2, who);
    let post = targets_on_nominator_remove(targets, l2, who, noms);
    assert forall|t: AccountId| #![auto]
        (post.contains_key(t) ==> post[t] as int == approval(l2, t)) && (!post.contains_key(t)
            ==> approval(l2, t) == 0) by {
        lemma_approval_one_changed(l1, l2, who, t);
        assert(vote_of(l1, who) == w);
        lemma_apply_all_at(targets, l2, noms, Seq::empty(), StakeImbalance::Negative(w), t);
    }
}

/// A change of a nominator's or a validator's active stake keeps every
/// target score equal to its approval weight and leaves no approval weight
/// outside the ranking, when the previous stake is the one the ledger held,
/// its role stays, its nominations hold no account twice and are tracked or
/// idle, a validator is tracked, and every approval weight fits in a score.
pub proof fn lemma_stake_update_keeps_scores_exact(
    targets: Map<AccountId, Score>,
    l1: Staking,
    l2: Staking,
    who: AccountId,
    prev: Option<Stake>,
    stake: Stake,
)
    requires
        only_changed(l1, l2, who),
        l1.role(who) == l2.role(who),
        l1.stake_of(who) == prev,
        l2.stake_of(who) == Some(stake),
        l2.role(who) matches Some(Role::Nominator(noms)) ==> noms.no_duplicates() && forall|
            t: AccountId,
        |
            #[trigger] noms.contains(t) ==> targets.contains_key(t) || l2.role(t) == Some(
                Role::Idle,
            ),
        l2.role(who) == Some(Role::Validator) ==> targets.contains_key(who),
        scores_exact(targets, l1),
        untracked_unapproved(targets, l1),
        forall|t: AccountId| #[trigger] approval(l2, t) <= Score::MAX,
    ensures
        scores_exact(targets_on_stake_update(targets, l2, who, prev, stake), l2),
        untracked_unapproved(targets_on_stake_update(targets, l2, who, prev, stake), l2),
{
    let imb = imbalance_of(prev, stake, l2.issuance());
    let post = targets_on_stake_update(targets, l2, who, prev, stake);
    assert forall|t: AccountId| #![auto]
        (post.contains_key(t) ==> post[t] as int == approval(l2, t)) && (!post.contains_key(t)
            ==> approval(l2, t) == 0) by {
        lemma_approval_one_changed(l1, l2, who, t);
        assert(approval(l2, t) <= Score::MAX);
        match l2.role(who) {
            Some(Role::Nominator(noms)) => {
                lemma_apply_all_at(targets, l2, noms, Seq::empty(), imb, t);
            },
            _ => {},
        }
    }
}

/// A validator joining, or coming back from idle, keeps every target score
/// equal to its approval weight and leaves no approval weight outside the
/// ranking, when it was idle or unbonded before, its declared self stake is
/// the one the ledger holds, and every approval weight fits in a score.
pub proof fn lemma_validator_add_keeps_scores_exact(
    targets: Map<AccountId, Score>,
    l1: Staking,
    l2: Staking,
    who: AccountId,
    self_stake: Option<Stake>,
)
    requires
        only_changed(l1, l2, who),
        l1.role(who) is None || l1.role(who) == Some(Role::Idle),
        l2.role(who) == Some(Role::Validator),
        l2.stake_of(who) == self_stake,
        scores_exact(targets, l1),
        untracked_unapproved(targets, l1),
        forall|t: AccountId| #[trigger] approval(l2, t) <= Score::MAX,
    ensures
        scores_exact(targets_on_validator_add(targets, l2, who, self_stake), l2),
        untracked_unapproved(targets_on_validator_add(targets, l2, who, self_stake), l2),
{
    let post = targets_on_validator_add(targets, l2, who, self_stake);
    assert forall|t: AccountId| #![auto]
        (post.contains_key(t) ==> post[t] as int == approval(l2, t)) && (!post.contains_key(t)
            ==> approval(l2, t) == 0) by {
        lemma_approval_one_changed(l1, l2, who, t);
        assert(approval(l2, t) <= Score::MAX);
    }
}

/// A validator becoming idle keeps every target score equal to its approval
/// weight and leaves no approval weight outside the ranking, when it stays
/// bonded with the same stake and was tracked.
pub proof fn lemma_validator_idle_keeps_scores_exact(
    targets: Map<AccountId, Score>,
    l1: Staking,
    l2: Staking,
    who: AccountId,
)
    requires
        only_changed(l1, l2, who),
        l1.role(who) == Some(Role::Validator),
        l2.role(who) == Some(Role::Idle),
        l2.stake_of(who) == l1.stake_of(who),
        targets.contains_key(who),
        scores_exact(targets, l1),
        untracked_unapproved(targets, l1),
    ensures
        scores_exact(targets_on_validator_idle(targets, l2, who), l2),
        untracked_unapproved(targets_on_validator_idle(targets, l2, who), l2),
{
    let post = targets_on_validator_idle(targets, l2, who);
    assert forall|t: AccountId| #![auto]
        (post.contains_key(t) ==> post[t] as int == approval(l2, t)) && (!post.contains_key(t)
            ==> approval(l2, t) == 0) by {
        lemma_approval_one_changed(l1, l2, who, t);
    }
}

/// Removing an idle validator, with the ledger as it was, keeps every target
/// score equal to its approval weight and leaves no approval weight outside
/// the ranking.
pub proof fn lemma_validator_remove_keeps_scores_exact(
    targets: Map<AccountId, Score>,
    l: Staking,
    who: AccountId,
)
    requires
        l.role(who) == Some(Role::Idle),
        scores_exact(targets, l),
        untracked_unapproved(targets, l),
    ensures
        scores_exact(targets_on_validator_remove(targets, l, who), l),
        untracked_unapproved(targets_on_validator_remove(targets, l, who), l),
{
}

/// A target's role fits its place in the rankings: an unbonded one is no
/// voter and has a positive score, an idle one is no voter, a validator is a
/// voter, and a nominator is no target.
pub open spec fn role_fits(
    voters: Map<AccountId, Score>,
    targets: Map<AccountId, Score>,
    l: Staking,
    t: AccountId,
) -> bool {
    match l.role(t) {
        None => !voters.contains_key(t) && targets[t] > 0,
        Some(Role::Idle) => !voters.contains_key(t),
        Some(Role::Validator) => voters.contains_key(t),
        Some(Role::Nominator(_)) => false,
    }
}

/// A nominator is scored by its weight, which is positive, and nominates
/// distinct accounts, all tracked.
pub open spec fn nominator_fits(
    voters: Map<AccountId, Score>,
    targets: Map<AccountId, Score>,
    l: Staking,
    v: AccountId,
) -> bool {
    match l.role(v) {
        Some(Role::Nominator(n)) => voters[v] == vote_of(l, v) && vote_of(l, v) > 0
            && n.no_duplicates() && forall|j: int|
            0 <= j < n.len() ==> targets.contains_key(#[trigger] n[j]),
        _ => true,
    }
}

/// The state the event handlers maintain: the voter ranking holds exactly
/// the validators and nominators; each nominator is scored by its weight,
/// which is positive, and nominates distinct accounts, all tracked; every
/// validator is tracked; every target's role fits its place; every target
/// score is its approval weight; and no account outside the target ranking
/// has approval weight.
pub open spec fn state_consistent(
    voters: Map<AccountId, Score>,
    targets: Map<AccountId, Score>,
    l: Staking,
) -> bool {
    &&& forall|v: AccountId| #[trigger]
        voters.contains_key(v) <==> (l.role(v) == Some(Role::Validator) || l.role(
            v,
        ) matches Some(Role::Nominator(_)))
    &&& forall|v: AccountId| #[trigger] nominator_fits(voters, targets, l, v)
    &&& forall|v: AccountId| #[trigger]
        l.role(v) == Some(Role::Validator) ==> targets.contains_key(v)
    &&& forall|t: AccountId| #[trigger]
        targets.contains_key(t) ==> role_fits(voters, targets, l, t)
    &&& scores_exact(targets, l)
    &&& untracked_unapproved(targets, l)
}

/// The tracker's rankings are consistent with the stake source.
pub open spec fn tracker_consistent(p: Pallet, l: Staking) -> bool {
    state_consistent(p.voter_list@, p.target_list@, l)
}

/// A nominator's weight is part of the approval weight of each target it
/// nominates.
proof fn lemma_approval_ge(l: Staking, v: AccountId, t: AccountId)
    ensures
        approval(l, t) >= contribution(l, v, t),
        contribution(l, v, t) >= 0,
{
    l.lemma_accounts();
    let c = |u: AccountId| contribution(l, u, t);
    if l.accounts().contains(v) {
        lemma_sum_split(l.accounts(), c, v);
        lemma_sum_nonneg(l.accounts().remove(v), c);
    } else {
        lemma_sum_nonneg(l.accounts(), c);
    }
}

/// Where no untracked account has approval weight and nominators have
/// positive weight, every nomination is tracked.
proof fn lemma_nominations_tracked(
    targets: Map<AccountId, Score>,
    l: Staking,
    v: AccountId,
    n: Seq<AccountId>,
    j: int,
)
    requires
        untracked_unapproved(targets, l),
        l.role(v) == Some(Role::Nominator(n)),
        vote_of(l, v) > 0,
        0 <= j < n.len(),
    ensures
        targets.contains_key(n[j]),
{
    lemma_approval_ge(l, v, n[j]);
    assert(n.contains(n[j]));
}

proof fn lemma_nom_sum_distinct(score: Score, n: Seq<AccountId>, t: AccountId)
    requires
        n.no_duplicates(),
    ensures
        nom_sum(score, n, t) == if n.contains(t) {
            score as int
        } else {
            0
        },
    decreases n.len(),
{
    if n.len() > 0 {
        let rest = n.drop_last();
        lemma_nom_sum_distinct(score, rest, t);
        if n.last() == t {
            assert(!rest.contains(t)) by {
                if rest.contains(t) {
                    let i = choose|i: int| 0 <= i < rest.len() && rest[i] == t;
                    assert(n[i] == n[n.len() - 1]);
                }
            }
            assert(n.contains(t)) by {
                assert(n[n.len() - 1] == t);
            }
        } else {
            assert(n.contains(t) == rest.contains(t)) by {
                if n.contains(t) {
                    let i = choose|i: int| 0 <= i < n.len() && n[i] == t;
                    assert(rest[i] == t);
                }
                if rest.contains(t) {
                    let i = choose|i: int| 0 <= i < rest.len() && rest[i] == t;
                    assert(n[i] == t);
                }
            }
        }
    }
}

proof fn lemma_seq_sum(
    voters: Map<AccountId, Score>,
    l: Staking,
    vs: Seq<AccountId>,
    t: AccountId,
)
    requires
        vs.no_duplicates(),
    ensures
        nominated_approval(voters, l, vs, t) == sum_of(
            vs.to_set(),
            |v: AccountId| voter_contribution(voters, l, v, t),
        ),
    decreases vs.len(),
{
    let c = |v: AccountId| voter_contribution(voters, l, v, t);
    if vs.len() == 0 {
        assert(vs.to_set() =~= Set::<AccountId>::empty());
        lemma_fold_empty(0int, |acc: int, v: AccountId| acc + c(v));
    } else {
        let rest = vs.drop_last();
        let x = vs.last();
        lemma_seq_sum(voters, l, rest, t);
        assert(rest.to_set().insert(x) =~= vs.to_set()) by {
            assert forall|v: AccountId| rest.to_set().insert(x).contains(v) == vs.to_set().contains(
                v,
            ) by {
                if vs.contains(v) && v != x {
                    let i = choose|i: int| 0 <= i < vs.len() && vs[i] == v;
                    assert(rest[i] == v);
                }
                if rest.contains(v) {
                    let i = choose|i: int| 0 <= i < rest.len() && rest[i] == v;
                    assert(vs[i] == v);
                }
                if v == x {
                    assert(vs[vs.len() - 1] == x);
                }
            }
        }
        assert(!rest.to_set().contains(x)) by {
            if rest.contains(x) {
                let i = choose|i: int| 0 <= i < rest.len() && rest[i] == x;
                assert(vs[i] == vs[vs.len() - 1]);
            }
        }
        vstd::seq_lib::seq_to_set_is_finite(rest);
        lemma_sum_insert(rest.to_set(), c, x);
    }
}

proof fn lemma_sum_subset(
    big: Set<AccountId>,
    small: Set<AccountId>,
    c: spec_fn(AccountId) -> int,
)
    requires
        big.finite(),
        small.subset_of(big),
        forall|v: AccountId| big.contains(v) && !small.contains(v) ==> #[trigger] c(v) == 0,
    ensures
        sum_of(big, c) == sum_of(small, c),
    decreases big.len(),
{
    if big =~= small {
    } else {
        let x = choose|x: AccountId| big.contains(x) && !small.contains(x);
        lemma_sum_split(big, c, x);
        lemma_sum_subset(big.remove(x), small, c);
    }
}

/// A state in which the handlers' invariant holds passes both consistency
/// checks: no approval mismatch and a sorted target ranking.
pub proof fn lemma_consistent_state_passes_checks(p: Pallet, l: Staking)
    requires
        p.wf(),
        tracker_consistent(p, l),
    ensures
        approvals_consistent(p, l),
        targets_sorted(p),
{
    p.voter_list.lemma_order();
    p.target_list.lemma_order();
    l.lemma_accounts();
    let order = p.voter_list.order();
    assert forall|i: int| 0 <= i < order.len() implies voter_ok(p, l, #[trigger] order[i]) by {
        assert(order.contains(order[i]));
        assert(nominator_fits(p.voter_list@, p.target_list@, l, order[i]));
    }
    assert forall|i: int| 0 <= i < p.target_list.order().len() implies target_ok(
        p,
        l,
        #[trigger] p.target_list.order()[i],
    ) by {
        let t = p.target_list.order()[i];
        assert(p.target_list.order().contains(t));
        let cv = |v: AccountId| voter_contribution(p.voter_list@, l, v, t);
        let ca = |v: AccountId| contribution(l, v, t);
        lemma_seq_sum(p.voter_list@, l, order, t);
        vstd::seq_lib::seq_to_set_is_finite(order);
        assert forall|v: AccountId| order.to_set().contains(v) implies cv(v) == ca(v) by {
            assert(p.voter_list@.contains_key(v));
            assert(nominator_fits(p.voter_list@, p.target_list@, l, v));
            if let Some(Role::Nominator(n)) = l.role(v) {
                lemma_nom_sum_distinct(p.voter_list@[v], n, t);
            }
        }
        lemma_sum_eq(order.to_set(), cv, ca);
        assert(order.to_set().subset_of(l.accounts())) by {
            assert forall|v: AccountId| order.to_set().contains(v) implies l.accounts().contains(
                v,
            ) by {
                assert(p.voter_list@.contains_key(v));
            }
        }
        assert forall|v: AccountId|
            l.accounts().contains(v) && !order.to_set().contains(v) implies #[trigger] ca(v)
            == 0 by {
            assert(!p.voter_list@.contains_key(v));
        }
        lemma_sum_subset(l.accounts(), order.to_set(), ca);
    }
    assert forall|i: int|
        0 <= i && i + 1 < p.target_list.order().len() implies p.target_list@[p.target_list.order()[i]]
        >= p.target_list@[#[trigger] p.target_list.order()[i + 1]] by {
        assert(i < i + 1);
    }
}

/// Changing a nominator's nominations keeps the tracker consistent, when
/// the new nominations hold no account twice, each is tracked or idle, and
/// every approval weight fits in a score.
pub proof fn lemma_nominator_update_keeps_consistent(
    voters: Map<AccountId, Score>,
    targets: Map<AccountId, Score>,
    l1: Staking,
    l2: Staking,
    who: AccountId,
    prev: Seq<AccountId>,
    noms: Seq<AccountId>,
)
    requires
        state_consistent(voters, targets, l1),
        renominated(l1, l2, who, prev, noms),
        noms.no_duplicates(),
        forall|t: AccountId|
            #[trigger] noms.contains(t) ==> targets.contains_key(t) || l2.role(t) == Some(
                Role::Idle,
            ),
        forall|t: AccountId| #[trigger] approval(l2, t) <= Score::MAX,
    ensures
        state_consistent(voters, targets_on_nominator_update(targets, l2, who, prev, noms), l2),
{
    assert(nominator_fits(voters, targets, l1, who));
    lemma_nominator_update_keeps_scores_exact(targets, l1, l2, who, prev, noms);
    let w = vote_of(l2, who);
    let mid = apply_all(targets, l2, noms, prev, StakeImbalance::Positive(w));
    let post = targets_on_nominator_update(targets, l2, who, prev, noms);
    assert forall|v: AccountId| #![auto] voters.contains_key(v) <==> (l2.role(v) == Some(
        Role::Validator,
    ) || l2.role(v) matches Some(Role::Nominator(_))) by {
        if v != who {
            assert(l2.role(v) == l1.role(v));
        }
    }
    assert forall|v: AccountId| #[trigger] nominator_fits(voters, post, l2, v) by {
        assert(nominator_fits(voters, targets, l1, v));
        if v != who {
            assert(l2.role(v) == l1.role(v));
            assert(l2.stake_of(v) == l1.stake_of(v));
        }
        assert(vote_of(l2, v) == vote_of(l1, v));
        if let Some(Role::Nominator(n)) = l2.role(v) {
            assert forall|j: int| 0 <= j < n.len() implies post.contains_key(#[trigger] n[j]) by {
                lemma_nominations_tracked(post, l2, v, n, j);
            }
        }
    }
    assert forall|t: AccountId| #![auto]
        (post.contains_key(t) ==> role_fits(voters, post, l2, t)) && (l2.role(t) == Some(
            Role::Validator,
        ) ==> post.contains_key(t)) by {
        lemma_apply_all_at(targets, l2, noms, prev, StakeImbalance::Positive(w), t);
        lemma_apply_all_at(mid, l2, prev, noms, StakeImbalance::Negative(w), t);
        if t != who {
            assert(l2.role(t) == l1.role(t));
        }
    }
}

/// A nominator joining keeps the tracker consistent, when it was idle or
/// unbonded and outside the target ranking, has positive weight, nominates
/// distinct accounts that are each tracked or idle, and every approval
/// weight fits in a score.
pub proof fn lemma_nominator_add_keeps_consistent(
    voters: Map<AccountId, Score>,
    targets: Map<AccountId, Score>,
    l1: Staking,
    l2: Staking,
    who: AccountId,
    noms: Seq<AccountId>,
)
    requires
        state_consistent(voters, targets, l1),
        only_changed(l1, l2, who),
        l1.role(who) is None || l1.role(who) == Some(Role::Idle),
        !targets.contains_key(who),
        l2.role(who) == Some(Role::Nominator(noms)),
        vote_of(l2, who) > 0,
        noms.no_duplicates(),
        forall|t: AccountId|
            #[trigger] noms.contains(t) ==> targets.contains_key(t) || l2.role(t) == Some(
                Role::Idle,
            ),
        forall|t: AccountId| #[trigger] approval(l2, t) <= Score::MAX,
    ensures
        state_consistent(
            voters_with(voters, l2, who),
            targets_on_nominator_add(voters, targets, l2, who, noms),
            l2,
        ),
{
    assert(!voters.contains_key(who));
    lemma_nominator_add_keeps_scores_exact(voters, targets, l1, l2, who, noms);
    let w = vote_of(l2, who);
    let pv = voters_with(voters, l2, who);
    let post = targets_on_nominator_add(voters, targets, l2, who, noms);
    assert forall|v: AccountId| #![auto] pv.contains_key(v) <==> (l2.role(v) == Some(
        Role::Validator,
    ) || l2.role(v) matches Some(Role::Nominator(_))) by {
        if v != who {
            assert(l2.role(v) == l1.role(v));
        }
    }
    assert forall|v: AccountId| #[trigger] nominator_fits(pv, post, l2, v) by {
        assert(nominator_fits(voters, targets, l1, v));
        if v != who {
            assert(l2.role(v) == l1.role(v));
            assert(l2.stake_of(v) == l1.stake_of(v));
        }
        if let Some(Role::Nominator(n)) = l2.role(v) {
            assert forall|j: int| 0 <= j < n.len() implies post.contains_key(#[trigger] n[j]) by {
                lemma_nominations_tracked(post, l2, v, n, j);
            }
        }
    }
    assert forall|t: AccountId| #![auto]
        (post.contains_key(t) ==> role_fits(pv, post, l2, t)) && (l2.role(t) == Some(
            Role::Validator,
        ) ==> post.contains_key(t)) by {
        lemma_apply_all_at(targets, l2, noms, Seq::empty(), StakeImbalance::Positive(w), t);
        if t != who {
            assert(l2.role(t) == l1.role(t));
        }
    }
}

/// A nominator chilling keeps the tracker consistent, when it stays bonded
/// with the same stake.
pub proof fn lemma_nominator_remove_keeps_consistent(
    voters: Map<AccountId, Score>,
    targets: Map<AccountId, Score>,
    l1: Staking,
    l2: Staking,
    who: AccountId,
    noms: Seq<AccountId>,
)
    requires
        state_consistent(voters, targets, l1),
        only_changed(l1, l2, who),
        l1.role(who) == Some(Role::Nominator(noms)),
        l2.role(who) == Some(Role::Idle),
        l2.stake_of(who) == l1.stake_of(who),
    ensures
        state_consistent(
            voters.remove(who),
            targets_on_nominator_remove(targets, l2, who, noms),
            l2,
        ),
{
    assert(nominator_fits(voters, targets, l1, who));
    lemma_nominator_remove_keeps_scores_exact(targets, l1, l2, who, noms);
    let w = vote_of(l2, who);
    let pv = voters.remove(who);
    let post = targets_on_nominator_remove(targets, l2, who, noms);
    assert forall|v: AccountId| #![auto] pv.contains_key(v) <==> (l2.role(v) == Some(
        Role::Validator,
    ) || l2.role(v) matches Some(Role::Nominator(_))) by {
        if v != who {
            assert(l2.role(v) == l1.role(v));
        }
    }
    assert forall|v: AccountId| #[trigger] nominator_fits(pv, post, l2, v) by {
        assert(nominator_fits(voters, targets, l1, v));
        if v != who {
            assert(l2.role(v) == l1.role(v));
            assert(l2.stake_of(v) == l1.stake_of(v));
        }
        if let Some(Role::Nominator(n)) = l2.role(v) {
            assert forall|j: int| 0 <= j < n.len() implies post.contains_key(#[trigger] n[j]) by {
                lemma_nominations_tracked(post, l2, v, n, j);
            }
        }
    }
    assert forall|t: AccountId| #![auto]
        (post.contains_key(t) ==> role_fits(pv, post, l2, t)) && (l2.role(t) == Some(
            Role::Validator,
        ) ==> post.contains_key(t)) by {
        lemma_apply_all_at(targets, l2, noms, Seq::empty(), StakeImbalance::Negative(w), t);
        if t != who {
            assert(l2.role(t) == l1.role(t));
        }
    }
}

/// A change of a staker's active stake keeps the tracker consistent, when
/// the previous stake is the one the ledger held, its role stays, a
/// nominator keeps positive weight, and every approval weight fits in a
/// score.
pub proof fn lemma_stake_update_keeps_consistent(
    voters: Map<AccountId, Score>,
    targets: Map<AccountId, Score>,
    l1: Staking,
    l2: Staking,
    who: AccountId,
    prev: Option<Stake>,
    stake: Stake,
)
    requires
        state_consistent(voters, targets, l1),
        only_changed(l1, l2, who),
        l1.role(who) == l2.role(who),
        l1.stake_of(who) == prev,
        l2.stake_of(who) == Some(stake),
        l2.role(who) matches Some(Role::Nominator(_)) ==> vote_of(l2, who) > 0,
        forall|t: AccountId| #[trigger] approval(l2, t) <= Score::MAX,
    ensures
        state_consistent(
            voters_on_stake_update(voters, l2, who, stake),
            targets_on_stake_update(targets, l2, who, prev, stake),
            l2,
        ),
{
    assert(nominator_fits(voters, targets, l1, who));
    if let Some(Role::Nominator(noms)) = l2.role(who) {
        assert forall|t: AccountId| #[trigger] noms.contains(t) implies targets.contains_key(t) by {
            let j = choose|j: int| 0 <= j < noms.len() && noms[j] == t;
            assert(targets.contains_key(noms[j]));
        }
    }
    lemma_stake_update_keeps_scores_exact(targets, l1, l2, who, prev, stake);
    let imb = imbalance_of(prev, stake, l2.issuance());
    let pv = voters_on_stake_update(voters, l2, who, stake);
    let post = targets_on_stake_update(targets, l2, who, prev, stake);
    assert forall|v: AccountId| #![auto] pv.contains_key(v) <==> (l2.role(v) == Some(
        Role::Validator,
    ) || l2.role(v) matches Some(Role::Nominator(_))) by {
        if v != who {
            assert(l2.role(v) == l1.role(v));
        }
    }
    assert forall|v: AccountId| #[trigger] nominator_fits(pv, post, l2, v) by {
        assert(nominator_fits(voters, targets, l1, v));
        if v != who {
            assert(l2.role(v) == l1.role(v));
            assert(l2.stake_of(v) == l1.stake_of(v));
        }
        if let Some(Role::Nominator(n)) = l2.role(v) {
            assert forall|j: int| 0 <= j < n.len() implies post.contains_key(#[trigger] n[j]) by {
                lemma_nominations_tracked(post, l2, v, n, j);
            }
        }
    }
    assert forall|t: AccountId| #![auto]
        (post.contains_key(t) ==> role_fits(pv, post, l2, t)) && (l2.role(t) == Some(
            Role::Validator,
        ) ==> post.contains_key(t)) by {
        if let Some(Role::Nominator(noms)) = l2.role(who) {
            lemma_apply_all_at(targets, l2, noms, Seq::empty(), imb, t);
        }
        if t != who {
            assert(l2.role(t) == l1.role(t));
        }
    }
}

/// A validator joining, or coming back from idle, keeps the tracker
/// consistent, when it was idle or unbonded, its declared self stake is the
/// one the ledger holds, and every approval weight fits in a score.
pub proof fn lemma_validator_add_keeps_consistent(
    voters: Map<AccountId, Score>,
    targets: Map<AccountId, Score>,
    l1: Staking,
    l2: Staking,
    who: AccountId,
    self_stake: Option<Stake>,
)
    requires
        state_consistent(voters, targets, l1),
        only_changed(l1, l2, who),
        l1.role(who) is None || l1.role(who) == Some(Role::Idle),
        l2.role(who) == Some(Role::Validator),
        l2.stake_of(who) == self_stake,
        forall|t: AccountId| #[trigger] approval(l2, t) <= Score::MAX,
    ensures
        state_consistent(
            voters_with(voters, l2, who),
            targets_on_validator_add(targets, l2, who, self_stake),
            l2,
        ),
{
    lemma_validator_add_keeps_scores_exact(targets, l1, l2, who, self_stake);
    let pv = voters_with(voters, l2, who);
    let post = targets_on_validator_add(targets, l2, who, self_stake);
    assert forall|v: AccountId| #![auto] pv.contains_key(v) <==> (l2.role(v) == Some(
        Role::Validator,
    ) || l2.role(v) matches Some(Role::Nominator(_))) by {
        if v != who {
            assert(l2.role(v) == l1.role(v));
        }
    }
    assert forall|v: AccountId| #[trigger] nominator_fits(pv, post, l2, v) by {
        assert(nominator_fits(voters, targets, l1, v));
        if v != who {
            assert(l2.role(v) == l1.role(v));
            assert(l2.stake_of(v) == l1.stake_of(v));
        }
        if let Some(Role::Nominator(n)) = l2.role(v) {
            assert forall|j: int| 0 <= j < n.len() implies post.contains_key(#[trigger] n[j]) by {
                lemma_nominations_tracked(post, l2, v, n, j);
            }
        }
    }
    assert forall|t: AccountId| #![auto]
        (post.contains_key(t) ==> role_fits(pv, post, l2, t)) && (l2.role(t) == Some(
            Role::Validator,
        ) ==> post.contains_key(t)) by {
        if t != who {
            assert(l2.role(t) == l1.role(t));
        }
    }
}

/// A validator becoming idle keeps the tracker consistent, when it stays
/// bonded with the same stake.
pub proof fn lemma_validator_idle_keeps_consistent(
    voters: Map<AccountId, Score>,
    targets: Map<AccountId, Score>,
    l1: Staking,
    l2: Staking,
    who: AccountId,
)
    requires
        state_consistent(voters, targets, l1),
        only_changed(l1, l2, who),
        l1.role(who) == Some(Role::Validator),
        l2.role(who) == Some(Role::Idle),
        l2.stake_of(who) == l1.stake_of(who),
    ensures
        state_consistent(voters.remove(who), targets_on_validator_idle(targets, l2, who), l2),
{
    lemma_validator_idle_keeps_scores_exact(targets, l1, l2, who);
    let pv = voters.remove(who);
    let post = targets_on_validator_idle(targets, l2, who);
    assert forall|v: AccountId| #![auto] pv.contains_key(v) <==> (l2.role(v) == Some(
        Role::Validator,
    ) || l2.role(v) matches Some(Role::Nominator(_))) by {
        if v != who {
            assert(l2.role(v) == l1.role(v));
        }
    }
    assert forall|v: AccountId| #[trigger] nominator_fits(pv, post, l2, v) by {
        assert(nominator_fits(voters, targets, l1, v));
        if v != who {
            assert(l2.role(v) == l1.role(v));
            assert(l2.stake_of(v) == l1.stake_of(v));
        }
        if let Some(Role::Nominator(n)) = l2.role(v) {
            assert forall|j: int| 0 <= j < n.len() implies post.contains_key(#[trigger] n[j]) by {
                lemma_nominations_tracked(post, l2, v, n, j);
            }
        }
    }
    assert forall|t: AccountId| #![auto]
        (post.contains_key(t) ==> role_fits(pv, post, l2, t)) && (l2.role(t) == Some(
            Role::Validator,
        ) ==> post.contains_key(t)) by {
        if t != who {
            assert(l2.role(t) == l1.role(t));
        }
    }
}

/// Removing an idle validator, with the ledger as it was, keeps the tracker
/// consistent.
pub proof fn lemma_validator_remove_keeps_consistent(
    voters: Map<AccountId, Score>,
    targets: Map<AccountId, Score>,
    l: Staking,
    who: AccountId,
)
    requires
        state_consistent(voters, targets, l),
        l.role(who) == Some(Role::Idle),
    ensures
        state_consistent(
            voters_on_validator_remove(voters, l, who),
            targets_on_validator_remove(targets, l, who),
            l,
        ),
{
    lemma_validator_remove_keeps_scores_exact(targets, l, who);
    let post = targets_on_validator_remove(targets, l, who);
    assert forall|v: AccountId| #[trigger] nominator_fits(voters, post, l, v) by {
        assert(nominator_fits(voters, targets, l, v));
        if let Some(Role::Nominator(n)) = l.role(v) {
            assert forall|j: int| 0 <= j < n.len() implies post.contains_key(#[trigger] n[j]) by {
                lemma_nominations_tracked(post, l, v, n, j);
            }
        }
    }
}

/// Empty rankings are consistent with a ledger that holds no staker.
pub proof fn lemma_empty_state_consistent(l: Staking)
    requires
        forall|v: AccountId| #[trigger] l.role(v) is None,
    ensures
        state_consistent(Map::empty(), Map::empty(), l),
{
    l.lemma_accounts();
    assert(l.accounts() =~= Set::<AccountId>::empty());
    assert forall|t: AccountId| #[trigger] approval(l, t) == 0 by {
        lemma_sum_empty(|v: AccountId| contribution(l, v, t));
    }
}

} // verus!
