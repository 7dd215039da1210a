//! Properties of the tracker that hold across calls.

use vstd::prelude::*;
use crate::sorted_list::{AccountId, Score};
use crate::staking::Staking;
use crate::tracker::{
    apply_all, targets_on_nominator_add, targets_on_nominator_update, vote_of, voters_with, Pallet,
    StakeImbalance,
};

verus! {

/// The target ranking of a well-formed tracker, which every event handler
/// leaves well formed, lists targets in non-increasing order of score.
pub proof fn lemma_target_ranking_sorted(p: Pallet)
    requires
        p.wf(),
    ensures
        forall|i: int, j: int|
            0 <= i < j < p.target_list.order().len() ==> p.target_list@[p.target_list.order()[i]]
                >= p.target_list@[p.target_list.order()[j]],
{
    p.target_list.lemma_order();
}

/// Adding a nominator a second time, with no removal in between, changes
/// neither ranking.
pub proof fn lemma_nominator_add_idempotent(
    voters: Map<AccountId, Score>,
    targets: Map<AccountId, Score>,
    l: Staking,
    who: AccountId,
    noms: Seq<AccountId>,
)
    ensures
        ({
            let v1 = voters_with(voters, l, who);
            let t1 = targets_on_nominator_add(voters, targets, l, who, noms);
            voters_with(v1, l, who) == v1 && targets_on_nominator_add(v1, t1, l, who, noms) == t1
        }),
{
}

proof fn lemma_apply_all_skipped(
    targets: Map<AccountId, Score>,
    l: Staking,
    ts: Seq<AccountId>,
    skip: Seq<AccountId>,
    imb: StakeImbalance,
)
    requires
        forall|i: int| 0 <= i < ts.len() ==> skip.contains(#[trigger] ts[i]),
    ensures
        apply_all(targets, l, ts, skip, imb) == targets,
    decreases ts.len(),
{
    if ts.len() > 0 {
        assert(skip.contains(ts[ts.len() - 1]));
        lemma_apply_all_skipped(targets, l, ts.drop_last(), skip, imb);
    }
}

/// Updating a nominator's nominations to the same set changes no target's
/// score.
pub proof fn lemma_nominator_update_same_set(
    targets: Map<AccountId, Score>,
    l: Staking,
    who: AccountId,
    noms: Seq<AccountId>,
)
    ensures
        targets_on_nominator_update(targets, l, who, noms, noms) == targets,
{
    let w = vote_of(l, who);
    assert forall|i: int| 0 <= i < noms.len() implies noms.contains(#[trigger] noms[i]) by {}
    lemma_apply_all_skipped(targets, l, noms, noms, StakeImbalance::Positive(w));
    lemma_apply_all_skipped(targets, l, noms, noms, StakeImbalance::Negative(w));
}

} // verus!
