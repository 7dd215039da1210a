use stake_tracker::sorted_list::{ListError, SortedList};
use stake_tracker::staking::{Stake, StakerStatus, Staking};
use stake_tracker::tracker::{Pallet, StakeImbalance};
use stake_tracker::try_state::TryStateError;

const A: u64 = 1;
const B: u64 = 2;
const N: u64 = 10;
const V: u64 = 20;
const D: u64 = 30;

fn stake(active: u128) -> Stake {
    Stake { total: active, active }
}

fn score(list: &SortedList, who: u64) -> Option<u128> {
    list.get_score(who).ok()
}

fn add_validator(p: &mut Pallet, l: &mut Staking, who: u64, s: u128) {
    l.set_staker(who, StakerStatus::Validator, stake(s));
    p.on_validator_add(l, who, Some(stake(s)));
}

fn add_nominator(p: &mut Pallet, l: &mut Staking, who: u64, s: u128, noms: Vec<u64>) {
    l.set_staker(who, StakerStatus::Nominator(noms.clone()), stake(s));
    p.on_nominator_add(l, who, noms);
}

#[test]
fn nominator_add_scores_voter_and_targets() {
    let mut p = Pallet::new();
    let mut l = Staking::new();
    add_validator(&mut p, &mut l, A, 10);
    add_validator(&mut p, &mut l, B, 20);
    add_nominator(&mut p, &mut l, N, 100, vec![A, B]);
    assert_eq!(score(&p.voter_list, N), Some(100));
    assert_eq!(score(&p.target_list, A), Some(110));
    assert_eq!(score(&p.target_list, B), Some(120));
    assert_eq!(p.target_list.iter(), vec![B, A]);
    assert_eq!(p.do_try_state(&l), Ok(()));
}

#[test]
fn validator_idle_keeps_nominations() {
    let mut p = Pallet::new();
    let mut l = Staking::new();
    add_validator(&mut p, &mut l, V, 50);
    add_nominator(&mut p, &mut l, N, 100, vec![V]);
    assert_eq!(score(&p.target_list, V), Some(150));
    assert!(p.voter_list.contains(V));
    l.set_staker(V, StakerStatus::Idle, stake(50));
    p.on_validator_idle(&l, V);
    assert_eq!(score(&p.target_list, V), Some(100));
    assert!(!p.voter_list.contains(V));
    assert_eq!(p.do_try_state(&l), Ok(()));
}

#[test]
fn dangling_target_leaves_at_zero() {
    let mut p = Pallet::new();
    let mut l = Staking::new();
    add_validator(&mut p, &mut l, D, 10);
    add_nominator(&mut p, &mut l, N, 100, vec![D]);
    l.set_staker(D, StakerStatus::Idle, stake(10));
    p.on_validator_idle(&l, D);
    p.on_validator_remove(&l, D);
    assert_eq!(score(&p.target_list, D), Some(100));
    l.remove_staker(D);
    assert_eq!(p.do_try_state(&l), Ok(()));
    l.set_staker(N, StakerStatus::Idle, stake(100));
    p.on_nominator_remove(&l, N, vec![D]);
    assert!(!p.target_list.contains(D));
    assert!(!p.voter_list.contains(N));
    assert_eq!(p.target_list.count(), 0);
    assert_eq!(p.do_try_state(&l), Ok(()));
}

#[test]
fn consistency_after_event_sequence() {
    let mut p = Pallet::new();
    let mut l = Staking::new();
    add_validator(&mut p, &mut l, A, 10);
    add_validator(&mut p, &mut l, B, 20);
    add_validator(&mut p, &mut l, V, 5);
    add_nominator(&mut p, &mut l, N, 100, vec![A, B]);
    add_nominator(&mut p, &mut l, 11, 40, vec![B, V]);
    assert_eq!(p.do_try_state(&l), Ok(()));

    // the nominator bonds more
    l.set_staker(N, StakerStatus::Nominator(vec![A, B]), stake(130));
    p.on_stake_update(&l, N, Some(stake(100)), stake(130));
    assert_eq!(score(&p.target_list, A), Some(140));
    assert_eq!(score(&p.voter_list, N), Some(130));
    assert_eq!(p.do_try_state(&l), Ok(()));

    // a validator unbonds part of its stake
    l.set_staker(B, StakerStatus::Validator, stake(15));
    p.on_stake_update(&l, B, Some(stake(20)), stake(15));
    assert_eq!(score(&p.target_list, B), Some(185));
    assert_eq!(p.do_try_state(&l), Ok(()));

    // nominations change from {A, B} to {B, V}
    l.set_staker(N, StakerStatus::Nominator(vec![B, V]), stake(130));
    p.on_nominator_update(&l, N, vec![A, B], vec![B, V]);
    assert_eq!(score(&p.target_list, A), Some(10));
    assert_eq!(score(&p.target_list, V), Some(175));
    assert_eq!(p.do_try_state(&l), Ok(()));

    // a validator chills and is re-enabled
    l.set_staker(A, StakerStatus::Idle, stake(10));
    p.on_validator_idle(&l, A);
    assert_eq!(score(&p.target_list, A), Some(0));
    assert_eq!(p.do_try_state(&l), Ok(()));
    l.set_staker(A, StakerStatus::Validator, stake(10));
    p.on_validator_add(&l, A, Some(stake(10)));
    assert_eq!(score(&p.target_list, A), Some(10));
    assert_eq!(p.do_try_state(&l), Ok(()));

    // a validator leaves entirely
    l.set_staker(A, StakerStatus::Idle, stake(10));
    p.on_validator_remove(&l, A);
    assert!(p.target_list.contains(A));
    l.set_staker(A, StakerStatus::Validator, stake(10));
    p.on_validator_remove(&l, A);
    assert!(!p.target_list.contains(A));
    assert!(!p.voter_list.contains(A));
    l.remove_staker(A);
    assert_eq!(p.do_try_state(&l), Ok(()));

    // a nominator chills, a slash is reported
    l.set_staker(11, StakerStatus::Idle, stake(40));
    p.on_nominator_idle(&l, 11, vec![B, V]);
    p.on_slash(B, 1, 1);
    assert_eq!(p.do_try_state(&l), Ok(()));
    assert_eq!(p.do_try_state_target_sorting(), Ok(()));
    let order = p.target_list.iter();
    for w in order.windows(2) {
        assert!(score(&p.target_list, w[0]) >= score(&p.target_list, w[1]));
    }
}

#[test]
fn nominator_add_twice_changes_nothing() {
    let mut p = Pallet::new();
    let mut l = Staking::new();
    add_validator(&mut p, &mut l, A, 10);
    add_nominator(&mut p, &mut l, N, 100, vec![A]);
    let voters = p.voter_list.iter();
    let targets = p.target_list.iter();
    p.on_nominator_add(&l, N, vec![A]);
    assert_eq!(p.voter_list.iter(), voters);
    assert_eq!(p.target_list.iter(), targets);
    assert_eq!(score(&p.voter_list, N), Some(100));
    assert_eq!(score(&p.target_list, A), Some(110));
}

#[test]
fn nominator_update_same_set_changes_nothing() {
    let mut p = Pallet::new();
    let mut l = Staking::new();
    add_validator(&mut p, &mut l, A, 10);
    add_validator(&mut p, &mut l, B, 20);
    add_nominator(&mut p, &mut l, N, 100, vec![A, B]);
    p.on_nominator_update(&l, N, vec![A, B], vec![A, B]);
    assert_eq!(score(&p.target_list, A), Some(110));
    assert_eq!(score(&p.target_list, B), Some(120));
}

#[test]
fn update_target_score_idle_and_unknown() {
    let mut p = Pallet::new();
    let mut l = Staking::new();
    l.set_staker(A, StakerStatus::Idle, stake(5));
    p.update_target_score(&l, A, StakeImbalance::Positive(7));
    assert_eq!(score(&p.target_list, A), Some(7));
    p.update_target_score(&l, A, StakeImbalance::Negative(100));
    assert_eq!(score(&p.target_list, A), Some(0));
    // an untracked unbonded target is left alone
    p.update_target_score(&l, D, StakeImbalance::Positive(7));
    assert!(!p.target_list.contains(D));
    // an untracked validator is left alone
    l.set_staker(V, StakerStatus::Validator, stake(5));
    p.update_target_score(&l, V, StakeImbalance::Positive(7));
    assert!(!p.target_list.contains(V));
    assert!(Pallet::should_remove_target(&l, D, 0));
    assert!(!Pallet::should_remove_target(&l, A, 0));
    assert!(!Pallet::should_remove_target(&l, D, 1));
}

#[test]
fn weight_saturates() {
    let l = Staking::new();
    assert_eq!(l.weight_of(100), 100);
    assert_eq!(l.weight_of(u64::MAX as u128 + 5), u64::MAX);
}

#[test]
fn weight_scales_with_issuance() {
    let mut l = Staking::new();
    l.set_total_issuance(u64::MAX as u128 * 10 + 3);
    assert_eq!(l.total_issuance(), u64::MAX as u128 * 10 + 3);
    assert_eq!(l.weight_of(1000), 100);
    assert_eq!(l.weight_of(1009), 100);
    assert_eq!(l.weight_of(u128::MAX), u64::MAX);

    let mut p = Pallet::new();
    add_validator(&mut p, &mut l, A, 50);
    add_nominator(&mut p, &mut l, N, 1000, vec![A]);
    assert_eq!(score(&p.voter_list, N), Some(100));
    assert_eq!(score(&p.target_list, A), Some(105));
    assert_eq!(p.do_try_state(&l), Ok(()));
}

#[test]
fn sorted_list_operations() {
    let mut s = SortedList::new();
    assert_eq!(s.on_insert(A, 5), Ok(()));
    assert_eq!(s.on_insert(B, 9), Ok(()));
    assert_eq!(s.on_insert(D, 5), Ok(()));
    assert_eq!(s.iter(), vec![B, A, D]);
    assert_eq!(s.on_insert(A, 1), Err(ListError::Duplicate));
    assert_eq!(s.on_update(D, 10), Ok(()));
    assert_eq!(s.iter(), vec![D, B, A]);
    assert_eq!(s.on_increase(A, u128::MAX), Ok(()));
    assert_eq!(s.get_score(A), Ok(u128::MAX));
    assert_eq!(s.iter(), vec![A, D, B]);
    assert_eq!(s.on_remove(B), Ok(()));
    assert_eq!(s.on_remove(B), Err(ListError::NodeNotFound));
    assert_eq!(s.on_update(B, 1), Err(ListError::NodeNotFound));
    assert_eq!(s.on_increase(B, 1), Err(ListError::NodeNotFound));
    assert_eq!(s.get_score(B), Err(ListError::NodeNotFound));
    assert_eq!(s.count(), 2);
}

fn consistent() -> (Pallet, Staking) {
    let mut p = Pallet::new();
    let mut l = Staking::new();
    add_validator(&mut p, &mut l, A, 10);
    add_nominator(&mut p, &mut l, N, 100, vec![A]);
    (p, l)
}

#[test]
fn try_state_voter_score_mismatch() {
    let (mut p, l) = consistent();
    p.voter_list.on_update(N, 99).unwrap();
    assert_eq!(p.do_try_state(&l), Err(TryStateError::VoterScoreMismatch));
}

#[test]
fn try_state_untracked_nomination() {
    let (mut p, mut l) = consistent();
    l.set_staker(N, StakerStatus::Nominator(vec![A, B]), stake(100));
    assert_eq!(p.do_try_state(&l), Err(TryStateError::UntrackedNomination));
    p.target_list.on_insert(B, 100).unwrap();
    assert_eq!(p.do_try_state(&l), Ok(()));
}

#[test]
fn try_state_dangling_voter() {
    let (mut p, l) = consistent();
    p.target_list.on_insert(D, 3).unwrap();
    p.voter_list.on_insert(D, 3).unwrap();
    assert_eq!(p.do_try_state_approvals(&l), Err(TryStateError::DanglingVoter));
}

#[test]
fn try_state_dangling_without_approvals() {
    let (mut p, l) = consistent();
    p.target_list.on_insert(D, 0).unwrap();
    assert_eq!(p.do_try_state(&l), Err(TryStateError::DanglingWithoutApprovals));
}

#[test]
fn try_state_idle_voter() {
    let (mut p, mut l) = consistent();
    l.set_staker(A, StakerStatus::Idle, stake(10));
    assert_eq!(p.do_try_state(&l), Err(TryStateError::IdleVoter));
    p.voter_list.on_remove(A).unwrap();
    assert_eq!(p.do_try_state(&l), Err(TryStateError::ApprovalMismatch));
}

#[test]
fn try_state_validator_not_voter() {
    let (mut p, l) = consistent();
    p.voter_list.on_remove(A).unwrap();
    assert_eq!(p.do_try_state(&l), Err(TryStateError::ValidatorNotVoter));
}

#[test]
fn try_state_nominator_target() {
    let (mut p, l) = consistent();
    p.target_list.on_insert(N, 1).unwrap();
    assert_eq!(p.do_try_state(&l), Err(TryStateError::NominatorTarget));
}

#[test]
fn try_state_approval_mismatch() {
    let (mut p, l) = consistent();
    p.target_list.on_update(A, 111).unwrap();
    assert_eq!(p.do_try_state(&l), Err(TryStateError::ApprovalMismatch));
}

#[test]
fn validator_remove_ignores_nominators_and_unbonded() {
    let (mut p, l) = consistent();
    let voters = p.voter_list.iter();
    let targets = p.target_list.iter();
    p.on_validator_remove(&l, N);
    p.on_validator_remove(&l, D);
    assert_eq!(p.voter_list.iter(), voters);
    assert_eq!(p.target_list.iter(), targets);
    assert_eq!(score(&p.target_list, A), Some(110));
}

#[test]
fn stake_update_of_idle_or_unbonded_changes_nothing() {
    let (mut p, mut l) = consistent();
    l.set_staker(B, StakerStatus::Idle, stake(70));
    p.on_stake_update(&l, B, Some(stake(10)), stake(70));
    p.on_stake_update(&l, D, None, stake(70));
    assert!(!p.target_list.contains(B));
    assert!(!p.voter_list.contains(B));
    assert_eq!(score(&p.target_list, A), Some(110));
    assert_eq!(p.do_try_state(&l), Ok(()));
}

#[test]
fn first_stake_counts_in_full() {
    let (mut p, mut l) = consistent();
    l.set_staker(N, StakerStatus::Nominator(vec![A]), stake(40));
    p.on_stake_update(&l, N, None, stake(40));
    assert_eq!(score(&p.target_list, A), Some(150));
    assert_eq!(score(&p.voter_list, N), Some(40));
}
