//! The stake source: each bonded account's role and stake, and the
//! conversion of stake into vote weight.

use vstd::prelude::*;
use std::collections::HashMap;
use crate::sorted_list::AccountId;

verus! {

broadcast use vstd::std_specs::hash::group_hash_axioms;

/// An amount of currency.
pub type Balance = u128;

/// The weight of a vote, the unit of the voter ranking.
pub type VoteWeight = u64;

/// Wide accumulator for sums of vote weights.
pub type ExtendedBalance = u128;

/// What a bonded account currently does.
pub enum StakerStatus {
    /// Bonded, neither validating nor nominating.
    Idle,
    /// Declared intent to validate.
    Validator,
    /// Nominating the listed targets.
    Nominator(Vec<AccountId>),
}

/// The mathematical model of a [`StakerStatus`].
pub enum Role {
    Idle,
    Validator,
    Nominator(Seq<AccountId>),
}

impl View for StakerStatus {
    type V = Role;

    open spec fn view(&self) -> Role {
        match self {
            StakerStatus::Idle => Role::Idle,
            StakerStatus::Validator => Role::Validator,
            StakerStatus::Nominator(t) => Role::Nominator(t@),
        }
    }
}

/// The bonded amounts of a staker.
#[derive(Clone, Copy, Debug, PartialEq, Eq, Structural)]
pub struct Stake {
    /// Everything bonded, unlocking chunks included.
    pub total: Balance,
    /// The part that counts for elections.
    pub active: Balance,
}

/// A bonded account: its role and its stake.
pub struct Staker {
    pub status: StakerStatus,
    pub stake: Stake,
}

/// The staking ledger as seen by the tracker: every bonded account.
pub struct Staking {
    stakers: HashMap<AccountId, Staker>,
    total_issuance: Balance,
}

/// The divisor that brings balances into the vote range, given the total
/// issuance: the issuance over the largest vote weight, and at least one.
pub open spec fn factor(issuance: Balance) -> Balance {
    if issuance / (VoteWeight::MAX as Balance) < 1 {
        1
    } else {
        issuance / (VoteWeight::MAX as Balance)
    }
}

/// The vote weight of a balance: the balance divided by the issuance
/// factor, saturated to the vote range.
pub open spec fn weight(b: Balance, issuance: Balance) -> VoteWeight {
    let q = b / factor(issuance);
    if q > VoteWeight::MAX {
        VoteWeight::MAX
    } else {
        q as VoteWeight
    }
}

impl Staking {
    /// The role of `who`, `None` when it is not bonded.
    pub closed spec fn role(&self, who: AccountId) -> Option<Role> {
        if self.stakers@.contains_key(who) {
            Some(self.stakers@[who].status@)
        } else {
            None
        }
    }

    /// The stake of `who`, `None` when it is not bonded.
    pub closed spec fn stake_of(&self, who: AccountId) -> Option<Stake> {
        if self.stakers@.contains_key(who) {
            Some(self.stakers@[who].stake)
        } else {
            None
        }
    }

    /// The total issuance of the currency.
    pub closed spec fn issuance(&self) -> Balance {
        self.total_issuance
    }

    /// Every bonded account.
    pub closed spec fn accounts(&self) -> Set<AccountId> {
        self.stakers@.dom()
    }

    /// The bonded accounts are finitely many, and are those with a role.
    pub proof fn lemma_accounts(&self)
        ensures
            self.accounts().finite(),
            forall|v: AccountId| #[trigger] self.accounts().contains(v) <==> self.role(v) is Some,
            forall|v: AccountId| #[trigger] self.role(v) is Some <==> self.stake_of(v) is Some,
    {
    }

    /// The active stake of `who`, zero when it is not bonded.
    pub open spec fn active_of(&self, who: AccountId) -> Balance {
        match self.stake_of(who) {
            Some(s) => s.active,
            None => 0,
        }
    }

    /// Whether `who` is bonded.
    pub open spec fn bonded(&self, who: AccountId) -> bool {
        self.role(who) is Some
    }

    /// A ledger with no stakers and no issuance.
    pub fn new() -> (r: Staking)
        ensures
            forall|who: AccountId| #[trigger] r.role(who) is None && r.stake_of(who) is None,
            r.issuance() == 0,
    {
        Staking { stakers: HashMap::new(), total_issuance: 0 }
    }

    /// The total issuance of the currency.
    pub fn total_issuance(&self) -> (r: Balance)
        ensures
            r == self.issuance(),
    {
        self.total_issuance
    }

    /// Sets the total issuance of the currency.
    pub fn set_total_issuance(&mut self, issuance: Balance)
        ensures
            final(self).issuance() == issuance,
            forall|o: AccountId| #[trigger] final(self).role(o) == old(self).role(o)
                && final(self).stake_of(o) == old(self).stake_of(o),
    {
        self.total_issuance = issuance;
    }

    /// Records `who` with `status` and `stake`, replacing what was there.
    pub fn set_staker(&mut self, who: AccountId, status: StakerStatus, stake: Stake)
        ensures
            final(self).issuance() == old(self).issuance(),
            final(self).role(who) == Some(status@),
            final(self).stake_of(who) == Some(stake),
            forall|o: AccountId| o != who ==> #[trigger] final(self).role(o) == old(self).role(o)
                && final(self).stake_of(o) == old(self).stake_of(o),
    {
        self.stakers.insert(who, Staker { status, stake });
    }

    /// Forgets `who`, as when it is fully unbonded.
    pub fn remove_staker(&mut self, who: AccountId)
        ensures
            final(self).issuance() == old(self).issuance(),
            final(self).role(who) is None,
            final(self).stake_of(who) is None,
            forall|o: AccountId| o != who ==> #[trigger] final(self).role(o) == old(self).role(o)
                && final(self).stake_of(o) == old(self).stake_of(o),
    {
        self.stakers.remove(&who);
    }

    /// The status of `who`, `None` when it is not bonded.
    pub fn status(&self, who: AccountId) -> (r: Option<&StakerStatus>)
        ensures
            r is Some <==> self.role(who) is Some,
            r matches Some(s) ==> self.role(who) == Some(s@),
    {
        match self.stakers.get(&who) {
            Some(s) => Some(&s.status),
            None => None,
        }
    }

    /// The stake of `who`, `None` when it is not bonded.
    pub fn stake(&self, who: AccountId) -> (r: Option<Stake>)
        ensures
            r == self.stake_of(who),
            r is Some <==> self.bonded(who),
    {
        match self.stakers.get(&who) {
            Some(s) => Some(s.stake),
            None => None,
        }
    }

    /// The active stake of `who`, zero when it is not bonded.
    pub fn active_vote_of(&self, who: AccountId) -> (r: Balance)
        ensures
            r == self.active_of(who),
    {
        match self.stake(who) {
            Some(s) => s.active,
            None => 0,
        }
    }

    /// Converts a balance into vote weight under the current issuance.
    pub fn weight_of(&self, b: Balance) -> (r: VoteWeight)
        ensures
            r == weight(b, self.issuance()),
    {
        let q = self.total_issuance / (VoteWeight::MAX as Balance);
        let f: Balance = if q < 1 {
            1
        } else {
            q
        };
        let v = b / f;
        if v > VoteWeight::MAX as Balance {
            VoteWeight::MAX
        } else {
            v as VoteWeight
        }
    }
}

} // verus!
