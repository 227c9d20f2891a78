//! Client account model and operations.
//!
//! Maintains the invariant `total == available + held` across every
//! operation, and rejects every operation once the account is locked.

use crate::decimal::{amount_in_range, balance_in_range, Decimal4};
use vstd::prelude::*;

verus! {

/// A client's account state.
///
/// `available` may become negative in dispute scenarios: when a client
/// deposits funds, withdraws some of them, and the original deposit is then
/// disputed, the full deposit amount moves to `held` and `available` goes
/// negative. The invariant `total == available + held` still holds.
#[derive(Debug, Clone)]
pub struct ClientAccount {
    /// Unique client identifier.
    pub client: u16,
    /// Funds available for withdrawal. May be negative after disputes.
    pub available: Decimal4,
    /// Funds held due to active disputes.
    pub held: Decimal4,
    /// Total funds: `available + held`.
    pub total: Decimal4,
    /// Account frozen due to chargeback. No further operations accepted.
    pub locked: bool,
}

impl ClientAccount {
    /// The balance invariant, with every balance inside the arithmetic
    /// envelope.
    pub open spec fn wf(&self) -> bool {
        &&& self.total@ == self.available@ + self.held@
        &&& balance_in_range(self.available@)
        &&& balance_in_range(self.held@)
        &&& balance_in_range(self.total@)
    }

    /// Creates a new account for a client with zero balances.
    pub fn new(client_id: u16) -> (r: ClientAccount)
        ensures
            r.wf(),
            r.client == client_id,
            r.available@ == 0,
            r.held@ == 0,
            r.total@ == 0,
            !r.locked,
    {
        ClientAccount {
            client: client_id,
            available: Decimal4::zero(),
            held: Decimal4::zero(),
            total: Decimal4::zero(),
            locked: false,
        }
    }

    /// Returns `true` if the account is locked (frozen).
    pub fn is_locked(&self) -> (r: bool)
        ensures
            r == self.locked,
    {
        self.locked
    }

    /// Deposits funds: increases `available` and `total` by the amount.
    ///
    /// Returns `false`, leaving the account unchanged, exactly when the
    /// account is locked.
    pub fn deposit(&mut self, amount: Decimal4) -> (ok: bool)
        requires
            old(self).wf(),
            balance_in_range(old(self).available@ + amount@),
            balance_in_range(old(self).total@ + amount@),
        ensures
            final (self).wf(),
            ok == !old(self).locked,
            final (self).client == old(self).client,
            final (self).locked == old(self).locked,
            final (self).held == old(self).held,
            ok ==> final (self).available@ == old(self).available@ + amount@,
            ok ==> final (self).total@ == old(self).total@ + amount@,
            !ok ==> *final (self) == *old(self),
    {
        if self.locked {
            return false;
        }
        self.available = Decimal4 { units: self.available.units + amount.units };
        self.total = Decimal4 { units: self.total.units + amount.units };
        true
    }

    /// Withdraws funds: decreases `available` and `total` by the amount.
    ///
    /// Returns `false`, leaving the account unchanged, exactly when the
    /// account is locked or `available` is below the amount.
    pub fn withdraw(&mut self, amount: Decimal4) -> (ok: bool)
        requires
            old(self).wf(),
            balance_in_range(old(self).available@ - amount@),
            balance_in_range(old(self).total@ - amount@),
        ensures
            final (self).wf(),
            ok == (!old(self).locked && old(self).available@ >= amount@),
            final (self).client == old(self).client,
            final (self).locked == old(self).locked,
            final (self).held == old(self).held,
            ok ==> final (self).available@ == old(self).available@ - amount@,
            ok ==> final (self).total@ == old(self).total@ - amount@,
            !ok ==> *final (self) == *old(self),
    {
        if self.locked {
            return false;
        }
        if self.available.units < amount.units {
            return false;
        }
        self.available = Decimal4 { units: self.available.units - amount.units };
        self.total = Decimal4 { units: self.total.units - amount.units };
        true
    }

    /// Holds funds for a dispute: moves the amount from `available` to
    /// `held`; `total` is unchanged.
    ///
    /// `available` is not bound-checked and may go negative. Returns `false`,
    /// leaving the account unchanged, exactly when the account is locked.
    pub fn hold(&mut self, amount: Decimal4) -> (ok: bool)
        requires
            old(self).wf(),
            balance_in_range(old(self).available@ - amount@),
            balance_in_range(old(self).held@ + amount@),
        ensures
            final (self).wf(),
            ok == !old(self).locked,
            final (self).client == old(self).client,
            final (self).locked == old(self).locked,
            final (self).total == old(self).total,
            ok ==> final (self).available@ == old(self).available@ - amount@,
            ok ==> final (self).held@ == old(self).held@ + amount@,
            !ok ==> *final (self) == *old(self),
    {
        if self.locked {
            return false;
        }
        self.available = Decimal4 { units: self.available.units - amount.units };
        self.held = Decimal4 { units: self.held.units + amount.units };
        true
    }

    /// Releases held funds back to available (resolves a dispute); `total`
    /// is unchanged.
    ///
    /// Returns `false`, leaving the account unchanged, exactly when the
    /// account is locked.
    pub fn release(&mut self, amount: Decimal4) -> (ok: bool)
        requires
            old(self).wf(),
            balance_in_range(old(self).available@ + amount@),
            balance_in_range(old(self).held@ - amount@),
        ensures
            final (self).wf(),
            ok == !old(self).locked,
            final (self).client == old(self).client,
            final (self).locked == old(self).locked,
            final (self).total == old(self).total,
            ok ==> final (self).available@ == old(self).available@ + amount@,
            ok ==> final (self).held@ == old(self).held@ - amount@,
            !ok ==> *final (self) == *old(self),
    {
        if self.locked {
            return false;
        }
        self.held = Decimal4 { units: self.held.units - amount.units };
        self.available = Decimal4 { units: self.available.units + amount.units };
        true
    }

    /// Processes a chargeback: removes the amount from `held` and `total`,
    /// then locks the account.
    ///
    /// Returns `false`, leaving the account unchanged, exactly when the
    /// account is already locked.
    pub fn chargeback(&mut self, amount: Decimal4) -> (ok: bool)
        requires
            old(self).wf(),
            balance_in_range(old(self).held@ - amount@),
            balance_in_range(old(self).total@ - amount@),
        ensures
            final (self).wf(),
            ok == !old(self).locked,
            final (self).client == old(self).client,
            final (self).available == old(self).available,
            ok ==> final (self).held@ == old(self).held@ - amount@,
            ok ==> final (self).total@ == old(self).total@ - amount@,
            ok ==> final (self).locked,
            !ok ==> *final (self) == *old(self),
    {
        if self.locked {
            return false;
        }
        self.held = Decimal4 { units: self.held.units - amount.units };
        self.total = Decimal4 { units: self.total.units - amount.units };
        self.locked = true;
        true
    }

    /// Reports whether the balance invariant `total == available + held`
    /// holds of this account.
    pub fn check_invariant(&self) -> (r: bool)
        requires
            balance_in_range(self.available@),
            balance_in_range(self.held@),
        ensures
            r == (self.total@ == self.available@ + self.held@),
    {
        self.total.units == self.available.units + self.held.units
    }
}

} // verus!
