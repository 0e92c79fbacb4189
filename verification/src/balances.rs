use vstd::prelude::*;

use crate::storage::StorageMap;
use crate::types::{AccountId, Balance};

verus! {

/// Free and reserved funds of one account.
#[derive(Clone, Copy, Debug, PartialEq, Eq, Structural)]
pub struct AccountData {
    pub free: Balance,
    pub reserved: Balance,
}

/// The funds of `who` in the ledger `m`; an account without a record holds
/// nothing.
pub open spec fn account_of(m: Map<AccountId, AccountData>, who: AccountId) -> AccountData {
    if m.dom().contains(who) {
        m[who]
    } else {
        AccountData { free: 0, reserved: 0 }
    }
}

/// An account is alive while it holds any funds, free or reserved.
pub open spec fn is_alive(d: AccountData) -> bool {
    d.free > 0 || d.reserved > 0
}

pub open spec fn saturating_add(a: Balance, b: Balance) -> Balance {
    if a + b > u64::MAX {
        u64::MAX
    } else {
        (a + b) as u64
    }
}

/// The ledger after reserving `value` of `who`'s free funds, or `None` when
/// the reservation is refused (not enough free funds, or the reserved amount
/// would overflow).
pub open spec fn reserve_outcome(m: Map<AccountId, AccountData>, who: AccountId, value: Balance) -> Option<
    Map<AccountId, AccountData>,
> {
    let d = account_of(m, who);
    if value == 0 {
        Some(m)
    } else if d.free >= value && d.reserved + value <= u64::MAX {
        Some(
            m.insert(
                who,
                AccountData { free: (d.free - value) as u64, reserved: (d.reserved + value) as u64 },
            ),
        )
    } else {
        None
    }
}

/// The ledger after moving up to `value` of `who`'s reserved funds back to
/// the free ones, with the part of `value` that could not be moved.
pub open spec fn unreserve_outcome(m: Map<AccountId, AccountData>, who: AccountId, value: Balance) -> (
    Map<AccountId, AccountData>,
    Balance,
) {
    let d = account_of(m, who);
    if value == 0 {
        (m, 0)
    } else if !is_alive(d) {
        (m, value)
    } else {
        let actual: Balance = if value <= d.reserved {
            value
        } else {
            d.reserved
        };
        (
            m.insert(
                who,
                AccountData {
                    free: saturating_add(d.free, actual),
                    reserved: (d.reserved - actual) as u64,
                },
            ),
            (value - actual) as u64,
        )
    }
}

/// The ledger after crediting `value` to the free funds of the existing
/// account `who`, or `None` when the account is not alive or the free funds
/// would overflow.
pub open spec fn deposit_outcome(m: Map<AccountId, AccountData>, who: AccountId, value: Balance) -> Option<
    Map<AccountId, AccountData>,
> {
    let d = account_of(m, who);
    if value == 0 {
        Some(m)
    } else if is_alive(d) && d.free + value <= u64::MAX {
        Some(m.insert(who, AccountData { free: (d.free + value) as u64, reserved: d.reserved }))
    } else {
        None
    }
}

/// The currency the staking pallet reserves stakes in: per account a free
/// and a reserved balance.
pub struct Balances {
    accounts: StorageMap<AccountId, AccountData>,
}

impl View for Balances {
    type V = Map<AccountId, AccountData>;

    closed spec fn view(&self) -> Map<AccountId, AccountData> {
        self.accounts@
    }
}

impl Balances {
    pub closed spec fn wf(&self) -> bool {
        self.accounts.wf()
    }

    /// A ledger without accounts.
    pub fn new() -> (b: Self)
        ensures
            b.wf(),
            b@ == Map::<AccountId, AccountData>::empty(),
    {
        Balances { accounts: StorageMap::new() }
    }

    /// Genesis endowment: `who` starts with `amount` free and nothing
    /// reserved.
    pub fn endow(&mut self, who: AccountId, amount: Balance)
        requires
            old(self).wf(),
        ensures
            final(self).wf(),
            final(self)@ == old(self)@.insert(who, AccountData { free: amount, reserved: 0 }),
    {
        self.accounts.insert(who, AccountData { free: amount, reserved: 0 });
    }

    fn account(&self, who: AccountId) -> (d: AccountData)
        requires
            self.wf(),
        ensures
            d == account_of(self@, who),
    {
        match self.accounts.get(&who) {
            Some(d) => d,
            None => AccountData { free: 0, reserved: 0 },
        }
    }

    /// Funds of `who` that can be spent or reserved.
    pub fn free_balance(&self, who: AccountId) -> (r: Balance)
        requires
            self.wf(),
        ensures
            r == account_of(self@, who).free,
    {
        self.account(who).free
    }

    /// Funds of `who` that are held back.
    pub fn reserved_balance(&self, who: AccountId) -> (r: Balance)
        requires
            self.wf(),
        ensures
            r == account_of(self@, who).reserved,
    {
        self.account(who).reserved
    }

    /// Moves `value` of `who`'s free funds to the reserved ones; `false`, with
    /// nothing changed, when that is refused.
    pub fn reserve(&mut self, who: AccountId, value: Balance) -> (ok: bool)
        requires
            old(self).wf(),
        ensures
            final(self).wf(),
            ok == reserve_outcome(old(self)@, who, value) is Some,
            final(self)@ == (match reserve_outcome(old(self)@, who, value) {
                Some(m) => m,
                None => old(self)@,
            }),
    {
        if value == 0 {
            return true;
        }
        let d = self.account(who);
        if d.free >= value && d.reserved <= u64::MAX - value {
            self.accounts.insert(who, AccountData { free: d.free - value, reserved: d.reserved + value });
            true
        } else {
            false
        }
    }

    /// Moves up to `value` of `who`'s reserved funds back to the free ones and
    /// returns the part of `value` that was not moved.
    pub fn unreserve(&mut self, who: AccountId, value: Balance) -> (remaining: Balance)
        requires
            old(self).wf(),
        ensures
            final(self).wf(),
            (final(self)@, remaining) == unreserve_outcome(old(self)@, who, value),
    {
        if value == 0 {
            return 0;
        }
        let d = self.account(who);
        if d.free == 0 && d.reserved == 0 {
            return value;
        }
        let actual: Balance = if value <= d.reserved {
            value
        } else {
            d.reserved
        };
        let free: Balance = d.free.saturating_add(actual);
        self.accounts.insert(who, AccountData { free, reserved: d.reserved - actual });
        value - actual
    }

    /// Credits `value` to the free funds of the existing account `who`;
    /// `false`, with nothing changed, when that is refused.
    pub fn deposit_into_existing(&mut self, who: AccountId, value: Balance) -> (ok: bool)
        requires
            old(self).wf(),
        ensures
            final(self).wf(),
            ok == deposit_outcome(old(self)@, who, value) is Some,
            final(self)@ == (match deposit_outcome(old(self)@, who, value) {
                Some(m) => m,
                None => old(self)@,
            }),
    {
        if value == 0 {
            return true;
        }
        let d = self.account(who);
        if (d.free > 0 || d.reserved > 0) && d.free <= u64::MAX - value {
            self.accounts.insert(who, AccountData { free: d.free + value, reserved: d.reserved });
            true
        } else {
            false
        }
    }
}

} // verus!
