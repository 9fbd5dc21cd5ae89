//! The state of one account: a balance and the nonce of its next transaction.
use vstd::prelude::*;
use crate::error::AccountError;

verus! {

/// The abstract value of an account.
pub struct AccountView {
    pub balance: u64,
    pub nonce: u64,
}

#[derive(Clone, Copy, Debug, PartialEq, Eq)]
pub struct Account {
    balance: u64,
    nonce: u64,
}

impl View for Account {
    type V = AccountView;

    closed spec fn view(&self) -> AccountView {
        AccountView { balance: self.balance, nonce: self.nonce }
    }
}

/// The outcome of `Account::can_withdraw` on an account with balance
/// `balance`: the total `amount + fee` must fit in a `u64` and be covered.
pub open spec fn withdraw_check(balance: u64, amount: u64, fee: u64) -> Result<(), AccountError> {
    if amount + fee > u64::MAX {
        Err(AccountError::CostOverflow)
    } else if balance < amount + fee {
        Err(AccountError::InsufficientBalance { required: (amount + fee) as u64, available: balance })
    } else {
        Ok(())
    }
}

/// The outcome of `Account::can_deposit`: the new balance must fit in a `u64`.
pub open spec fn deposit_check(balance: u64, amount: u64) -> Result<(), AccountError> {
    if balance + amount > u64::MAX {
        Err(AccountError::BalanceOverflow)
    } else {
        Ok(())
    }
}

impl Account {
    pub fn new(balance: u64, nonce: u64) -> (res: Account)
        ensures
            res@ == (AccountView { balance, nonce }),
    {
        Account { balance, nonce }
    }

    /// The account of an address that has never received anything.
    pub fn empty() -> (res: Account)
        ensures
            res@ == (AccountView { balance: 0, nonce: 0 }),
    {
        Account { balance: 0, nonce: 0 }
    }

    pub fn nonce(&self) -> (res: u64)
        ensures
            res == self@.nonce,
    {
        self.nonce
    }

    pub fn balance(&self) -> (res: u64)
        ensures
            res == self@.balance,
    {
        self.balance
    }

    /// Advances the nonce by one; fails, changing nothing, at `u64::MAX`.
    pub fn increment_nonce(&mut self) -> (res: Result<(), AccountError>)
        ensures
            old(self)@.nonce == u64::MAX ==> res == Err::<(), AccountError>(
                AccountError::NonceOverflow,
            ) && *final(self) == *old(self),
            old(self)@.nonce < u64::MAX ==> res is Ok && final(self)@ == (AccountView {
                balance: old(self)@.balance,
                nonce: (old(self)@.nonce + 1) as u64,
            }),
    {
        match self.nonce.checked_add(1) {
            Some(n) => {
                self.nonce = n;
                Ok(())
            },
            None => Err(AccountError::NonceOverflow),
        }
    }

    /// Adds `amount` to the balance; fails, changing nothing, on overflow.
    pub fn deposit(&mut self, amount: u64) -> (res: Result<(), AccountError>)
        ensures
            res == deposit_check(old(self)@.balance, amount),
            res is Ok ==> final(self)@ == (AccountView {
                balance: (old(self)@.balance + amount) as u64,
                nonce: old(self)@.nonce,
            }),
            res is Err ==> *final(self) == *old(self),
    {
        match self.balance.checked_add(amount) {
            Some(b) => {
                self.balance = b;
                Ok(())
            },
            None => Err(AccountError::BalanceOverflow),
        }
    }

    /// Whether `deposit(amount)` would succeed.
    pub fn can_deposit(&self, amount: u64) -> (res: Result<(), AccountError>)
        ensures
            res == deposit_check(self@.balance, amount),
    {
        match self.balance.checked_add(amount) {
            Some(_) => Ok(()),
            None => Err(AccountError::BalanceOverflow),
        }
    }

    /// Whether `withdraw(amount, fee)` would succeed.
    pub fn can_withdraw(&self, amount: u64, fee: u64) -> (res: Result<(), AccountError>)
        ensures
            res == withdraw_check(self@.balance, amount, fee),
    {
        let total = match amount.checked_add(fee) {
            Some(t) => t,
            None => {
                return Err(AccountError::CostOverflow);
            },
        };
        if self.balance < total {
            return Err(AccountError::InsufficientBalance { required: total, available: self.balance });
        }
        Ok(())
    }

    /// Deducts `amount + fee` from the balance if it is covered.
    pub fn withdraw(&mut self, amount: u64, fee: u64) -> (res: Result<(), AccountError>)
        ensures
            res == withdraw_check(old(self)@.balance, amount, fee),
            res is Ok ==> final(self)@ == (AccountView {
                balance: (old(self)@.balance - amount - fee) as u64,
                nonce: old(self)@.nonce,
            }),
            res is Err ==> *final(self) == *old(self),
    {
        self.can_withdraw(amount, fee)?;
        let total = match amount.checked_add(fee) {
            Some(t) => t,
            None => {
                return Err(AccountError::CostOverflow);
            },
        };
        self.balance = self.balance - total;
        Ok(())
    }
}

impl Default for Account {
    fn default() -> (res: Account)
        ensures
            res@ == (AccountView { balance: 0, nonce: 0 }),
    {
        Account::empty()
    }
}

/// A withdrawal of `amount + fee` that succeeds can be undone by a deposit
/// of the same total: the deposit succeeds and gives the balance back.
pub proof fn law_withdraw_then_deposit_restores(a: AccountView, amount: u64, fee: u64)
    requires
        withdraw_check(a.balance, amount, fee) is Ok,
    ensures
        deposit_check((a.balance - amount - fee) as u64, (amount + fee) as u64) is Ok,
        (a.balance - amount - fee) + (amount + fee) == a.balance,
{
}

/// A deposit that succeeds can be undone by a withdrawal of the same
/// amount without fee: the withdrawal succeeds and gives the balance back.
pub proof fn law_deposit_then_withdraw_restores(a: AccountView, amount: u64)
    requires
        deposit_check(a.balance, amount) is Ok,
    ensures
        withdraw_check((a.balance + amount) as u64, amount, 0) is Ok,
        (a.balance + amount) - amount - 0 == a.balance,
{
}

} // verus!
