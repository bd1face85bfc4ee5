//! Pure bookkeeping for delegated balances: given a participant's previous
//! amount and the running total, compute the amounts after delegating or
//! undelegating some stake. The surrounding system owns the storage and
//! supplies the previous amounts.

use vstd::prelude::*;

verus! {

/// Why a delegation update was rejected.
#[derive(Clone, Copy, Debug, PartialEq, Eq, Structural)]
pub enum DelegationError {
    /// More stake would be withdrawn than the participant has delegated.
    InsufficientDelegation,
}

/// Delegate `amount` more: the participant's previous and new amounts and
/// the new total, in that order. The caller keeps both sums within the
/// balance domain.
pub fn delegate(prev_amount: u128, total: u128, amount: u128) -> (r: (u128, u128, u128))
    requires
        prev_amount + amount <= u128::MAX,
        total + amount <= u128::MAX,
    ensures
        r.0 == prev_amount,
        r.1 == prev_amount + amount,
        r.2 == total + amount,
{
    (prev_amount, prev_amount + amount, total + amount)
}

/// Undelegate `amount`: the participant's previous and new amounts and the
/// new total, or a rejection when the participant has less delegated than
/// is being withdrawn. The total is never smaller than any one delegation.
pub fn undelegate(prev_amount: u128, total: u128, amount: u128) -> (r: Result<
    (u128, u128, u128),
    DelegationError,
>)
    requires
        prev_amount <= total,
    ensures
        r is Ok <==> amount <= prev_amount,
        r is Ok ==> r->Ok_0.0 == prev_amount && r->Ok_0.1 == prev_amount - amount && r->Ok_0.2
            == total - amount,
{
    if amount > prev_amount {
        Err(DelegationError::InsufficientDelegation)
    } else {
        Ok((prev_amount, prev_amount - amount, total - amount))
    }
}

} // verus!
