//! The errors that the library's operations return.

use vstd::prelude::*;

verus! {

#[derive(Clone, Copy, Debug, PartialEq, Eq, Structural)]
pub enum HubError {
    /// An amount of zero was handed in where a positive one is needed.
    ZeroAmount,
    /// A total would pass `MAX_AMOUNT`, or a sum would pass `u128::MAX`.
    Overflow,
    /// The pool holds less than the operation takes out of it.
    InsufficientPool,
    /// The external balance is smaller than the payout.
    InsufficientFunds,
    /// No matured claim of the user is ready to be paid.
    NothingToWithdraw,
    /// The validator is not in the whitelist.
    UnknownValidator,
    /// The whitelisted validators hold less delegation than must be undelegated.
    InsufficientDelegations,
    /// The operation needs a validator other than the ones given.
    NoValidators,
    /// A parameter lies outside its allowed range.
    InvalidParameters,
    /// A token name is not 3 to 30 bytes long.
    InvalidName,
    /// A ticker symbol is not 3 to 6 upper-case ASCII letters.
    InvalidSymbol,
    /// More decimals than the chain supports.
    InvalidDecimals,
    /// The holder's reward index is ahead of the global one.
    IndexAhead,
}

} // verus!
