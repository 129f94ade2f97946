use vstd::prelude::*;

verus! {

/// Why a single trade leg could not be filled.
#[derive(Debug, Clone, Copy, PartialEq, Eq, Structural)]
pub enum SwapFailure {
    /// The block time is past the caller's deadline.
    DeadlineExceeded,
    /// No pool offers a quote for the leg.
    NoQuote,
    /// The best quote is worse than the caller's bound.
    PriceBound,
    /// The pool does not hold the requested item.
    ItemNotFound,
    /// The pool keeps the items it buys and already holds this one, or
    /// holds as many items as it can count.
    PoolCannotHoldItem,
    /// The pool's token balance cannot take in the proceeds it keeps.
    BalanceOverflow,
    /// The batch produced no trade at all.
    NoSwaps,
}

/// Errors of the pool and swap operations.
#[derive(Debug, Clone, Copy, PartialEq, Eq, Structural)]
pub enum ContractError {
    /// The caller is not the owner of the pool.
    Unauthorized,
    /// Malformed or mismatched arguments.
    InvalidInput,
    /// A structurally illegal pool configuration or operation.
    InvalidPool,
    /// The caller paid less than required.
    InsufficientFunds,
    /// The flat fee attached to pool creation is not the required one.
    InvalidListingFee(u128),
    /// A price transition left the curve without a valid price.
    PriceInvalid,
    /// A trade leg could not be filled.
    SwapError(SwapFailure),
}

} // verus!
