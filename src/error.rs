use vstd::prelude::*;

verus! {

/// Why an entry point aborted. Every error leaves the stored records as
/// they were.
#[derive(Debug, Clone, Copy, PartialEq, Eq, Structural)]
pub enum ContractError {
    AlreadyInitialized,
    InvalidAmount,
    InsufficientLiquidity,
    InsufficientBalance,
    NotAdmin,
    Unauthorized,
    NotInitialized,
    ArithmeticOverflow,
}

} // verus!
