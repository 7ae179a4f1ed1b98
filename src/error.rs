use vstd::prelude::*;

verus! {

/// Every way an operation of the price store, the average engine or the
/// reserve snapshot store can fail.
#[derive(Clone, Copy, Debug, PartialEq, Eq, Structural)]
pub enum OracleError {
    /// The averaging interval is zero.
    InvalidInterval,
    /// The averaging window would start before time zero.
    IntervalTooLarge,
    /// The key has no usable price observation.
    NoPriceData,
    /// Fewer rounds are recorded than the offset asks to go back.
    InsufficientHistory,
    /// No observation or snapshot exists where one was asked for.
    NotFound,
    /// A checked operation overflowed, underflowed or divided by zero.
    ArithmeticError,
    /// The underlying storage failed.
    StorageError,
    /// A snapshot was amended before any snapshot was recorded.
    NoSnapshot,
}

} // verus!
