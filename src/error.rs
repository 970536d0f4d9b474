use vstd::prelude::*;

verus! {

/// The ways in which an operation of this crate can be refused.
#[derive(Debug, Clone, Copy, PartialEq, Eq, Structural)]
pub enum QuantileError {
    /// The value domain was declared with `end < start`.
    InvalidRange,
    /// The value domain holds more buckets than `MAX_BUCKETS`.
    RangeTooLarge,
    /// A ring buffer was asked for zero windows.
    InvalidCapacity,
    /// A ring buffer was asked for windows of zero length.
    InvalidDuration,
    /// A value lies outside the declared domain.
    ValueOutOfRange,
    /// The requested fraction is not a number in `[0, 1]`.
    InvalidFraction,
    /// No value has been recorded.
    NoData,
}

} // verus!
