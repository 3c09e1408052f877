//! Error values of the aggregation core and of the signal core.

use vstd::prelude::*;

verus! {

/// Failures that the aggregation core reports through its return values.
#[derive(Debug, Clone, PartialEq, Eq)]
pub enum AggregatorError {
    /// The window configuration breaks one of its rules; the text says which.
    InvalidWindowConfig(String),
    /// A sample carried a timestamp that cannot be placed.
    InvalidTimestamp(i64),
    /// The requested aggregate is not offered.
    UnsupportedAggregation(String),
    /// A computation could not be carried out.
    ComputationError(String),
}

/// Failures that the signal core reports through its return values.
#[derive(Debug, Clone, PartialEq, Eq)]
pub enum SignalError {
    /// The block is shorter than the operation needs.
    InsufficientLength { required: usize, actual: usize },
    /// The sample rate is not positive; it is carried as its 64-bit pattern.
    InvalidSampleRate(u64),
    /// A filter parameter lies outside its range; the text says which.
    InvalidFilterParams(String),
    /// The transform could not be carried out.
    FftError(String),
    /// A computation left the numbers it can work with.
    NumericalError(String),
}

} // verus!
