//! Exact quantile estimation over a bounded integer domain, for the whole
//! history of a stream or for a sliding window of recent time slices.

pub mod error;
pub mod histogram;
pub mod rank;
pub mod ring;

pub use error::QuantileError;
pub use histogram::QuantileEstimator;
pub use ring::TimeBasedRingBuffer;
