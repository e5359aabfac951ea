//! Reliable, ordered, exactly-once-delivered byte transport over the
//! hostile channel.

pub mod connection;
pub mod laws;
pub mod link;
pub mod rto;
pub mod segment;
pub mod silence;
pub mod valid;

pub use self::rto::RtoEstimator;
pub use self::segment::{SackRange, SegmentHeader};
