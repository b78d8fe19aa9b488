//! The errors of an encoding run.

use vstd::prelude::*;

verus! {

/// Everything that can stop an encoding run. Each variant is a defect of the
/// configuration or of the input; none of them is recoverable.
#[derive(Debug, Clone, Copy, PartialEq, Eq, Structural)]
pub enum EncodeError {
    /// A record of `total` bytes, header included, does not fit under `limit`.
    SizeLimitExceeded { total: usize, limit: usize },
    /// Bucket `bucket_index` received `count` members but holds at most `capacity`.
    BucketOverflow { bucket_index: usize, count: usize, capacity: usize },
    /// Item `item_index` of the list encoded for `category` contains a zero byte.
    InvalidCharacter { category: u32, item_index: usize },
    /// A Bloom filter was asked for with no bits or no hash rounds.
    InvalidParameters,
    /// Line `line_index` of an input could not be parsed.
    InputUnreadable { line_index: usize },
}

} // verus!
