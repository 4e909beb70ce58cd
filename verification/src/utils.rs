//! Plain result values handed to the codec's callers.

use vstd::prelude::*;

verus! {

/// The current offset of a single partition, as projected from an offset
/// response: the partition id together with the first offset the broker
/// returned, or `-1` when the broker returned none.
#[derive(Clone, Copy, Debug, PartialEq, Eq)]
pub struct PartitionOffset {
    pub partition: i32,
    pub offset: i64,
}

} // verus!
