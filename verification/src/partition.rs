//! Partition keys: the cell and the time bin that name a segment.

use crate::model::{Timestamp, MAX_SECS, MIN_SECS};
use vstd::prelude::*;

verus! {

/// Width of a time bin in seconds.
pub const BIN_SECONDS: i64 = 300;

/// The key of a partition: a spatial cell and the start of a time bin.
#[derive(Clone, Copy, Debug, PartialEq, Eq, Structural)]
pub struct PartitionKey {
    pub cell: u64,
    pub bin: i64,
}

/// Start of the bin that holds epoch second `s`: the greatest multiple of
/// the bin width that is not above `s`.
pub open spec fn bin_start(s: int) -> int {
    s - s % (BIN_SECONDS as int)
}

/// The start, in epoch seconds, of the five-minute bin that holds `t`.
pub fn time_bin_5min(t: &Timestamp) -> (bin: i64)
    ensures
        bin == bin_start(t.secs() as int),
        MIN_SECS <= bin <= MAX_SECS,
{
    let s = t.secs();
    // 8_334_601_228_800 is a multiple of 300, so the shift keeps the remainder.
    let shifted: i64 = s + 8_334_601_228_800;
    let r: i64 = shifted % BIN_SECONDS;
    assert(r == s % 300);
    s - r
}

/// The bin of an instant starts at a multiple of the bin width, at or
/// before the instant's second and less than one width before it.
pub proof fn lemma_bin_start(s: int)
    ensures
        bin_start(s) % 300 == 0,
        bin_start(s) <= s < bin_start(s) + 300,
{
}

/// A later second lies in the same bin or in a later one.
pub proof fn lemma_bin_start_monotone(a: int, b: int)
    requires
        a <= b,
    ensures
        bin_start(a) <= bin_start(b),
{
}

} // verus!
