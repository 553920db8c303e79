use vstd::prelude::*;

verus! {

/// Points appended by every frame, whatever the length of the buffer.
pub const BASE_BATCH: usize = 50;

/// Extra points appended by a frame when, after its base batch, the buffer is
/// still below `TRAIL_CAP`.
pub const BLOOM_BATCH: usize = 100;

/// The length at which the extra batch stops.
pub const TRAIL_CAP: usize = 100_000;

/// Whether a frame that starts on a buffer of `len` points adds the extra batch:
/// the cap is tested after the base batch has been appended.
pub open spec fn blooms(len: nat) -> bool {
    len + BASE_BATCH < TRAIL_CAP
}

/// How many points a frame appends to a buffer of `len` points.
pub open spec fn growth_of(len: nat) -> nat {
    if blooms(len) {
        (BASE_BATCH + BLOOM_BATCH) as nat
    } else {
        BASE_BATCH as nat
    }
}

} // verus!
