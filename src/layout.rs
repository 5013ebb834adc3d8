//! Storage layout: how large the length marker is, and how large a storage must be.
use vstd::prelude::*;

verus! {

/// Largest storage size whose length marker takes one byte.
pub const CAPACITY_U8: usize = 256;

/// Largest storage size whose length marker takes two bytes.
pub const CAPACITY_U16: usize = 65537;

/// Width in bytes of the length marker that prefixes a storage array of `n` bytes.
pub open spec fn marker_width(n: nat) -> nat {
    if n == 0 {
        0
    } else if n <= CAPACITY_U8 {
        1
    } else if n <= CAPACITY_U16 {
        2
    } else {
        8
    }
}

/// Storage size needed to hold `desired` content bytes together with their length marker.
pub open spec fn storage_size(desired: nat) -> nat {
    if desired == 0 {
        0
    } else if desired <= 255 {
        desired + 1
    } else if desired <= 65535 {
        desired + 2
    } else {
        desired + 8
    }
}

/// Computes the storage size that holds `desired` content bytes, saturating at `usize::MAX`.
pub fn capacity(desired: usize) -> (r: usize)
    ensures
        r == if storage_size(desired as nat) <= usize::MAX { storage_size(desired as nat) } else { usize::MAX as nat },
{
    if desired == 0 {
        desired
    } else if desired <= 255 {
        desired + 1
    } else if desired <= 65535 {
        desired + 2
    } else {
        desired.saturating_add(8)
    }
}

/// Value of the little-endian bytes `b[0..w]`, for the marker widths 0, 1, 2 and 8.
pub open spec fn le_value(b: Seq<u8>, w: nat) -> nat {
    if w == 0 {
        0
    } else if w == 1 {
        b[0] as nat
    } else if w == 2 {
        (b[0] + 256 * b[1]) as nat
    } else {
        (b[0] + 0x100 * b[1] + 0x1_0000 * b[2] + 0x100_0000 * b[3] + 0x1_0000_0000 * b[4]
            + 0x100_0000_0000 * b[5] + 0x1_0000_0000_0000 * b[6] + 0x100_0000_0000_0000 * b[7]) as nat
    }
}

/// A storage of `storage_size(d)` bytes holds exactly `d` content bytes after its length marker.
pub proof fn lemma_capacity_fits(d: nat)
    ensures
        marker_width(storage_size(d)) + d == storage_size(d),
{
}

} // verus!
