//! The immutable-attribute guard's bit logic.
//!
//! The NVRAM pseudo-file carries an attribute word whose immutable
//! bit rejects every write. The caller reads and writes that word
//! through the kernel's file-attribute channel; the functions here
//! compute the new word, touching exactly the immutable bit.

use vstd::prelude::*;

verus! {

/// The immutable-file bit of the attribute word.
pub const FS_IMMUTABLE_FL: u64 = 0x10;

/// The attribute word with the immutable bit cleared.
pub open spec fn without_immutable(attr: u64) -> u64 {
    attr & !0x10u64
}

/// The attribute word with the immutable bit set.
pub open spec fn with_immutable(attr: u64) -> u64 {
    attr | 0x10u64
}

/// Clear exactly the immutable bit: the result has it unset, and
/// every other bit as it was.
pub fn remove(attr: u64) -> (r: u64)
    ensures
        r == without_immutable(attr),
        r & 0x10u64 == 0u64,
        r & !0x10u64 == attr & !0x10u64,
{
    proof {
        assert((attr & !0x10u64) & 0x10u64 == 0u64) by (bit_vector);
        assert((attr & !0x10u64) & !0x10u64 == attr & !0x10u64) by (bit_vector);
    }
    attr & !FS_IMMUTABLE_FL
}

/// Set exactly the immutable bit: the result has it set, and every
/// other bit as it was.
pub fn add(attr: u64) -> (r: u64)
    ensures
        r == with_immutable(attr),
        r & 0x10u64 == 0x10u64,
        r & !0x10u64 == attr & !0x10u64,
{
    proof {
        assert((attr | 0x10u64) & 0x10u64 == 0x10u64) by (bit_vector);
        assert((attr | 0x10u64) & !0x10u64 == attr & !0x10u64) by (bit_vector);
    }
    attr | FS_IMMUTABLE_FL
}

/// Removing and then restoring the immutable bit is a no-op on every
/// other bit of the attribute word.
pub proof fn lemma_guard_preserves_other_bits(attr: u64, b: u64)
    requires
        b < 64,
        b != 4,
    ensures
        (with_immutable(without_immutable(attr)) >> b) & 1u64 == (attr >> b) & 1u64,
{
    assert((((attr & !0x10u64) | 0x10u64) >> b) & 1u64 == (attr >> b) & 1u64) by (bit_vector)
        requires
            b < 64u64,
            b != 4u64,
    ;
}

/// When the immutable bit was set to begin with, removing and then
/// restoring it gives back the exact original word: the guard
/// restores precisely the state it found.
pub proof fn lemma_guard_round_trip(attr: u64)
    requires
        attr & 0x10u64 == 0x10u64,
    ensures
        with_immutable(without_immutable(attr)) == attr,
{
    assert(((attr & !0x10u64) | 0x10u64) == attr) by (bit_vector)
        requires
            attr & 0x10u64 == 0x10u64,
    ;
}

} // verus!
