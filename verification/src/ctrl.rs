//! Control-byte encoding for the open-addressing table.
//!
//! Every slot owns one control byte. A byte below 128 marks a FULL slot and
//! carries a 7-bit fragment of the key's hash; `DELETED` (a tombstone) and
//! `EMPTY` mark the two vacant states. Probing may stop only at an `EMPTY`
//! byte, never at a tombstone.

use vstd::prelude::*;

verus! {

/// Number of control bytes inspected by one group load.
pub const GROUP_WIDTH: usize = 16;

/// Control byte of a slot that holds no entry and ends probe sequences.
pub const EMPTY: u8 = 0xff;

/// Control byte of a tombstone: vacated, but probe sequences walk past it.
pub const DELETED: u8 = 0x80;

/// A control byte below 128 marks a FULL slot tagged with a hash fragment.
pub open spec fn is_full(b: u8) -> bool {
    b < 128
}

/// EMPTY or DELETED: the slot holds no entry.
pub open spec fn is_vacant(b: u8) -> bool {
    b >= 128
}

/// The 7-bit hash fragment stored in the control byte of a FULL slot.
pub open spec fn tag_of(h: u64) -> u8 {
    (h >> 57) as u8
}

/// Computes the control byte announcing a FULL slot for hash `h`.
pub fn tag(h: u64) -> (t: u8)
    ensures
        t == tag_of(h),
        is_full(t),
{
    proof {
        assert(h >> 57 < 128) by (bit_vector);
    }
    (h >> 57) as u8
}

} // verus!
