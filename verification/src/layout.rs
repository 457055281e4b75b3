//! Memory-layout descriptors handed in by the client.
//!
//! The engine stores entries in a typed arena, so these descriptors carry no
//! pointer arithmetic here; they record what the client declared about an
//! entry, and `TableLayout` derives from it the alignment the control array
//! must get so that every group-sized load stays within one allocation.

use vstd::prelude::*;
use crate::ctrl::GROUP_WIDTH;

verus! {

/// The memory layout of one table entry; for a pair type it is `(K, V)`.
#[derive(Copy, Clone, Debug)]
pub struct EntryLayout {
    /// Total memory size of this entry.
    pub size: u32,
    /// Where the value starts in the entry: `[0, voff)` is the key,
    /// `[voff, size)` is the value.
    pub voff: u16,
    /// Alignment of this entry.
    pub align: u16,
}

impl EntryLayout {
    /// Describes an entry of `size` bytes whose value part starts at `voff`,
    /// aligned to `align`.
    pub fn new(size: u32, voff: u16, align: u16) -> (r: EntryLayout)
        ensures
            r.size == size,
            r.voff == voff,
            r.align == align,
    {
        EntryLayout { size, voff, align }
    }
}

/// What the table core needs of a layout: the entry size, and the alignment
/// of the allocation holding the control bytes.
#[derive(Copy, Clone, Debug)]
pub struct TableLayout {
    /// Size of one bucket in bytes.
    pub size: usize,
    /// Alignment of the shared control-and-bucket allocation: the entry's
    /// own alignment, raised to `GROUP_WIDTH` so that every group load over
    /// the control array stays inside the allocation.
    pub ctrl_align: usize,
}

impl From<EntryLayout> for TableLayout {
    fn from(value: EntryLayout) -> (r: Self) {
        Self {
            size: value.size as usize,
            ctrl_align: if value.align as usize > GROUP_WIDTH {
                value.align as usize
            } else {
                GROUP_WIDTH
            },
        }
    }
}

impl vstd::std_specs::convert::FromSpecImpl<EntryLayout> for TableLayout {
    open spec fn obeys_from_spec() -> bool {
        true
    }

    open spec fn from_spec(value: EntryLayout) -> TableLayout {
        TableLayout {
            size: value.size as usize,
            ctrl_align: if value.align > GROUP_WIDTH {
                value.align as usize
            } else {
                GROUP_WIDTH
            },
        }
    }
}

} // verus!
