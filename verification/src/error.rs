//! The ways in which a memory request can fail.

use vstd::prelude::*;

verus! {

#[derive(Clone, Copy, PartialEq, Eq, Structural, Debug)]
pub enum MemError {
    /// The start of the range is not on a page boundary.
    MisalignedAddress,
    /// The range is empty, or does not fit in the address space.
    InvalidLength,
    /// The permission bits are all clear, or a reserved bit is set.
    InvalidPermission,
    /// A page of the range already belongs to a mapped area.
    Overlap,
    /// The range is not made of whole mapped areas.
    NotMapped,
    /// The frame allocator has too few free frames.
    OutOfMemory,
    /// A user address does not resolve to a mapped page that grants the access.
    TranslationFault,
}

} // verus!
