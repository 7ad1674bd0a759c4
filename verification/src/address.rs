//! Virtual and physical addresses, and their decomposition into a page
//! number and an offset inside the page.

use vstd::prelude::*;
use crate::config::PAGE_SIZE;

verus! {

/// Number of pages in an address space: page numbers are `0 .. total_pages()`.
pub open spec fn total_pages() -> int {
    usize::MAX / PAGE_SIZE + 1
}

/// The number of pages in an address space.
pub fn page_limit() -> (n: usize)
    ensures
        n == total_pages(),
{
    usize::MAX / PAGE_SIZE + 1
}

/// Number of whole pages that `len` bytes take up, the last one possibly in part.
pub open spec fn page_count(len: int) -> int {
    (len + PAGE_SIZE - 1) / (PAGE_SIZE as int)
}

/// Rounds a length in bytes up to whole pages.
pub fn pages_for(len: usize) -> (n: usize)
    ensures
        n == page_count(len as int),
        n <= total_pages(),
        n == 0 <==> len == 0,
{
    let whole: usize = len / PAGE_SIZE;
    if len % PAGE_SIZE == 0 {
        whole
    } else {
        whole + 1
    }
}

/// An address in a task's virtual address space.
#[derive(Clone, Copy, PartialEq, Eq, Structural, Debug)]
pub struct VirtAddr(pub usize);

/// An address in physical memory.
#[derive(Clone, Copy, PartialEq, Eq, Structural, Debug)]
pub struct PhysAddr(pub usize);

impl VirtAddr {
    /// The number of the page that holds the address.
    pub open spec fn page(self) -> usize {
        (self.0 / PAGE_SIZE) as usize
    }

    /// The distance of the address from the start of its page.
    pub open spec fn offset(self) -> usize {
        (self.0 % PAGE_SIZE) as usize
    }

    /// Whether the address lies on a page boundary.
    pub open spec fn aligned(self) -> bool {
        self.0 % PAGE_SIZE == 0
    }

    /// The address `i` bytes further on.
    pub open spec fn offset_by(self, i: int) -> VirtAddr {
        VirtAddr((self.0 + i) as usize)
    }

    pub fn page_number(self) -> (n: usize)
        ensures
            n == self.page(),
            n < total_pages(),
    {
        self.0 / PAGE_SIZE
    }

    pub fn page_offset(self) -> (off: usize)
        ensures
            off == self.offset(),
            off < PAGE_SIZE,
    {
        self.0 % PAGE_SIZE
    }

    pub fn is_aligned(self) -> (b: bool)
        ensures
            b == self.aligned(),
    {
        self.0 % PAGE_SIZE == 0
    }

    /// The first address of page `vpn`.
    pub fn from_page(vpn: usize) -> (va: VirtAddr)
        requires
            vpn < total_pages(),
        ensures
            va.0 == vpn * PAGE_SIZE,
            va.page() == vpn,
            va.aligned(),
    {
        VirtAddr(vpn * PAGE_SIZE)
    }
}

impl PhysAddr {
    /// The number of the frame that holds the address.
    pub open spec fn frame(self) -> usize {
        (self.0 / PAGE_SIZE) as usize
    }

    /// The distance of the address from the start of its frame.
    pub open spec fn offset(self) -> usize {
        (self.0 % PAGE_SIZE) as usize
    }

    /// The address `offset` bytes into frame `ppn`.
    pub open spec fn at(ppn: usize, offset: usize) -> PhysAddr {
        PhysAddr((ppn * PAGE_SIZE + offset) as usize)
    }

    pub fn frame_number(self) -> (n: usize)
        ensures
            n == self.frame(),
    {
        self.0 / PAGE_SIZE
    }

    pub fn page_offset(self) -> (off: usize)
        ensures
            off == self.offset(),
            off < PAGE_SIZE,
    {
        self.0 % PAGE_SIZE
    }

    /// Puts a frame number and an offset inside the frame together.
    pub fn from_parts(ppn: usize, offset: usize) -> (pa: PhysAddr)
        requires
            ppn < total_pages(),
            offset < PAGE_SIZE,
        ensures
            pa == PhysAddr::at(ppn, offset),
            pa.0 == ppn * PAGE_SIZE + offset,
            pa.frame() == ppn,
            pa.offset() == offset,
    {
        PhysAddr(ppn * PAGE_SIZE + offset)
    }
}

} // verus!
