//! The page table of one address space: for each mapped virtual page the
//! physical frame behind it and the access that it grants.

use std::collections::HashMap;
use vstd::prelude::*;
use crate::permission::MapPermission;

verus! {

broadcast use vstd::std_specs::hash::group_hash_axioms;

/// What a page table holds for one mapped page.
#[derive(Clone, Copy, PartialEq, Eq, Structural, Debug)]
pub struct PageTableEntry {
    /// The number of the physical frame that backs the page.
    pub ppn: usize,
    /// The access that the page grants.
    pub perm: MapPermission,
}

/// A table from virtual page numbers to entries; its view is that map.
pub struct PageTable {
    entries: HashMap<usize, PageTableEntry>,
}

impl View for PageTable {
    type V = Map<usize, PageTableEntry>;

    closed spec fn view(&self) -> Map<usize, PageTableEntry> {
        self.entries@
    }
}

impl PageTable {
    /// A table that maps no page.
    pub fn new() -> (table: PageTable)
        ensures
            table@ == Map::<usize, PageTableEntry>::empty(),
    {
        PageTable { entries: HashMap::new() }
    }

    /// The entry of page `vpn`, if the page is mapped.
    pub fn lookup(&self, vpn: usize) -> (entry: Option<PageTableEntry>)
        ensures
            entry == (if self@.contains_key(vpn) {
                Some(self@[vpn])
            } else {
                None
            }),
    {
        match self.entries.get(&vpn) {
            Some(e) => Some(*e),
            None => None,
        }
    }

    /// Maps page `vpn` by `entry`, in place of any entry it had.
    pub fn install(&mut self, vpn: usize, entry: PageTableEntry)
        ensures
            final(self)@ == old(self)@.insert(vpn, entry),
    {
        self.entries.insert(vpn, entry);
    }

    /// Unmaps page `vpn`; a page that is not mapped stays so.
    pub fn evict(&mut self, vpn: usize)
        ensures
            final(self)@ == old(self)@.remove(vpn),
    {
        self.entries.remove(&vpn);
    }
}

} // verus!
