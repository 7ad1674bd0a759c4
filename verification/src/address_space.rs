//! The address space of one task: its page table and the mapped areas that
//! the page table was built from.

use vstd::prelude::*;
use crate::address::{page_count, page_limit, pages_for, total_pages, PhysAddr, VirtAddr};
use crate::config::PAGE_SIZE;
use crate::error::MemError;
use crate::frame_allocator::FrameAllocator;
use crate::page_table::{PageTable, PageTableEntry};
use crate::permission::{decode_port, decoded, valid_port, MapPermission};

verus! {

/// A run of virtual pages `start .. end` that was mapped by one request, and
/// the access that each of its pages grants.
pub struct Region {
    pub start: usize,
    pub end: usize,
    pub perm: MapPermission,
}

impl Region {
    /// Whether page `vpn` lies in the region.
    pub open spec fn contains(self, vpn: usize) -> bool {
        self.start <= vpn < self.end
    }

    /// Whether the region shares a page with `start .. end`.
    pub open spec fn overlaps(self, start: int, end: int) -> bool {
        self.start < end && start < self.end
    }

    /// Whether every page of the region lies in `start .. end`.
    pub open spec fn within(self, start: int, end: int) -> bool {
        start <= self.start && self.end <= end
    }
}

/// The pages `start .. end`.
pub open spec fn page_range(start: int, end: int) -> Set<usize> {
    Set::new(|v: usize| start <= v < end)
}

/// Whether the `len` bytes from `va` reach into page `vpn`.
pub open spec fn touches(va: VirtAddr, len: usize, vpn: usize) -> bool {
    len > 0 && va.page() <= vpn && vpn * PAGE_SIZE < va.0 + len
}

/// What an address space is to its users: which pages are mapped, to which
/// frames and with what access, and the regions that the pages came in.
#[verifier::ext_equal]
pub struct AddressSpaceView {
    pub mappings: Map<usize, PageTableEntry>,
    pub regions: Set<Region>,
}

impl AddressSpaceView {
    /// The frames that back the mapped pages among `start .. end`.
    pub open spec fn frames_in(self, start: int, end: int) -> Set<usize> {
        Set::new(
            |f: usize|
                exists|v: usize|
                    start <= v < end && #[trigger] self.mappings.contains_key(v)
                        && self.mappings[v].ppn == f,
        )
    }

    /// The frames that back the mapped pages.
    pub open spec fn frames(self) -> Set<usize> {
        Set::new(
            |f: usize|
                exists|v: usize| #[trigger] self.mappings.contains_key(v) && self.mappings[v].ppn == f,
        )
    }

    /// Whether a region shares a page with `start .. end`.
    pub open spec fn overlapped(self, start: int, end: int) -> bool {
        exists|r: Region| #[trigger] self.regions.contains(r) && r.overlaps(start, end)
    }

    /// Whether `start .. end` is made of whole regions: each of its pages is
    /// mapped, and no region lies partly inside and partly outside.
    pub open spec fn covered_exactly(self, start: int, end: int) -> bool {
        &&& forall|v: usize| start <= v < end ==> #[trigger] self.mappings.contains_key(v)
        &&& forall|r: Region| #[trigger]
            self.regions.contains(r) && r.overlaps(start, end) ==> r.within(start, end)
    }

    /// The regions are not empty, lie in the address space and share no page;
    /// each grants what some valid permission argument asks for; the mapped
    /// pages are the pages of the regions, with the region's access; and no
    /// frame backs two pages.
    pub open spec fn consistent(self) -> bool {
        &&& forall|r: Region| #[trigger]
            self.regions.contains(r) ==> r.start < r.end <= total_pages()
        &&& forall|r: Region| #[trigger] self.regions.contains(r) ==> decoded(r.perm)
        &&& forall|r1: Region, r2: Region|
            #![trigger self.regions.contains(r1), self.regions.contains(r2)]
            self.regions.contains(r1) && self.regions.contains(r2) && r1 != r2 ==> !r1.overlaps(
                r2.start as int,
                r2.end as int,
            )
        &&& forall|v: usize| #[trigger]
            self.mappings.contains_key(v) ==> exists|r: Region| #[trigger]
                self.regions.contains(r) && r.contains(v)
        &&& forall|r: Region, v: usize|
            #![trigger self.regions.contains(r), r.contains(v)]
            self.regions.contains(r) && r.contains(v) ==> self.mappings.contains_key(v)
                && self.mappings[v].perm == r.perm
        &&& forall|v1: usize, v2: usize|
            #![trigger self.mappings[v1], self.mappings[v2]]
            self.mappings.contains_key(v1) && self.mappings.contains_key(v2) && v1 != v2
                ==> self.mappings[v1].ppn != self.mappings[v2].ppn
        &&& forall|v: usize| #[trigger]
            self.mappings.contains_key(v) ==> self.mappings[v].ppn < total_pages()
    }

    /// The physical address behind `va`, where the page of `va` is mapped.
    pub open spec fn translate(self, va: VirtAddr) -> Option<PhysAddr> {
        if self.mappings.contains_key(va.page()) {
            Some(PhysAddr::at(self.mappings[va.page()].ppn, va.offset()))
        } else {
            None
        }
    }

    /// Whether page `vpn` is mapped with at least the access `need`.
    pub open spec fn grants(self, vpn: usize, need: MapPermission) -> bool {
        self.mappings.contains_key(vpn) && self.mappings[vpn].perm.covers(need)
    }

    /// Whether the `len` bytes from `va` lie in the address space and every
    /// page that they reach into is mapped with at least the access `need`.
    pub open spec fn accessible(self, va: VirtAddr, len: usize, need: MapPermission) -> bool {
        &&& va.0 + len <= usize::MAX + 1
        &&& forall|v: usize| touches(va, len, v) ==> #[trigger] self.grants(v, need)
    }

    /// In a consistent address space two addresses have two physical addresses.
    pub proof fn lemma_translate_injective(self, a: VirtAddr, b: VirtAddr)
        requires
            self.consistent(),
            self.translate(a) is Some,
            self.translate(b) is Some,
            a != b,
        ensures
            self.translate(a) != self.translate(b),
            self.translate(a).unwrap().frame() == self.mappings[a.page()].ppn,
            self.translate(a).unwrap().offset() == a.offset(),
    {
        let fa = self.mappings[a.page()].ppn;
        let fb = self.mappings[b.page()].ppn;
        assert(fa < total_pages() && fb < total_pages());
        if a.page() != b.page() {
            assert(self.mappings[a.page()].ppn != self.mappings[b.page()].ppn);
        }
    }

    /// How a request to map `len` bytes from `start` with the access `port`
    /// ends, when `free` are the frames of the pool.
    pub open spec fn map_outcome(self, free: Set<usize>, start: VirtAddr, len: usize, port: usize) -> Result<
        (),
        MemError,
    > {
        if !start.aligned() {
            Err(MemError::MisalignedAddress)
        } else if len == 0 || start.page() + page_count(len as int) > total_pages() {
            Err(MemError::InvalidLength)
        } else if !valid_port(port) {
            Err(MemError::InvalidPermission)
        } else if self.overlapped(start.page() as int, start.page() + page_count(len as int)) {
            Err(MemError::Overlap)
        } else if free.len() < page_count(len as int) {
            Err(MemError::OutOfMemory)
        } else {
            Ok(())
        }
    }

    /// How a request to unmap `len` bytes from `start` ends.
    pub open spec fn unmap_outcome(self, start: VirtAddr, len: usize) -> Result<(), MemError> {
        if !start.aligned() {
            Err(MemError::MisalignedAddress)
        } else if len == 0 || start.page() + page_count(len as int) > total_pages() {
            Err(MemError::InvalidLength)
        } else if !self.covered_exactly(start.page() as int, start.page() + page_count(len as int)) {
            Err(MemError::NotMapped)
        } else {
            Ok(())
        }
    }
}

/// What a successful request to map the pages `start .. end` with the access
/// `perm` does: the pages form a new region, each is backed by a frame of its
/// own that was free, those frames leave the pool, and nothing else changes.
pub open spec fn mapped(
    pre: AddressSpaceView,
    pre_free: Set<usize>,
    post: AddressSpaceView,
    post_free: Set<usize>,
    start: int,
    end: int,
    perm: MapPermission,
) -> bool {
    &&& post.regions == pre.regions.insert(Region { start: start as usize, end: end as usize, perm })
    &&& post.mappings.dom() == pre.mappings.dom().union(page_range(start, end))
    &&& forall|v: usize| #[trigger]
        pre.mappings.contains_key(v) ==> post.mappings[v] == pre.mappings[v]
    &&& forall|v: usize|
        start <= v < end ==> (#[trigger] post.mappings[v]).perm == perm && pre_free.contains(
            post.mappings[v].ppn,
        )
    &&& post_free == pre_free.difference(post.frames_in(start, end))
}

/// What a successful request to unmap the pages `start .. end` does: the
/// regions inside the range are gone, the pages are unmapped, their frames
/// are back in the pool, and nothing else changes.
pub open spec fn unmapped(
    pre: AddressSpaceView,
    pre_free: Set<usize>,
    post: AddressSpaceView,
    post_free: Set<usize>,
    start: int,
    end: int,
) -> bool {
    &&& post.regions == pre.regions.filter(|r: Region| !r.within(start, end))
    &&& post.mappings == pre.mappings.remove_keys(page_range(start, end))
    &&& post_free == pre_free.union(pre.frames_in(start, end))
}

/// A mapped region together with the frames that back its pages, in page order.
pub struct MemoryArea {
    start: usize,
    end: usize,
    perm: MapPermission,
    frames: Vec<usize>,
}

impl MemoryArea {
    /// The pages of the area and their access.
    pub closed spec fn region(&self) -> Region {
        Region { start: self.start, end: self.end, perm: self.perm }
    }

    /// The frames behind the pages of the area, in page order.
    pub closed spec fn frames(&self) -> Seq<usize> {
        self.frames@
    }

    pub closed spec fn wf(&self) -> bool {
        &&& self.start < self.end <= total_pages()
        &&& self.frames@.len() == self.end - self.start
        &&& decoded(self.perm)
    }

    spec fn covers(&self, vpn: usize) -> bool {
        self.start <= vpn < self.end
    }

    spec fn entry(&self, vpn: usize) -> PageTableEntry {
        PageTableEntry { ppn: self.frames@[vpn - self.start], perm: self.perm }
    }

    /// The first page of the area.
    pub fn start_page(&self) -> (vpn: usize)
        ensures
            vpn == self.region().start,
    {
        self.start
    }

    /// One past the last page of the area.
    pub fn end_page(&self) -> (vpn: usize)
        ensures
            vpn == self.region().end,
    {
        self.end
    }

    /// The access that the pages of the area grant.
    pub fn permission(&self) -> (perm: MapPermission)
        ensures
            perm == self.region().perm,
    {
        self.perm
    }

    /// The frame behind page `vpn`, where the page lies in the area.
    pub fn frame_of(&self, vpn: usize) -> (frame: Option<usize>)
        requires
            self.wf(),
        ensures
            frame == (if self.region().contains(vpn) {
                Some(self.frames()[vpn - self.region().start])
            } else {
                None
            }),
    {
        if self.start <= vpn && vpn < self.end {
            Some(self.frames[vpn - self.start])
        } else {
            None
        }
    }
}

/// The regions of a list of areas.
spec fn regions_of(areas: Seq<MemoryArea>) -> Set<Region> {
    Set::new(|r: Region| exists|i: int| 0 <= i < areas.len() && (#[trigger] areas[i]).region() == r)
}

/// One page table and the areas mapped in it.
pub struct AddressSpace {
    page_table: PageTable,
    areas: Vec<MemoryArea>,
}

impl View for AddressSpace {
    type V = AddressSpaceView;

    closed spec fn view(&self) -> AddressSpaceView {
        AddressSpaceView { mappings: self.page_table@, regions: regions_of(self.areas@) }
    }
}

impl AddressSpace {
    pub closed spec fn wf(&self) -> bool {
        &&& forall|i: int| 0 <= i < self.areas@.len() ==> (#[trigger] self.areas@[i]).wf()
        &&& forall|i: int, j: int|
            #![trigger self.areas@[i], self.areas@[j]]
            0 <= i < j < self.areas@.len() ==> !self.areas@[i].region().overlaps(
                self.areas@[j].start as int,
                self.areas@[j].end as int,
            )
        &&& forall|v: usize| #[trigger]
            self.page_table@.contains_key(v) ==> exists|i: int|
                0 <= i < self.areas@.len() && (#[trigger] self.areas@[i]).covers(v)
        &&& forall|i: int, v: usize|
            0 <= i < self.areas@.len() && #[trigger] self.areas@[i].covers(v)
                ==> self.page_table@.contains_key(v) && self.page_table@[v]
                == self.areas@[i].entry(v)
        &&& forall|v1: usize, v2: usize|
            #![trigger self.page_table@[v1], self.page_table@[v2]]
            self.page_table@.contains_key(v1) && self.page_table@.contains_key(v2) && v1 != v2
                ==> self.page_table@[v1].ppn != self.page_table@[v2].ppn
        &&& forall|v: usize| #[trigger]
            self.page_table@.contains_key(v) ==> self.page_table@[v].ppn < total_pages()
    }

    /// Whether every frame of the address space is handed out by `allocator`.
    pub open spec fn owned_by(&self, allocator: &FrameAllocator) -> bool {
        self@.frames().subset_of(allocator.allocated())
    }

    /// A well-formed address space is consistent in what it shows.
    pub proof fn lemma_consistent(&self)
        requires
            self.wf(),
        ensures
            self@.consistent(),
    {
        let view = self@;
        assert forall|r: Region| #[trigger] view.regions.contains(r) implies r.start < r.end
            <= total_pages() by {
            let i = choose|i: int| 0 <= i < self.areas@.len() && (#[trigger] self.areas@[i]).region() == r;
            assert(self.areas@[i].wf());
        }
        assert forall|r1: Region, r2: Region|
            view.regions.contains(r1) && view.regions.contains(r2) && r1 != r2 implies !r1.overlaps(
            r2.start as int,
            r2.end as int,
        ) by {
            let i = choose|i: int| 0 <= i < self.areas@.len() && (#[trigger] self.areas@[i]).region() == r1;
            let j = choose|j: int| 0 <= j < self.areas@.len() && (#[trigger] self.areas@[j]).region() == r2;
            if i < j {
                assert(!self.areas@[i].region().overlaps(self.areas@[j].start as int, self.areas@[j].end as int));
            } else if j < i {
                assert(!self.areas@[j].region().overlaps(self.areas@[i].start as int, self.areas@[i].end as int));
            }
        }
        assert forall|v: usize| #[trigger] view.mappings.contains_key(v) implies exists|r: Region| #[trigger]
            view.regions.contains(r) && r.contains(v) by {
            let i = choose|i: int| 0 <= i < self.areas@.len() && (#[trigger] self.areas@[i]).covers(v);
            let r = self.areas@[i].region();
            assert(view.regions.contains(r) && r.contains(v));
        }
        assert forall|r: Region, v: usize|
            view.regions.contains(r) && r.contains(v) implies view.mappings.contains_key(v)
            && view.mappings[v].perm == r.perm by {
            let i = choose|i: int| 0 <= i < self.areas@.len() && (#[trigger] self.areas@[i]).region() == r;
            assert(self.areas@[i].covers(v));
        }
    }

    /// The areas, in the order in which they were mapped.
    pub closed spec fn area_list(&self) -> Seq<MemoryArea> {
        self.areas@
    }

    /// The regions are the regions of the areas.
    pub proof fn lemma_area_regions(&self)
        ensures
            forall|i: int|
                0 <= i < self.area_list().len() ==> self@.regions.contains((#[trigger] self.area_list()[i]).region()),
            forall|r: Region| #[trigger]
                self@.regions.contains(r) ==> exists|i: int|
                    0 <= i < self.area_list().len() && (#[trigger] self.area_list()[i]).region() == r,
    {
        assert forall|r: Region| #[trigger] self@.regions.contains(r) implies exists|i: int|
            0 <= i < self.area_list().len() && (#[trigger] self.area_list()[i]).region() == r by {
            let i = choose|i: int| 0 <= i < self.areas@.len() && (#[trigger] self.areas@[i]).region() == r;
            assert(self.area_list()[i].region() == r);
        }
    }

    /// Each area of a well-formed address space is well formed, and backs
    /// each of its pages by the frame that the page table holds for it.
    pub proof fn lemma_areas_wf(&self)
        requires
            self.wf(),
        ensures
            forall|i: int| 0 <= i < self.area_list().len() ==> (#[trigger] self.area_list()[i]).wf(),
            forall|i: int, v: usize|
                0 <= i < self.area_list().len() && #[trigger] self.area_list()[i].region().contains(v) ==> {
                    &&& self@.mappings.contains_key(v)
                    &&& self@.mappings[v].ppn == self.area_list()[i].frames()[v - self.area_list()[i].region().start]
                },
    {
        assert forall|i: int, v: usize|
            0 <= i < self.area_list().len() && #[trigger] self.area_list()[i].region().contains(v) implies {
            &&& self@.mappings.contains_key(v)
            &&& self@.mappings[v].ppn == self.area_list()[i].frames()[v - self.area_list()[i].region().start]
        } by {
            assert(self.areas@[i].covers(v));
        }
    }

    /// The number of areas.
    pub fn area_count(&self) -> (n: usize)
        ensures
            n == self.area_list().len(),
    {
        self.areas.len()
    }

    /// The area that was mapped as the `index`-th of those that are there.
    pub fn area(&self, index: usize) -> (area: &MemoryArea)
        requires
            index < self.area_list().len(),
        ensures
            *area == self.area_list()[index as int],
            self@.regions.contains(area.region()),
    {
        &self.areas[index]
    }

    /// An address space with nothing mapped: no page, no region, no area.
    pub fn new() -> (space: AddressSpace)
        ensures
            space.wf(),
            space@.mappings == Map::<usize, PageTableEntry>::empty(),
            space@.regions == Set::<Region>::empty(),
            space.area_list() == Seq::<MemoryArea>::empty(),
    {
        let space = AddressSpace { page_table: PageTable::new(), areas: Vec::new() };
        assert(space@.regions =~= Set::<Region>::empty());
        assert(space.area_list() =~= Seq::<MemoryArea>::empty());
        space
    }

    /// Whether an area shares a page with `start .. end`.
    fn overlaps_area(&self, start: usize, end: usize) -> (b: bool)
        ensures
            b == self@.overlapped(start as int, end as int),
    {
        let mut i: usize = 0;
        while i < self.areas.len()
            invariant
                i <= self.areas.len(),
                forall|j: int| 0 <= j < i ==> !(#[trigger] self.areas@[j]).region().overlaps(start as int, end as int),
            decreases self.areas.len() - i,
        {
            if self.areas[i].start < end && start < self.areas[i].end {
                proof {
                    let r = self.areas@[i as int].region();
                    assert(self@.regions.contains(r) && r.overlaps(start as int, end as int));
                }
                return true;
            }
            i = i + 1;
        }
        proof {
            if self@.overlapped(start as int, end as int) {
                let r = choose|r: Region| #[trigger] self@.regions.contains(r) && r.overlaps(start as int, end as int);
                let j = choose|j: int| 0 <= j < self.areas@.len() && (#[trigger] self.areas@[j]).region() == r;
                assert(!self.areas@[j].region().overlaps(start as int, end as int));
            }
        }
        false
    }

    /// Enters the pages `start .. end` in the page table, backed by `frames`,
    /// and records them as a new area.
    fn install_area(&mut self, start: usize, end: usize, perm: MapPermission, frames: Vec<usize>)
        requires
            old(self).wf(),
            start < end <= total_pages(),
            frames@.len() == end - start,
            frames@.no_duplicates(),
            decoded(perm),
            forall|j: int| 0 <= j < frames@.len() ==> !old(self)@.frames().contains(#[trigger] frames@[j]),
            forall|j: int| 0 <= j < frames@.len() ==> #[trigger] frames@[j] < total_pages(),
            !old(self)@.overlapped(start as int, end as int),
        ensures
            final(self).wf(),
            final(self)@.regions == old(self)@.regions.insert(Region { start, end, perm }),
            final(self)@.mappings.dom() == old(self)@.mappings.dom().union(page_range(start as int, end as int)),
            forall|v: usize| #[trigger]
                old(self)@.mappings.contains_key(v) ==> final(self)@.mappings[v] == old(self)@.mappings[v],
            forall|v: usize|
                start <= v < end ==> #[trigger] final(self)@.mappings[v] == (PageTableEntry {
                    ppn: frames@[v - start],
                    perm,
                }),
    {
        let ghost before = old(self).page_table@;
        proof {
            assert forall|v: usize| start <= v < end implies !before.contains_key(v) by {
                if before.contains_key(v) {
                    let i = choose|i: int| 0 <= i < self.areas@.len() && (#[trigger] self.areas@[i]).covers(v);
                    let r = self.areas@[i].region();
                    assert(self@.regions.contains(r) && r.overlaps(start as int, end as int));
                }
            }
        }
        let mut k: usize = 0;
        while k < frames.len()
            invariant
                k <= frames.len(),
                start < end <= total_pages(),
                frames@.len() == end - start,
                self.areas == old(self).areas,
                self.page_table@.dom() == before.dom().union(page_range(start as int, start + k)),
                forall|v: usize| #[trigger] before.contains_key(v) ==> self.page_table@[v] == before[v],
                forall|v: usize| start <= v < end ==> !before.contains_key(v),
                forall|v: usize|
                    start <= v < start + k ==> #[trigger] self.page_table@[v] == (PageTableEntry {
                        ppn: frames@[v - start],
                        perm,
                    }),
            decreases frames.len() - k,
        {
            let vpn: usize = start + k;
            self.page_table.install(vpn, PageTableEntry { ppn: frames[k], perm });
            k = k + 1;
            proof {
                assert(self.page_table@.dom() =~= before.dom().union(page_range(start as int, start + k)));
            }
        }
        let ghost entries = self.page_table@;
        let ghost frame_seq = frames@;
        let area = MemoryArea { start, end, perm, frames };
        self.areas.push(area);
        proof {
            let old_areas = old(self).areas@;
            let areas = self.areas@;
            let last = old_areas.len() as int;
            assert(areas =~= old_areas.push(area));
            assert(areas[last] == area);
            assert forall|i: int| 0 <= i < last implies areas[i] == old_areas[i] by {}
            // regions
            assert(self@.regions =~= old(self)@.regions.insert(Region { start, end, perm })) by {
                assert forall|r: Region| self@.regions.contains(r) <==> old(self)@.regions.insert(Region { start, end, perm }).contains(r) by {
                    if self@.regions.contains(r) {
                        let i = choose|i: int| 0 <= i < areas.len() && (#[trigger] areas[i]).region() == r;
                        if i < last {
                            assert(old_areas[i].region() == r);
                        }
                    }
                    if old(self)@.regions.contains(r) {
                        let i = choose|i: int| 0 <= i < old_areas.len() && (#[trigger] old_areas[i]).region() == r;
                        assert(areas[i].region() == r);
                    }
                    if r == (Region { start, end, perm }) {
                        assert(areas[last].region() == r);
                    }
                }
            }
            // each area is well formed
            assert forall|i: int| 0 <= i < areas.len() implies (#[trigger] areas[i]).wf() by {
                if i < last {
                    assert(old_areas[i].wf());
                }
            }
            // the areas share no page
            assert forall|i: int, j: int| 0 <= i < j < areas.len() implies !areas[i].region().overlaps(
                areas[j].start as int,
                areas[j].end as int,
            ) by {
                if j < last {
                    assert(!old_areas[i].region().overlaps(old_areas[j].start as int, old_areas[j].end as int));
                } else {
                    let r = old_areas[i].region();
                    assert(old(self)@.regions.contains(r));
                    assert(!r.overlaps(start as int, end as int));
                }
            }
            // each mapped page lies in an area
            assert forall|v: usize| #[trigger] entries.contains_key(v) implies exists|i: int|
                0 <= i < areas.len() && (#[trigger] areas[i]).covers(v) by {
                if before.contains_key(v) {
                    let i = choose|i: int| 0 <= i < old_areas.len() && (#[trigger] old_areas[i]).covers(v);
                    assert(areas[i].covers(v));
                } else {
                    assert(page_range(start as int, end as int).contains(v));
                    assert(areas[last].covers(v));
                }
            }
            // each page of an area is mapped as the area says
            assert forall|i: int, v: usize| 0 <= i < areas.len() && #[trigger] areas[i].covers(v) implies entries.contains_key(v)
                && entries[v] == areas[i].entry(v) by {
                if i < last {
                    assert(old_areas[i].covers(v));
                    assert(before.contains_key(v));
                } else {
                    assert(page_range(start as int, end as int).contains(v));
                    assert(entries[v] == (PageTableEntry { ppn: frame_seq[v - start], perm }));
                }
            }
            // no frame backs two pages
            assert forall|v1: usize, v2: usize|
                entries.contains_key(v1) && entries.contains_key(v2) && v1 != v2 implies entries[v1].ppn
                != entries[v2].ppn by {
                let fresh1 = page_range(start as int, end as int).contains(v1);
                let fresh2 = page_range(start as int, end as int).contains(v2);
                if fresh1 {
                    assert(!before.contains_key(v1));
                    assert(entries[v1] == (PageTableEntry { ppn: frame_seq[v1 - start], perm }));
                } else {
                    assert(before.contains_key(v1));
                    assert(old(self)@.frames().contains(before[v1].ppn));
                }
                if fresh2 {
                    assert(!before.contains_key(v2));
                    assert(entries[v2] == (PageTableEntry { ppn: frame_seq[v2 - start], perm }));
                } else {
                    assert(before.contains_key(v2));
                    assert(old(self)@.frames().contains(before[v2].ppn));
                }
            }
        }
    }

    /// Maps `len` bytes from `start`, rounded up to whole pages, to fresh
    /// frames of `allocator`, with the access that `port` encodes.
    ///
    /// The request fails, and changes nothing, when `start` is not on a page
    /// boundary, when the range is empty or leaves the address space, when
    /// `port` is not a valid permission, when a page of the range is already
    /// mapped, or when the pool has too few free frames, in this order.
    pub fn map(&mut self, allocator: &mut FrameAllocator, start: VirtAddr, len: usize, port: usize) -> (res:
        Result<(), MemError>)
        requires
            old(self).wf(),
            old(allocator).wf(),
            old(self).owned_by(old(allocator)),
        ensures
            final(self).wf(),
            final(allocator).wf(),
            final(self).owned_by(final(allocator)),
            final(allocator).first() == old(allocator).first(),
            final(allocator).limit() == old(allocator).limit(),
            res == old(self)@.map_outcome(old(allocator).free(), start, len, port),
            res is Err ==> final(self)@ == old(self)@ && final(allocator).free() == old(allocator).free(),
            res is Ok ==> mapped(
                old(self)@,
                old(allocator).free(),
                final(self)@,
                final(allocator).free(),
                start.page() as int,
                start.page() + page_count(len as int),
                decode_port(port).unwrap(),
            ),
    {
        if !start.is_aligned() {
            return Err(MemError::MisalignedAddress);
        }
        let pages: usize = pages_for(len);
        let first: usize = start.page_number();
        if pages == 0 || pages > page_limit() - first {
            return Err(MemError::InvalidLength);
        }
        let perm: MapPermission = match MapPermission::from_port(port) {
            Some(p) => p,
            None => {
                return Err(MemError::InvalidPermission);
            },
        };
        let end: usize = first + pages;
        if self.overlaps_area(first, end) {
            return Err(MemError::Overlap);
        }
        let frames: Vec<usize> = match allocator.allocate_many(pages) {
            Some(f) => f,
            None => {
                return Err(MemError::OutOfMemory);
            },
        };
        proof {
            old(allocator).lemma_free_bounded();
            assert forall|j: int| 0 <= j < frames@.len() implies !self@.frames().contains(#[trigger] frames@[j]) by {
                assert(old(allocator).free().contains(frames@[j]));
            }
        }
        let ghost taken = frames@;
        self.install_area(first, end, perm, frames);
        proof {
            let post = self@;
            assert(post.frames_in(first as int, end as int) =~= taken.to_set()) by {
                assert forall|f: usize| post.frames_in(first as int, end as int).contains(f) <==> taken.to_set().contains(f) by {
                    if post.frames_in(first as int, end as int).contains(f) {
                        let v = choose|v: usize| first <= v < end && #[trigger] post.mappings.contains_key(v) && post.mappings[v].ppn == f;
                        assert(post.mappings[v] == (PageTableEntry { ppn: taken[v - first], perm }));
                        assert(taken[v - first] == f);
                    }
                    if taken.to_set().contains(f) {
                        let j = choose|j: int| 0 <= j < taken.len() && taken[j] == f;
                        let v = (first + j) as usize;
                        assert(page_range(first as int, end as int).contains(v));
                        assert(post.mappings.contains_key(v));
                        assert(post.mappings[v] == (PageTableEntry { ppn: taken[v - first], perm }));
                    }
                }
            }
            assert forall|v: usize| first <= v < end implies (#[trigger] post.mappings[v]).perm == perm
                && old(allocator).free().contains(post.mappings[v].ppn) by {
                assert(post.mappings[v] == (PageTableEntry { ppn: taken[v - first], perm }));
                assert(old(allocator).free().contains(taken[v - first]));
            }
            assert(self.owned_by(allocator)) by {
                assert forall|f: usize| post.frames().contains(f) implies allocator.allocated().contains(f) by {
                    let v = choose|v: usize| #[trigger] post.mappings.contains_key(v) && post.mappings[v].ppn == f;
                    if old(self)@.mappings.contains_key(v) {
                        assert(old(self)@.frames().contains(f));
                        assert(old(allocator).allocated().contains(f));
                    } else {
                        assert(page_range(first as int, end as int).contains(v));
                        assert(post.mappings[v] == (PageTableEntry { ppn: taken[v - first], perm }));
                        assert(taken.to_set().contains(taken[v - first]));
                        assert(old(allocator).free().contains(taken[v - first]));
                    }
                }
            }
        }
        Ok(())
    }
}

/// The frames behind the pages that `before` maps and `after` does not.
pub open spec fn dropped_frames(
    before: Map<usize, PageTableEntry>,
    after: Map<usize, PageTableEntry>,
) -> Set<usize> {
    Set::new(
        |f: usize|
            exists|v: usize| #[trigger]
                before.contains_key(v) && !after.contains_key(v) && before[v].ppn == f,
    )
}

/// When the pages `start .. end` are unmapped from an address space that
/// maps no more than `before` did, the frames dropped since `before` are
/// those dropped earlier and those behind the pages.
proof fn lemma_dropped_grows(
    before: Map<usize, PageTableEntry>,
    mid: AddressSpaceView,
    now: Map<usize, PageTableEntry>,
    start: int,
    end: int,
)
    requires
        forall|v: usize| #[trigger]
            mid.mappings.contains_key(v) ==> before.contains_key(v) && mid.mappings[v] == before[v],
        now == mid.mappings.remove_keys(page_range(start, end)),
    ensures
        dropped_frames(before, now) == dropped_frames(before, mid.mappings).union(mid.frames_in(start, end)),
{
    let gone = mid.frames_in(start, end);
    assert forall|f: usize|
        dropped_frames(before, mid.mappings).union(gone).contains(f) <==> dropped_frames(before, now).contains(
            f,
        ) by {
        if gone.contains(f) {
            let v = choose|v: usize|
                start <= v < end && #[trigger] mid.mappings.contains_key(v) && mid.mappings[v].ppn == f;
            assert(before.contains_key(v) && !now.contains_key(v) && before[v].ppn == f);
        }
        if dropped_frames(before, mid.mappings).contains(f) {
            let v = choose|v: usize| #[trigger]
                before.contains_key(v) && !mid.mappings.contains_key(v) && before[v].ppn == f;
            assert(before.contains_key(v) && !now.contains_key(v) && before[v].ppn == f);
        }
        if dropped_frames(before, now).contains(f) {
            let v = choose|v: usize| #[trigger] before.contains_key(v) && !now.contains_key(v) && before[v].ppn == f;
            if mid.mappings.contains_key(v) {
                assert(page_range(start, end).contains(v));
                assert(gone.contains(f));
            } else {
                assert(dropped_frames(before, mid.mappings).contains(f));
            }
        }
    }
    assert(dropped_frames(before, now) =~= dropped_frames(before, mid.mappings).union(gone));
}

impl AddressSpace {
    /// Takes area `idx` out of the address space: unmaps its pages and puts
    /// their frames back into the pool.
    #[verifier::loop_isolation(false)]
    fn remove_area(&mut self, allocator: &mut FrameAllocator, idx: usize)
        requires
            old(self).wf(),
            old(allocator).wf(),
            old(self).owned_by(old(allocator)),
            idx < old(self).areas@.len(),
        ensures
            final(self).wf(),
            final(allocator).wf(),
            final(self).owned_by(final(allocator)),
            final(allocator).first() == old(allocator).first(),
            final(allocator).limit() == old(allocator).limit(),
            final(self).areas@ == old(self).areas@.remove(idx as int),
            final(self)@.regions == old(self)@.regions.remove(old(self).areas@[idx as int].region()),
            final(self)@.mappings == old(self)@.mappings.remove_keys(
                page_range(
                    old(self).areas@[idx as int].start as int,
                    old(self).areas@[idx as int].end as int,
                ),
            ),
            final(allocator).free() == old(allocator).free().union(
                old(self)@.frames_in(
                    old(self).areas@[idx as int].start as int,
                    old(self).areas@[idx as int].end as int,
                ),
            ),
    {
        let ghost before = self.page_table@;
        let ghost old_areas = self.areas@;
        let area = self.areas.remove(idx);
        proof {
            assert(area == old_areas[idx as int]);
            assert(area.wf());
        }
        let mut k: usize = 0;
        while k < area.frames.len()
            invariant
                k <= area.frames@.len(),
                area.wf(),
                self.areas@ == old_areas.remove(idx as int),
                self.page_table@ == before.remove_keys(page_range(area.start as int, area.start + k)),
            decreases area.frames@.len() - k,
        {
            let vpn: usize = area.start + k;
            self.page_table.evict(vpn);
            k = k + 1;
            proof {
                assert(self.page_table@ =~= before.remove_keys(page_range(area.start as int, area.start + k)));
            }
        }
        proof {
            assert(old(self).areas@[idx as int].covers(area.start));
            assert forall|a: int| 0 <= a < area.frames@.len() implies before.contains_key((area.start + a) as usize)
                && before[(area.start + a) as usize].ppn == #[trigger] area.frames@[a] by {
                let v = (area.start + a) as usize;
                assert(old_areas[idx as int].covers(v));
            }
            assert(area.frames@.no_duplicates()) by {
                assert forall|a: int, b: int| 0 <= a < area.frames@.len() && 0 <= b < area.frames@.len() && a != b implies area.frames@[a]
                    != area.frames@[b] by {
                    let va = (area.start + a) as usize;
                    let vb = (area.start + b) as usize;
                    assert(before[va].ppn == area.frames@[a]);
                    assert(before[vb].ppn == area.frames@[b]);
                }
            }
            assert forall|a: int| 0 <= a < area.frames@.len() implies allocator.allocated().contains(#[trigger] area.frames@[a]) by {
                let v = (area.start + a) as usize;
                assert(old_areas[idx as int].covers(v));
                assert(before.contains_key(v));
                assert(before[v].ppn == area.frames@[a]);
                assert(old(self)@.mappings.contains_key(v));
                assert(old(self)@.frames().contains(area.frames@[a]));
            }
        }
        allocator.deallocate_many(&area.frames);
        proof {
            let areas = self.areas@;
            let entries = self.page_table@;
            let range = page_range(area.start as int, area.end as int);
            let r = area.region();
            assert forall|i: int| 0 <= i < areas.len() implies areas[i] == old_areas[if i < idx { i } else { i + 1 }] by {}
            // freed frames
            assert(old(self)@.frames_in(area.start as int, area.end as int) =~= area.frames@.to_set()) by {
                assert forall|f: usize| old(self)@.frames_in(area.start as int, area.end as int).contains(f) <==> area.frames@.to_set().contains(f) by {
                    if old(self)@.frames_in(area.start as int, area.end as int).contains(f) {
                        let v = choose|v: usize| area.start <= v < area.end && #[trigger] before.contains_key(v) && before[v].ppn == f;
                        assert(old_areas[idx as int].covers(v));
                        assert(area.frames@[v - area.start] == f);
                    }
                    if area.frames@.to_set().contains(f) {
                        let a = choose|a: int| 0 <= a < area.frames@.len() && area.frames@[a] == f;
                        let v = (area.start + a) as usize;
                        assert(before.contains_key(v) && before[v].ppn == area.frames@[a]);
                    }
                }
            }
            // regions
            assert(self@.regions =~= old(self)@.regions.remove(r)) by {
                assert forall|q: Region| self@.regions.contains(q) <==> old(self)@.regions.remove(r).contains(q) by {
                    if self@.regions.contains(q) {
                        let i = choose|i: int| 0 <= i < areas.len() && (#[trigger] areas[i]).region() == q;
                        let i0 = if i < idx { i } else { i + 1 };
                        assert(old_areas[i0].region() == q);
                        assert(old_areas[i0].wf());
                        if i0 < idx {
                            assert(!old_areas[i0].region().overlaps(old_areas[idx as int].start as int, old_areas[idx as int].end as int));
                        } else {
                            assert(!old_areas[idx as int].region().overlaps(old_areas[i0].start as int, old_areas[i0].end as int));
                        }
                        assert(q != r);
                    }
                    if old(self)@.regions.contains(q) && q != r {
                        let i0 = choose|i: int| 0 <= i < old_areas.len() && (#[trigger] old_areas[i]).region() == q;
                        let i = if i0 < idx { i0 } else { i0 - 1 };
                        assert(areas[i] == old_areas[i0]);
                        assert(areas[i].region() == q);
                    }
                }
            }
            // well-formedness
            assert forall|i: int| 0 <= i < areas.len() implies (#[trigger] areas[i]).wf() by {
                assert(old_areas[if i < idx { i } else { i + 1 }].wf());
            }
            assert forall|i: int, j: int| 0 <= i < j < areas.len() implies !areas[i].region().overlaps(
                areas[j].start as int,
                areas[j].end as int,
            ) by {
                let i0 = if i < idx { i } else { i + 1 };
                let j0 = if j < idx { j } else { j + 1 };
                assert(!old_areas[i0].region().overlaps(old_areas[j0].start as int, old_areas[j0].end as int));
            }
            assert forall|v: usize| #[trigger] entries.contains_key(v) implies exists|i: int|
                0 <= i < areas.len() && (#[trigger] areas[i]).covers(v) by {
                assert(before.contains_key(v) && !range.contains(v));
                let i0 = choose|i: int| 0 <= i < old_areas.len() && (#[trigger] old_areas[i]).covers(v);
                let i = if i0 < idx { i0 } else { i0 - 1 };
                assert(areas[i] == old_areas[i0]);
                assert(areas[i].covers(v));
            }
            assert forall|i: int, v: usize| 0 <= i < areas.len() && #[trigger] areas[i].covers(v) implies entries.contains_key(v)
                && entries[v] == areas[i].entry(v) by {
                let i0 = if i < idx { i } else { i + 1 };
                assert(old_areas[i0].covers(v));
                if i0 < idx {
                    assert(!old_areas[i0].region().overlaps(old_areas[idx as int].start as int, old_areas[idx as int].end as int));
                } else {
                    assert(!old_areas[idx as int].region().overlaps(old_areas[i0].start as int, old_areas[i0].end as int));
                }
                assert(!range.contains(v));
            }
            assert forall|v1: usize, v2: usize|
                entries.contains_key(v1) && entries.contains_key(v2) && v1 != v2 implies entries[v1].ppn
                != entries[v2].ppn by {
                assert(before.contains_key(v1) && before.contains_key(v2));
                assert(before[v1].ppn != before[v2].ppn);
            }
            assert(self.owned_by(allocator)) by {
                assert forall|f: usize| self@.frames().contains(f) implies allocator.allocated().contains(f) by {
                    let v = choose|v: usize| #[trigger] entries.contains_key(v) && entries[v].ppn == f;
                    assert(before.contains_key(v) && !range.contains(v));
                    assert(old(self)@.frames().contains(f));
                    assert(old(allocator).allocated().contains(f));
                    if area.frames@.to_set().contains(f) {
                        let a = choose|a: int| 0 <= a < area.frames@.len() && area.frames@[a] == f;
                        let w = (area.start + a) as usize;
                        assert(before.contains_key(w) && before[w].ppn == area.frames@[a]);
                        assert(range.contains(w));
                        assert(before[v].ppn != before[w].ppn);
                    }
                }
            }
        }
    }

    /// Whether every page of `start .. end` is mapped.
    fn all_mapped(&self, start: usize, end: usize) -> (b: bool)
        requires
            start <= end,
        ensures
            b == (forall|v: usize| start <= v < end ==> #[trigger] self@.mappings.contains_key(v)),
    {
        let mut vpn: usize = start;
        while vpn < end
            invariant
                start <= vpn <= end,
                forall|v: usize| start <= v < vpn ==> #[trigger] self@.mappings.contains_key(v),
            decreases end - vpn,
        {
            if self.page_table.lookup(vpn).is_none() {
                assert(!self@.mappings.contains_key(vpn));
                return false;
            }
            vpn = vpn + 1;
        }
        true
    }

    /// Whether an area lies partly inside and partly outside `start .. end`.
    fn splits_area(&self, start: usize, end: usize) -> (b: bool)
        ensures
            b == (exists|r: Region| #[trigger]
                self@.regions.contains(r) && r.overlaps(start as int, end as int) && !r.within(
                    start as int,
                    end as int,
                )),
    {
        let mut i: usize = 0;
        while i < self.areas.len()
            invariant
                i <= self.areas.len(),
                forall|j: int|
                    0 <= j < i ==> {
                        let r = (#[trigger] self.areas@[j]).region();
                        r.overlaps(start as int, end as int) ==> r.within(start as int, end as int)
                    },
            decreases self.areas.len() - i,
        {
            let a_start: usize = self.areas[i].start;
            let a_end: usize = self.areas[i].end;
            if a_start < end && start < a_end && !(start <= a_start && a_end <= end) {
                proof {
                    let r = self.areas@[i as int].region();
                    assert(self@.regions.contains(r));
                }
                return true;
            }
            i = i + 1;
        }
        proof {
            if exists|r: Region| #[trigger]
                self@.regions.contains(r) && r.overlaps(start as int, end as int) && !r.within(
                    start as int,
                    end as int,
                ) {
                let r = choose|r: Region| #[trigger]
                    self@.regions.contains(r) && r.overlaps(start as int, end as int) && !r.within(
                        start as int,
                        end as int,
                    );
                let j = choose|j: int| 0 <= j < self.areas@.len() && (#[trigger] self.areas@[j]).region() == r;
                assert(self.areas@[j].region() == r);
            }
        }
        false
    }

    /// Unmaps `len` bytes from `start`, rounded up to whole pages, and puts
    /// the frames behind them back into `allocator`.
    ///
    /// The range must be made of whole areas: an area is unmapped as it was
    /// mapped, never in part. The request fails, and changes nothing, when
    /// `start` is not on a page boundary, when the range is empty or leaves
    /// the address space, or when a page of the range is not mapped or an
    /// area reaches out of the range, in this order.
    pub fn unmap(&mut self, allocator: &mut FrameAllocator, start: VirtAddr, len: usize) -> (res: Result<
        (),
        MemError,
    >)
        requires
            old(self).wf(),
            old(allocator).wf(),
            old(self).owned_by(old(allocator)),
        ensures
            final(self).wf(),
            final(allocator).wf(),
            final(self).owned_by(final(allocator)),
            final(allocator).first() == old(allocator).first(),
            final(allocator).limit() == old(allocator).limit(),
            res == old(self)@.unmap_outcome(start, len),
            res is Err ==> final(self)@ == old(self)@ && final(allocator).free() == old(allocator).free(),
            res is Ok ==> unmapped(
                old(self)@,
                old(allocator).free(),
                final(self)@,
                final(allocator).free(),
                start.page() as int,
                start.page() + page_count(len as int),
            ),
    {
        if !start.is_aligned() {
            return Err(MemError::MisalignedAddress);
        }
        let pages: usize = pages_for(len);
        let first: usize = start.page_number();
        if pages == 0 || pages > page_limit() - first {
            return Err(MemError::InvalidLength);
        }
        let end: usize = first + pages;
        if !self.all_mapped(first, end) {
            return Err(MemError::NotMapped);
        }
        if self.splits_area(first, end) {
            return Err(MemError::NotMapped);
        }
        let ghost pre = self@;
        let ghost pre_free = allocator.free();
        proof {
            self.lemma_consistent();
            assert(pre.covered_exactly(first as int, end as int));
            assert(allocator.free() =~= pre_free.union(dropped_frames(pre.mappings, self@.mappings)));
        }
        let mut i: usize = 0;
        while i < self.areas.len()
            invariant
                i <= self.areas@.len(),
                first < end,
                self.wf(),
                allocator.wf(),
                self.owned_by(allocator),
                allocator.first() == old(allocator).first(),
                allocator.limit() == old(allocator).limit(),
                pre.consistent(),
                pre.covered_exactly(first as int, end as int),
                forall|j: int| 0 <= j < i ==> !(#[trigger] self.areas@[j]).region().within(first as int, end as int),
                forall|r: Region| #[trigger] self@.regions.contains(r) ==> pre.regions.contains(r),
                forall|r: Region| #[trigger]
                    pre.regions.contains(r) && !r.within(first as int, end as int) ==> self@.regions.contains(r),
                forall|v: usize| #[trigger]
                    self@.mappings.contains_key(v) ==> pre.mappings.contains_key(v) && self@.mappings[v]
                        == pre.mappings[v],
                forall|v: usize| #[trigger]
                    pre.mappings.contains_key(v) && !self@.mappings.contains_key(v) ==> first <= v < end,
                allocator.free() == pre_free.union(dropped_frames(pre.mappings, self@.mappings)),
            decreases self.areas@.len() - i,
        {
            let a_start: usize = self.areas[i].start;
            let a_end: usize = self.areas[i].end;
            if first <= a_start && a_end <= end {
                let ghost mid = self@;
                let ghost mid_free = allocator.free();
                let ghost mid_areas = self.areas@;
                self.remove_area(allocator, i);
                proof {
                    let now = self@;
                    let r = mid_areas[i as int].region();
                    assert(mid.regions.contains(r));
                    assert forall|j: int| 0 <= j < i implies !(#[trigger] self.areas@[j]).region().within(first as int, end as int) by {
                        assert(self.areas@[j] == mid_areas[j]);
                    }
                    lemma_dropped_grows(pre.mappings, mid, now.mappings, a_start as int, a_end as int);
                }
            } else {
                i = i + 1;
            }
        }
        proof {
            let post = self@;
            self.lemma_consistent();
            assert(post.regions =~= pre.regions.filter(|r: Region| !r.within(first as int, end as int))) by {
                assert forall|r: Region| post.regions.contains(r) implies !r.within(first as int, end as int) by {
                    let j = choose|j: int| 0 <= j < self.areas@.len() && (#[trigger] self.areas@[j]).region() == r;
                    assert(!self.areas@[j].region().within(first as int, end as int));
                }
            }
            assert(post.mappings =~= pre.mappings.remove_keys(page_range(first as int, end as int))) by {
                assert forall|v: usize| pre.mappings.contains_key(v) && !(first <= v < end) implies post.mappings.contains_key(v) by {}
                assert forall|v: usize| first <= v < end implies !post.mappings.contains_key(v) by {
                    if post.mappings.contains_key(v) {
                        let r = choose|r: Region| #[trigger] post.regions.contains(r) && r.contains(v);
                        assert(pre.regions.contains(r));
                        assert(r.overlaps(first as int, end as int));
                        assert(r.within(first as int, end as int));
                        let j = choose|j: int| 0 <= j < self.areas@.len() && (#[trigger] self.areas@[j]).region() == r;
                        assert(!self.areas@[j].region().within(first as int, end as int));
                    }
                }
            }
            assert(dropped_frames(pre.mappings, post.mappings) =~= pre.frames_in(first as int, end as int)) by {
                assert forall|f: usize| dropped_frames(pre.mappings, post.mappings).contains(f) <==> pre.frames_in(first as int, end as int).contains(f) by {
                    if dropped_frames(pre.mappings, post.mappings).contains(f) {
                        let v = choose|v: usize| #[trigger] pre.mappings.contains_key(v) && !post.mappings.contains_key(v) && pre.mappings[v].ppn == f;
                        assert(first <= v < end);
                    }
                    if pre.frames_in(first as int, end as int).contains(f) {
                        let v = choose|v: usize| first <= v < end && #[trigger] pre.mappings.contains_key(v) && pre.mappings[v].ppn == f;
                        assert(!post.mappings.contains_key(v));
                    }
                }
            }
        }
        Ok(())
    }

    /// Unmaps everything and puts every frame back into `allocator`.
    pub fn clear(&mut self, allocator: &mut FrameAllocator)
        requires
            old(self).wf(),
            old(allocator).wf(),
            old(self).owned_by(old(allocator)),
        ensures
            final(self).wf(),
            final(allocator).wf(),
            final(self).owned_by(final(allocator)),
            final(allocator).first() == old(allocator).first(),
            final(allocator).limit() == old(allocator).limit(),
            final(self)@.mappings == Map::<usize, PageTableEntry>::empty(),
            final(self)@.regions == Set::<Region>::empty(),
            final(allocator).free() == old(allocator).free().union(old(self)@.frames()),
    {
        let ghost pre = self@;
        let ghost pre_free = allocator.free();
        proof {
            assert(allocator.free() =~= pre_free.union(dropped_frames(pre.mappings, self@.mappings)));
        }
        while self.areas.len() > 0
            invariant
                self.wf(),
                allocator.wf(),
                self.owned_by(allocator),
                allocator.first() == old(allocator).first(),
                allocator.limit() == old(allocator).limit(),
                forall|v: usize| #[trigger]
                    self@.mappings.contains_key(v) ==> pre.mappings.contains_key(v) && self@.mappings[v]
                        == pre.mappings[v],
                allocator.free() == pre_free.union(dropped_frames(pre.mappings, self@.mappings)),
            decreases self.areas@.len(),
        {
            let last: usize = self.areas.len() - 1;
            let ghost mid = self@;
            let ghost a_start = self.areas@[last as int].start;
            let ghost a_end = self.areas@[last as int].end;
            self.remove_area(allocator, last);
            proof {
                let now = self@;
                lemma_dropped_grows(pre.mappings, mid, now.mappings, a_start as int, a_end as int);
            }
        }
        proof {
            let post = self@;
            assert(post.regions =~= Set::<Region>::empty());
            assert(post.mappings =~= Map::<usize, PageTableEntry>::empty()) by {
                assert forall|v: usize| !post.mappings.contains_key(v) by {
                    if post.mappings.contains_key(v) {
                        let i = choose|i: int| 0 <= i < self.areas@.len() && (#[trigger] self.areas@[i]).covers(v);
                    }
                }
            }
            assert(dropped_frames(pre.mappings, post.mappings) =~= pre.frames());
        }
    }
}

impl AddressSpace {
    /// Walks the page table for `va`: the physical address behind it and the
    /// access that its page grants, or nothing when the page is not mapped.
    pub fn translate(&self, va: VirtAddr) -> (found: Option<(PhysAddr, MapPermission)>)
        requires
            self.wf(),
        ensures
            match found {
                Some((pa, perm)) => self@.translate(va) == Some(pa) && perm
                    == self@.mappings[va.page()].perm,
                None => self@.translate(va) is None,
            },
    {
        match self.page_table.lookup(va.page_number()) {
            Some(entry) => Some((PhysAddr::from_parts(entry.ppn, va.page_offset()), entry.perm)),
            None => None,
        }
    }

    /// Whether page `vpn` is mapped with at least the access `need`.
    fn page_grants(&self, vpn: usize, need: MapPermission) -> (b: bool)
        ensures
            b == self@.grants(vpn, need),
    {
        match self.page_table.lookup(vpn) {
            Some(entry) => entry.perm.contains(need),
            None => false,
        }
    }

    /// Whether the `len` bytes from `va` can be accessed with the rights `need`.
    pub fn check_access(&self, va: VirtAddr, len: usize, need: MapPermission) -> (b: bool)
        ensures
            b == self@.accessible(va, len, need),
    {
        if len == 0 {
            return true;
        }
        if va.0 > usize::MAX - (len - 1) {
            return false;
        }
        let first: usize = va.page_number();
        let last: usize = (va.0 + (len - 1)) / PAGE_SIZE;
        let mut vpn: usize = first;
        while vpn <= last
            invariant
                len > 0,
                va.0 + len <= usize::MAX + 1,
                first == va.page(),
                last == (va.0 + (len - 1)) / (PAGE_SIZE as int),
                first <= vpn <= last + 1,
                forall|v: usize| first <= v < vpn ==> #[trigger] self@.grants(v, need),
            decreases last + 1 - vpn,
        {
            let granted: bool = self.page_grants(vpn, need);
            if !granted {
                assert(touches(va, len, vpn));
                return false;
            }
            vpn = vpn + 1;
        }
        true
    }

    /// Resolves each of the `len` bytes from `va` to its physical address,
    /// after checking that every page they reach into is mapped with at
    /// least the access `need`.
    pub fn translate_buffer(&self, va: VirtAddr, len: usize, need: MapPermission) -> (res: Result<
        Vec<PhysAddr>,
        MemError,
    >)
        requires
            self.wf(),
        ensures
            match res {
                Ok(found) => {
                    &&& self@.accessible(va, len, need)
                    &&& found@.len() == len
                    &&& forall|i: int|
                        0 <= i < len ==> self@.translate(va.offset_by(i)) == Some(#[trigger] found@[i])
                },
                Err(e) => e == MemError::TranslationFault && !self@.accessible(va, len, need),
            },
    {
        if !self.check_access(va, len, need) {
            return Err(MemError::TranslationFault);
        }
        let mut found: Vec<PhysAddr> = Vec::new();
        let mut i: usize = 0;
        while i < len
            invariant
                i <= len,
                self.wf(),
                self@.accessible(va, len, need),
                found@.len() == i,
                forall|j: int| 0 <= j < i ==> self@.translate(va.offset_by(j)) == Some(#[trigger] found@[j]),
            decreases len - i,
        {
            let at: VirtAddr = VirtAddr(va.0 + i);
            proof {
                assert(at == va.offset_by(i as int));
                assert(touches(va, len, at.page()));
                assert(self@.grants(at.page(), need));
            }
            let entry: PageTableEntry = self.page_table.lookup(at.page_number()).unwrap();
            found.push(PhysAddr::from_parts(entry.ppn, at.page_offset()));
            i = i + 1;
        }
        Ok(found)
    }
}

} // verus!
