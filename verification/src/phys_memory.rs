//! The bytes of the physical frames that the kernel manages.

use vstd::prelude::*;
use crate::address::{total_pages, PhysAddr};
use crate::config::PAGE_SIZE;

verus! {

/// The contents of a run of physical frames, one byte after the other; its
/// view is that sequence, which starts at the first byte of `first_frame()`.
pub struct PhysMemory {
    base: usize,
    bytes: Vec<u8>,
}

impl View for PhysMemory {
    type V = Seq<u8>;

    closed spec fn view(&self) -> Seq<u8> {
        self.bytes@
    }
}

impl PhysMemory {
    /// The number of the first frame that the memory holds.
    pub closed spec fn first_frame(&self) -> usize {
        self.base
    }

    /// The number of frames that the memory holds.
    pub open spec fn frame_count(&self) -> int {
        (self@.len() as int) / (PAGE_SIZE as int)
    }

    pub closed spec fn wf(&self) -> bool {
        &&& (self.bytes@.len() as int) % (PAGE_SIZE as int) == 0
        &&& self.base + (self.bytes@.len() as int) / (PAGE_SIZE as int) <= total_pages()
    }

    /// Whether the memory holds the byte at `pa`.
    pub open spec fn holds(&self, pa: PhysAddr) -> bool {
        self.first_frame() <= pa.frame() < self.first_frame() + self.frame_count()
    }

    /// The place of the byte at `pa` in the view.
    pub open spec fn index_of(&self, pa: PhysAddr) -> int {
        pa.0 - self.first_frame() * PAGE_SIZE
    }

    /// The frames that the memory holds have addresses.
    pub proof fn lemma_bounded(&self)
        requires
            self.wf(),
        ensures
            self@.len() == self.frame_count() * PAGE_SIZE,
            self.first_frame() + self.frame_count() <= total_pages(),
            forall|pa: PhysAddr| #[trigger] self.holds(pa) ==> 0 <= self.index_of(pa) < self@.len(),
    {
    }

    /// Memory for the frames `base .. base + frames`, every byte zero.
    pub fn new(base: usize, frames: usize) -> (memory: PhysMemory)
        requires
            base + frames <= total_pages(),
            frames * PAGE_SIZE <= usize::MAX,
        ensures
            memory.wf(),
            memory.first_frame() == base,
            memory.frame_count() == frames,
            memory@ == Seq::new((frames * PAGE_SIZE) as nat, |i: int| 0u8),
    {
        let size: usize = frames * PAGE_SIZE;
        let bytes: Vec<u8> = vec![0u8; size];
        let memory = PhysMemory { base, bytes };
        assert(memory@ =~= Seq::new((frames * PAGE_SIZE) as nat, |i: int| 0u8));
        memory
    }

    /// The byte at `pa`.
    pub fn load(&self, pa: PhysAddr) -> (value: u8)
        requires
            self.wf(),
            self.holds(pa),
        ensures
            value == self@[self.index_of(pa)],
    {
        let index: usize = pa.0 - self.base * PAGE_SIZE;
        self.bytes[index]
    }

    /// Sets the byte at `pa` to `value`.
    pub fn store(&mut self, pa: PhysAddr, value: u8)
        requires
            old(self).wf(),
            old(self).holds(pa),
        ensures
            final(self).wf(),
            final(self).first_frame() == old(self).first_frame(),
            final(self)@ == old(self)@.update(old(self).index_of(pa), value),
    {
        let index: usize = pa.0 - self.base * PAGE_SIZE;
        self.bytes[index] = value;
    }

    /// The bytes at `addrs`, in that order.
    pub fn load_all(&self, addrs: &Vec<PhysAddr>) -> (values: Vec<u8>)
        requires
            self.wf(),
            forall|i: int| 0 <= i < addrs@.len() ==> self.holds(#[trigger] addrs@[i]),
        ensures
            values@.len() == addrs@.len(),
            forall|i: int|
                0 <= i < addrs@.len() ==> #[trigger] values@[i] == self@[self.index_of(addrs@[i])],
    {
        let mut values: Vec<u8> = Vec::new();
        let mut i: usize = 0;
        while i < addrs.len()
            invariant
                i <= addrs@.len(),
                self.wf(),
                forall|j: int| 0 <= j < addrs@.len() ==> self.holds(#[trigger] addrs@[j]),
                values@.len() == i,
                forall|j: int| 0 <= j < i ==> #[trigger] values@[j] == self@[self.index_of(addrs@[j])],
            decreases addrs@.len() - i,
        {
            assert(self.holds(addrs@[i as int]));
            let value: u8 = self.load(addrs[i]);
            values.push(value);
            i = i + 1;
        }
        values
    }

    /// Sets the byte at `addrs[i]` to `values[i]`, for each `i`, and leaves
    /// every other byte as it is. No address may occur twice.
    pub fn store_all(&mut self, addrs: &Vec<PhysAddr>, values: &Vec<u8>)
        requires
            old(self).wf(),
            addrs@.len() == values@.len(),
            addrs@.no_duplicates(),
            forall|i: int| 0 <= i < addrs@.len() ==> old(self).holds(#[trigger] addrs@[i]),
        ensures
            final(self).wf(),
            final(self).first_frame() == old(self).first_frame(),
            final(self)@.len() == old(self)@.len(),
            forall|i: int|
                0 <= i < addrs@.len() ==> final(self)@[old(self).index_of(#[trigger] addrs@[i])]
                    == values@[i],
            forall|k: int|
                0 <= k < old(self)@.len() && !written(old(self).first_frame(), addrs@, addrs@.len() as int, k)
                    ==> #[trigger] final(self)@[k] == old(self)@[k],
    {
        let mut i: usize = 0;
        while i < addrs.len()
            invariant
                i <= addrs@.len(),
                self.wf(),
                addrs@.len() == values@.len(),
                addrs@.no_duplicates(),
                self.first_frame() == old(self).first_frame(),
                self@.len() == old(self)@.len(),
                forall|j: int| 0 <= j < addrs@.len() ==> self.holds(#[trigger] addrs@[j]),
                forall|j: int|
                    0 <= j < i ==> self@[self.index_of(#[trigger] addrs@[j])] == values@[j],
                forall|k: int|
                    0 <= k < self@.len() && !written(self.first_frame(), addrs@, i as int, k)
                        ==> #[trigger] self@[k] == old(self)@[k],
            decreases addrs@.len() - i,
        {
            let ghost before = self@;
            let ghost slot = self.index_of(addrs@[i as int]);
            assert(self.holds(addrs@[i as int]));
            self.store(addrs[i], values[i]);
            proof {
                assert forall|j: int| 0 <= j < i implies self@[self.index_of(#[trigger] addrs@[j])]
                    == values@[j] by {
                    assert(addrs@[j] != addrs@[i as int]);
                    assert(self.holds(addrs@[j]));
                    assert(before[self.index_of(addrs@[j])] == values@[j]);
                }
                assert forall|k: int|
                    0 <= k < self@.len() && !written(self.first_frame(), addrs@, i + 1, k) implies #[trigger] self@[k]
                    == old(self)@[k] by {
                    assert(k != slot) by {
                        if k == slot {
                            assert(addrs@[i as int].0 - self.first_frame() * PAGE_SIZE == k);
                        }
                    }
                    assert(!written(self.first_frame(), addrs@, i as int, k));
                }
            }
            i = i + 1;
        }
    }
}

/// Whether one of the first `count` addresses of `addrs` is the byte at
/// place `k` of a memory that starts at frame `first_frame`.
pub open spec fn written(first_frame: usize, addrs: Seq<PhysAddr>, count: int, k: int) -> bool {
    exists|i: int| 0 <= i < count && (#[trigger] addrs[i]).0 - first_frame * PAGE_SIZE == k
}

} // verus!
