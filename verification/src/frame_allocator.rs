//! The pool of physical frames that all address spaces draw from.

use vstd::prelude::*;
use vstd::set_lib::*;
use crate::address::total_pages;

verus! {

/// Hands out the frames `first() .. limit()`, each to one owner at a time.
///
/// Frames that were never handed out lie above a watermark; frames that came
/// back are kept on a stack and are handed out again first.
pub struct FrameAllocator {
    base: usize,
    current: usize,
    end: usize,
    recycled: Vec<usize>,
}

impl FrameAllocator {
    /// The lowest frame number that the allocator manages.
    pub closed spec fn first(&self) -> usize {
        self.base
    }

    /// One past the highest frame number that the allocator manages.
    pub closed spec fn limit(&self) -> usize {
        self.end
    }

    /// The frames that are free to be handed out.
    pub closed spec fn free(&self) -> Set<usize> {
        Set::new(|p: usize| self.current <= p < self.end || self.recycled@.contains(p))
    }

    /// The frames that are handed out at the moment.
    pub open spec fn allocated(&self) -> Set<usize> {
        Set::new(|p: usize| self.first() <= p < self.limit() && !self.free().contains(p))
    }

    pub closed spec fn wf(&self) -> bool {
        &&& self.base <= self.current <= self.end <= total_pages()
        &&& self.recycled@.no_duplicates()
        &&& forall|i: int|
            0 <= i < self.recycled@.len() ==> self.base <= #[trigger] self.recycled@[i]
                < self.current
    }

    /// The free frames are finitely many and lie in the managed range.
    pub proof fn lemma_free_bounded(&self)
        requires
            self.wf(),
        ensures
            self.first() <= self.limit() <= total_pages(),
            self.free().finite(),
            self.free().subset_of(Set::range(self.first(), self.limit())),
            self.free().len() <= self.limit() - self.first(),
            forall|p: usize| self.free().contains(p) ==> self.first() <= p < self.limit(),
    {
        let all = Set::range(self.base, self.end);
        range_set_properties::<usize>(self.base, self.end);
        assert(self.free().subset_of(all));
        lemma_set_subset_finite(all, self.free());
        lemma_len_subset(self.free(), all);
    }

    /// The free frames are those above the watermark and those on the stack,
    /// none of them twice.
    proof fn lemma_free_len(&self)
        requires
            self.wf(),
        ensures
            self.free().finite(),
            self.free().len() == (self.end - self.current) + self.recycled@.len(),
            self.recycled@.len() <= self.current - self.base,
    {
        let fresh = Set::range(self.current, self.end);
        let below = Set::range(self.base, self.current);
        let back = self.recycled@.to_set();
        range_set_properties::<usize>(self.current, self.end);
        range_set_properties::<usize>(self.base, self.current);
        self.recycled@.unique_seq_to_set();
        assert(back.finite());
        assert(fresh.disjoint(back)) by {
            assert forall|p: usize| fresh.contains(p) implies !back.contains(p) by {
                if back.contains(p) {
                    let i = choose|i: int| 0 <= i < self.recycled@.len() && self.recycled@[i] == p;
                    assert(self.recycled@[i] < self.current);
                }
            }
        }
        lemma_set_disjoint_lens(fresh, back);
        assert(self.free() =~= fresh + back);
        assert(back.subset_of(below)) by {
            assert forall|p: usize| back.contains(p) implies below.contains(p) by {
                let i = choose|i: int| 0 <= i < self.recycled@.len() && self.recycled@[i] == p;
                assert(self.base <= self.recycled@[i] < self.current);
            }
        }
        lemma_len_subset(back, below);
    }

    /// An allocator for the frames `base .. end`, all of them free. Every
    /// frame must have an address: `end` is at most the number of pages that
    /// a word can address.
    pub fn new(base: usize, end: usize) -> (a: FrameAllocator)
        requires
            base <= end <= total_pages(),
        ensures
            a.wf(),
            a.first() == base,
            a.limit() == end,
            a.free() == Set::range(base, end),
    {
        let a = FrameAllocator { base, current: base, end, recycled: Vec::new() };
        assert(a.free() =~= Set::range(base, end));
        a
    }

    /// Takes a free frame out of the pool, if there is one.
    pub fn allocate(&mut self) -> (frame: Option<usize>)
        requires
            old(self).wf(),
        ensures
            final(self).wf(),
            final(self).first() == old(self).first(),
            final(self).limit() == old(self).limit(),
            match frame {
                Some(p) => old(self).free().contains(p) && final(self).free() == old(self).free().remove(p),
                None => old(self).free() == Set::<usize>::empty() && final(self).free() == old(self).free(),
            },
    {
        match self.recycled.pop() {
            Some(p) => {
                proof {
                    let before = old(self).recycled@;
                    let last = before.len() - 1;
                    assert(before[last] == p);
                    assert(self.recycled@ =~= before.take(last));
                    assert forall|q: usize| self.free().contains(q) <==> old(self).free().remove(p).contains(q) by {
                        if self.recycled@.contains(q) {
                            let i = choose|i: int| 0 <= i < self.recycled@.len() && self.recycled@[i] == q;
                            assert(before[i] == q);
                            assert(before.contains(q));
                            assert(q != p);
                        }
                        if before.contains(q) && q != p {
                            let i = choose|i: int| 0 <= i < before.len() && before[i] == q;
                            assert(self.recycled@[i] == q);
                        }
                    }
                    assert(self.free() =~= old(self).free().remove(p));
                    assert(before.contains(p));
                }
                Some(p)
            },
            None => {
                if self.current < self.end {
                    let p: usize = self.current;
                    self.current = p + 1;
                    proof {
                        assert forall|q: usize| self.free().contains(q) <==> old(self).free().remove(p).contains(q) by {}
                        assert(self.free() =~= old(self).free().remove(p));
                    }
                    Some(p)
                } else {
                    assert(self.free() =~= Set::<usize>::empty());
                    None
                }
            },
        }
    }

    /// Puts a frame that was handed out back into the pool.
    pub fn deallocate(&mut self, frame: usize)
        requires
            old(self).wf(),
            old(self).allocated().contains(frame),
        ensures
            final(self).wf(),
            final(self).first() == old(self).first(),
            final(self).limit() == old(self).limit(),
            final(self).free() == old(self).free().insert(frame),
    {
        self.recycled.push(frame);
        proof {
            let before = old(self).recycled@;
            assert(!before.contains(frame));
            assert(self.recycled@ =~= before.push(frame));
            assert forall|q: usize| self.free().contains(q) <==> old(self).free().insert(frame).contains(q) by {
                if self.recycled@.contains(q) {
                    let i = choose|i: int| 0 <= i < self.recycled@.len() && self.recycled@[i] == q;
                    if i < before.len() {
                        assert(before[i] == q);
                    }
                }
                if before.contains(q) {
                    let i = choose|i: int| 0 <= i < before.len() && before[i] == q;
                    assert(self.recycled@[i] == q);
                }
                if q == frame {
                    assert(self.recycled@[before.len() as int] == q);
                }
            }
            assert(self.free() =~= old(self).free().insert(frame));
        }
    }

    /// Puts back every frame of `frames`, each of which was handed out.
    pub fn deallocate_many(&mut self, frames: &Vec<usize>)
        requires
            old(self).wf(),
            frames@.no_duplicates(),
            forall|j: int| 0 <= j < frames@.len() ==> old(self).allocated().contains(#[trigger] frames@[j]),
        ensures
            final(self).wf(),
            final(self).first() == old(self).first(),
            final(self).limit() == old(self).limit(),
            final(self).free() == old(self).free().union(frames@.to_set()),
    {
        let mut k: usize = 0;
        while k < frames.len()
            invariant
                k <= frames.len(),
                self.wf(),
                self.first() == old(self).first(),
                self.limit() == old(self).limit(),
                frames@.no_duplicates(),
                forall|j: int| 0 <= j < frames@.len() ==> old(self).allocated().contains(#[trigger] frames@[j]),
                self.free() == old(self).free().union(frames@.take(k as int).to_set()),
            decreases frames.len() - k,
        {
            let p: usize = frames[k];
            proof {
                assert(old(self).allocated().contains(frames@[k as int]));
                if frames@.take(k as int).to_set().contains(p) {
                    let i = choose|i: int| 0 <= i < k && frames@.take(k as int)[i] == p;
                    assert(frames@[i] == frames@[k as int]);
                }
            }
            self.deallocate(p);
            proof {
                assert(frames@.take(k + 1) =~= frames@.take(k as int).push(p));
                assert(frames@.take(k + 1).to_set() =~= frames@.take(k as int).to_set().insert(p)) by {
                    let a = frames@.take(k as int);
                    let b = frames@.take(k + 1);
                    assert forall|q: usize| b.to_set().contains(q) <==> a.to_set().insert(p).contains(q) by {
                        if b.to_set().contains(q) {
                            let i = choose|i: int| 0 <= i < b.len() && b[i] == q;
                            if i < k {
                                assert(a[i] == q);
                            }
                        }
                        if a.to_set().contains(q) {
                            let i = choose|i: int| 0 <= i < a.len() && a[i] == q;
                            assert(b[i] == q);
                        }
                        if q == p {
                            assert(b[k as int] == q);
                        }
                    }
                }
            }
            k = k + 1;
        }
        assert(frames@.take(frames@.len() as int) =~= frames@);
    }

    /// Takes `count` free frames out of the pool, or none at all when fewer
    /// than `count` are free.
    pub fn allocate_many(&mut self, count: usize) -> (frames: Option<Vec<usize>>)
        requires
            old(self).wf(),
        ensures
            final(self).wf(),
            final(self).first() == old(self).first(),
            final(self).limit() == old(self).limit(),
            frames is Some <==> count <= old(self).free().len(),
            match frames {
                Some(v) => {
                    &&& v@.len() == count
                    &&& v@.no_duplicates()
                    &&& forall|j: int| 0 <= j < v@.len() ==> old(self).free().contains(#[trigger] v@[j])
                    &&& final(self).free() == old(self).free().difference(v@.to_set())
                },
                None => final(self).free() == old(self).free(),
            },
    {
        let mut taken: Vec<usize> = Vec::new();
        proof {
            old(self).lemma_free_bounded();
            assert(self.free() =~= old(self).free().difference(taken@.to_set()));
        }
        while taken.len() < count
            invariant
                taken.len() <= count,
                self.wf(),
                old(self).wf(),
                self.first() == old(self).first(),
                self.limit() == old(self).limit(),
                old(self).free().finite(),
                taken@.no_duplicates(),
                forall|j: int| 0 <= j < taken@.len() ==> old(self).free().contains(#[trigger] taken@[j]),
                self.free() == old(self).free().difference(taken@.to_set()),
                self.free().len() + taken@.len() == old(self).free().len(),
            decreases count - taken.len(),
        {
            let ghost before = taken@;
            let ghost free_before = self.free();
            proof {
                self.lemma_free_bounded();
            }
            match self.allocate() {
                Some(p) => {
                    taken.push(p);
                    proof {
                        assert(!before.to_set().contains(p));
                        assert(taken@.no_duplicates()) by {
                            assert forall|i: int, j: int| 0 <= i < taken@.len() && 0 <= j < taken@.len() && i != j implies taken@[i] != taken@[j] by {
                                if i < before.len() {
                                    assert(before.to_set().contains(before[i]));
                                }
                                if j < before.len() {
                                    assert(before.to_set().contains(before[j]));
                                }
                            }
                        }
                        assert(taken@.to_set() =~= before.to_set().insert(p)) by {
                            assert forall|q: usize| taken@.to_set().contains(q) <==> before.to_set().insert(p).contains(q) by {
                                if taken@.to_set().contains(q) {
                                    let i = choose|i: int| 0 <= i < taken@.len() && taken@[i] == q;
                                    if i < before.len() {
                                        assert(before[i] == q);
                                    }
                                }
                                if before.to_set().contains(q) {
                                    let i = choose|i: int| 0 <= i < before.len() && before[i] == q;
                                    assert(taken@[i] == q);
                                }
                                if q == p {
                                    assert(taken@[before.len() as int] == q);
                                }
                            }
                        }
                        assert(self.free() =~= old(self).free().difference(taken@.to_set()));
                    }
                },
                None => {
                    proof {
                        assert(self.free().len() == 0);
                        assert forall|j: int| 0 <= j < taken@.len() implies self.allocated().contains(#[trigger] taken@[j]) by {
                            assert(old(self).free().contains(taken@[j]));
                            assert(taken@.to_set().contains(taken@[j]));
                            old(self).lemma_free_bounded();
                        }
                    }
                    self.deallocate_many(&taken);
                    proof {
                        assert(self.free() =~= old(self).free()) by {
                            assert forall|q: usize| taken@.to_set().contains(q) implies old(self).free().contains(q) by {
                                let i = choose|i: int| 0 <= i < taken@.len() && taken@[i] == q;
                                assert(old(self).free().contains(taken@[i]));
                            }
                        }
                    }
                    return None;
                },
            }
        }
        Some(taken)
    }

    /// The number of frames that are free.
    pub fn free_count(&self) -> (n: usize)
        requires
            self.wf(),
        ensures
            n == self.free().len(),
    {
        proof {
            self.lemma_free_len();
        }
        (self.end - self.current) + self.recycled.len()
    }

    /// Whether `frame` is handed out at the moment.
    pub fn is_allocated(&self, frame: usize) -> (b: bool)
        requires
            self.wf(),
        ensures
            b == self.allocated().contains(frame),
    {
        if frame < self.base || frame >= self.current {
            return false;
        }
        let mut i: usize = 0;
        while i < self.recycled.len()
            invariant
                i <= self.recycled.len(),
                forall|j: int| 0 <= j < i ==> self.recycled@[j] != frame,
            decreases self.recycled.len() - i,
        {
            if self.recycled[i] == frame {
                assert(self.recycled@.contains(frame));
                return false;
            }
            i = i + 1;
        }
        assert(!self.recycled@.contains(frame));
        true
    }
}

} // verus!
