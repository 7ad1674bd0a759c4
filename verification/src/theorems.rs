//! What follows from the contracts of the syscalls, for every state, every
//! argument and every sequence of calls.

use vstd::prelude::*;
use crate::address::{page_count, VirtAddr};
use crate::address_space::{AddressSpaceView, Region};
use crate::config::{MAX_SYSCALL_NUM, PAGE_SIZE, SYSCALL_GET_TIME};
use crate::kernel::KernelView;
use crate::permission::{decode_port, lemma_decoded_rights, MapPermission};
use crate::syscall::{mmap_step, munmap_step, recorded, status_of, syscall_step, time_val_of};
use crate::task::counted;

verus! {

/// A request to map memory whose permission argument is zero or has a bit
/// above bit 2 fails and changes nothing.
pub proof fn lemma_mmap_rejects_invalid_port(
    pre: KernelView,
    post: KernelView,
    start: usize,
    len: usize,
    port: usize,
    ret: isize,
)
    requires
        mmap_step(pre, post, start, len, port, ret),
        !(1 <= port <= 7),
    ensures
        ret == -1,
        post == pre,
{
}

/// A request to map memory from an address that is not on a page boundary
/// fails and changes nothing.
pub proof fn lemma_mmap_rejects_misaligned_start(
    pre: KernelView,
    post: KernelView,
    start: usize,
    len: usize,
    port: usize,
    ret: isize,
)
    requires
        mmap_step(pre, post, start, len, port, ret),
        start % PAGE_SIZE != 0,
    ensures
        ret == -1,
        post == pre,
{
}

/// A request to unmap memory from an address that is not on a page boundary
/// fails and changes nothing.
pub proof fn lemma_munmap_rejects_misaligned_start(
    pre: KernelView,
    post: KernelView,
    start: usize,
    len: usize,
    ret: isize,
)
    requires
        munmap_step(pre, post, start, len, ret),
        start % PAGE_SIZE != 0,
    ensures
        ret == -1,
        post == pre,
{
}

/// A request to map a range of which a page is already mapped fails and
/// changes nothing: what was mapped stays as it was, and no page of the
/// range is newly mapped.
pub proof fn lemma_mmap_rejects_overlap(
    pre: KernelView,
    post: KernelView,
    start: usize,
    len: usize,
    port: usize,
    ret: isize,
    page: usize,
)
    requires
        pre.inv(),
        pre.running(),
        mmap_step(pre, post, start, len, port, ret),
        start / PAGE_SIZE <= page < start / PAGE_SIZE + page_count(len as int),
        pre.tasks[pre.cur()].space.mappings.contains_key(page),
    ensures
        ret == -1,
        post == pre,
{
    let space = pre.tasks[pre.cur()].space;
    assert(space.consistent());
    let r = choose|r: Region| #[trigger] space.regions.contains(r) && r.contains(page);
    assert(r.overlaps(VirtAddr(start).page() as int, VirtAddr(start).page() + page_count(len as int)));
}

/// A request to unmap a range of which a page is not mapped fails and
/// changes nothing.
pub proof fn lemma_munmap_rejects_unmapped_page(
    pre: KernelView,
    post: KernelView,
    start: usize,
    len: usize,
    ret: isize,
    page: usize,
)
    requires
        munmap_step(pre, post, start, len, ret),
        start / PAGE_SIZE <= page < start / PAGE_SIZE + page_count(len as int),
        !pre.tasks[pre.cur()].space.mappings.contains_key(page),
    ensures
        ret == -1,
        post == pre,
{
}

/// Mapping a range and unmapping it at once succeeds and brings the kernel
/// back to the state before the two calls: every frame that the mapping
/// took is free again, so the same range can be mapped once more.
pub proof fn lemma_mmap_munmap_round_trip(
    before: KernelView,
    between: KernelView,
    after: KernelView,
    start: usize,
    len: usize,
    port: usize,
    ret: isize,
)
    requires
        before.inv(),
        before.running(),
        mmap_step(before, between, start, len, port, 0),
        munmap_step(between, after, start, len, ret),
    ensures
        ret == 0,
        after == before,
        status_of(after.tasks[after.cur()].space.map_outcome(after.free, VirtAddr(start), len, port)) == 0,
{
    let t = before.cur();
    let first = VirtAddr(start).page() as int;
    let end = VirtAddr(start).page() + page_count(len as int);
    let perm = decode_port(port).unwrap();
    let s0 = before.tasks[t].space;
    let s1 = between.tasks[t].space;
    let whole = Region { start: first as usize, end: end as usize, perm };
    assert(s0.consistent());
    assert(between.cur() == t);
    // no page of the range was mapped before
    assert forall|v: usize| first <= v < end implies !s0.mappings.contains_key(v) by {
        if s0.mappings.contains_key(v) {
            let r = choose|r: Region| #[trigger] s0.regions.contains(r) && r.contains(v);
            assert(r.overlaps(first, end));
        }
    }
    // the range is made of one whole region now
    assert(s1.covered_exactly(first, end)) by {
        assert forall|v: usize| first <= v < end implies #[trigger] s1.mappings.contains_key(v) by {
            assert(s1.mappings.dom().contains(v));
        }
        assert forall|r: Region| #[trigger] s1.regions.contains(r) && r.overlaps(first, end) implies r.within(
            first,
            end,
        ) by {
            if r != whole {
                assert(s0.regions.contains(r));
            }
        }
    }
    assert(ret == 0);
    let s2 = after.tasks[t].space;
    assert(s2.regions =~= s0.regions) by {
        assert forall|r: Region| s0.regions.contains(r) implies !r.within(first, end) by {
            assert(r.start < r.end);
            assert(!r.overlaps(first, end));
        }
    }
    assert(s2.mappings =~= s0.mappings) by {
        assert forall|v: usize| s0.mappings.contains_key(v) implies s2.mappings.contains_key(v) && s2.mappings[v]
            == s0.mappings[v] by {
            assert(s1.mappings.dom().contains(v));
            assert(s1.mappings[v] == s0.mappings[v]);
        }
        assert forall|v: usize| s2.mappings.contains_key(v) implies s0.mappings.contains_key(v) by {
            assert(s1.mappings.dom().contains(v));
        }
    }
    assert(after.free =~= before.free) by {
        assert forall|f: usize| s1.frames_in(first, end).contains(f) implies before.free.contains(f) by {
            let v = choose|v: usize| first <= v < end && #[trigger] s1.mappings.contains_key(v) && s1.mappings[v].ppn == f;
            assert(before.free.contains(s1.mappings[v].ppn));
        }
    }
    assert(s2 =~= s0);
    assert(after.tasks =~= before.tasks);
    assert(after =~= before);
}

/// Every page that a successful request maps can be accessed from user
/// mode, and can be read, written and executed as bits 0, 1 and 2 of the
/// permission argument say.
pub proof fn lemma_mmap_grants_what_was_asked(
    pre: KernelView,
    post: KernelView,
    start: usize,
    len: usize,
    port: usize,
    page: usize,
)
    requires
        mmap_step(pre, post, start, len, port, 0),
        start / PAGE_SIZE <= page < start / PAGE_SIZE + page_count(len as int),
    ensures
        post.tasks[pre.cur()].space.mappings.contains_key(page),
        post.tasks[pre.cur()].space.mappings[page].perm.user_accessible(),
        post.tasks[pre.cur()].space.mappings[page].perm.readable() == (port % 2 == 1),
        post.tasks[pre.cur()].space.mappings[page].perm.writable() == ((port / 2) % 2 == 1),
        post.tasks[pre.cur()].space.mappings[page].perm.executable() == ((port / 4) % 2 == 1),
{
    let space = post.tasks[pre.cur()].space;
    assert(space.mappings.dom().contains(page));
    assert(space.mappings[page].perm == decode_port(port).unwrap());
    MapPermission::lemma_of_rights(port % 2 == 1, (port / 2) % 2 == 1, (port / 4) % 2 == 1, true);
}

/// Every mapped page of every task can be accessed from user mode, and can
/// be read, written or executed.
pub proof fn lemma_mapped_pages_are_user_pages(kernel: KernelView, task: int, page: usize)
    requires
        kernel.inv(),
        kernel.has_task(task),
        kernel.tasks[task].space.mappings.contains_key(page),
    ensures
        kernel.tasks[task].space.mappings[page].perm.user_accessible(),
        kernel.tasks[task].space.mappings[page].perm.readable() || kernel.tasks[task].space.mappings[page].perm.writable()
            || kernel.tasks[task].space.mappings[page].perm.executable(),
{
    let space = kernel.tasks[task].space;
    assert(space.consistent());
    let r = choose|r: Region| #[trigger] space.regions.contains(r) && r.contains(page);
    assert(space.mappings[page].perm == r.perm);
    lemma_decoded_rights(r.perm);
}

/// The kernel stores a result only through pages that are mapped and can be
/// read and written from user mode; a page that can also be executed does
/// as well.
pub proof fn lemma_store_needs_read_write_user(space: AddressSpaceView, page: usize)
    ensures
        space.grants(page, MapPermission::user_read_write()) <==> {
            &&& space.mappings.contains_key(page)
            &&& space.mappings[page].perm.readable()
            &&& space.mappings[page].perm.writable()
            &&& space.mappings[page].perm.user_accessible()
        },
{
    let need = MapPermission::user_read_write();
    MapPermission::lemma_of_rights(true, true, false, true);
    space.mappings[page].perm.lemma_covers_rights(need);
}

/// A syscall counts for the task that makes it, once, under its own
/// identifier: that counter goes up by one, and no other counter of any
/// task changes.
pub proof fn lemma_syscall_counted_once(
    pre: KernelView,
    post: KernelView,
    syscall_id: usize,
    args: Seq<usize>,
    now_us: usize,
    ret: isize,
)
    requires
        pre.inv(),
        pre.running(),
        syscall_step(pre, post, syscall_id, args, now_us, ret),
    ensures
        post.tasks.len() == pre.tasks.len(),
        forall|t: int| 0 <= t < pre.tasks.len() && t != pre.cur() ==> (#[trigger] post.tasks[t]).counters
            == pre.tasks[t].counters,
        syscall_id < MAX_SYSCALL_NUM ==> post.tasks[pre.cur()].counters == counted(
            pre.tasks[pre.cur()].counters,
            syscall_id as int,
        ),
        syscall_id >= MAX_SYSCALL_NUM ==> post.tasks[pre.cur()].counters == pre.tasks[pre.cur()].counters,
{
    let mid = recorded(pre, syscall_id);
    assert(mid.cur() == pre.cur());
    assert(mid.tasks.len() == pre.tasks.len());
}

/// Each call of `get_time` raises the counter of `get_time` by exactly one,
/// starting again from zero after the highest value, and leaves the
/// counters of the other syscalls as they are.
pub proof fn lemma_get_time_counted(
    pre: KernelView,
    post: KernelView,
    args: Seq<usize>,
    now_us: usize,
    ret: isize,
    other: int,
)
    requires
        pre.inv(),
        pre.running(),
        syscall_step(pre, post, SYSCALL_GET_TIME, args, now_us, ret),
        0 <= other < MAX_SYSCALL_NUM,
        other != SYSCALL_GET_TIME,
    ensures
        post.tasks[pre.cur()].counters[SYSCALL_GET_TIME as int] == (pre.tasks[pre.cur()].counters[SYSCALL_GET_TIME as int]
            + 1) % 0x1_0000_0000,
        post.tasks[pre.cur()].counters[other] == pre.tasks[pre.cur()].counters[other],
{
    lemma_syscall_counted_once(pre, post, SYSCALL_GET_TIME, args, now_us, ret);
}

/// The counters after the calls `ids`, one after the other.
pub open spec fn counted_all(before: Seq<u32>, ids: Seq<int>) -> Seq<u32>
    decreases ids.len(),
{
    if ids.len() == 0 {
        before
    } else {
        counted(counted_all(before, ids.drop_last()), ids.last())
    }
}

/// How often `id` occurs in `ids`.
pub open spec fn occurrences(ids: Seq<int>, id: int) -> nat
    decreases ids.len(),
{
    if ids.len() == 0 {
        0
    } else {
        occurrences(ids.drop_last(), id) + if ids.last() == id {
            1nat
        } else {
            0nat
        }
    }
}

/// After any sequence of syscalls, of whatever kinds and in whatever order,
/// each counter has gone up by the number of calls of its own syscall, and
/// by nothing for the calls of the others.
pub proof fn lemma_counters_count_calls(before: Seq<u32>, ids: Seq<int>, id: int)
    requires
        before.len() == MAX_SYSCALL_NUM,
        forall|i: int| 0 <= i < ids.len() ==> 0 <= #[trigger] ids[i] < MAX_SYSCALL_NUM,
        0 <= id < MAX_SYSCALL_NUM,
    ensures
        counted_all(before, ids).len() == MAX_SYSCALL_NUM,
        counted_all(before, ids)[id] == (before[id] + occurrences(ids, id)) % 0x1_0000_0000,
    decreases ids.len(),
{
    if ids.len() > 0 {
        lemma_counters_count_calls(before, ids.drop_last(), id);
        let so_far = counted_all(before, ids.drop_last());
        let n = occurrences(ids.drop_last(), id);
        assert(0 <= ids[ids.len() - 1] < MAX_SYSCALL_NUM);
        if ids.last() == id {
            assert(so_far[id] == (before[id] + n) % 0x1_0000_0000);
            assert(((before[id] + n) % 0x1_0000_0000 + 1) % 0x1_0000_0000 == (before[id] + n + 1) % 0x1_0000_0000)
                by (nonlinear_arith);
        }
    }
}

/// A later reading of the clock gives a time that is not earlier.
pub proof fn lemma_time_val_monotonic(earlier_us: usize, later_us: usize)
    requires
        earlier_us <= later_us,
    ensures
        time_val_of(earlier_us).no_later_than(time_val_of(later_us)),
        time_val_of(earlier_us).micros() == earlier_us,
        time_val_of(later_us).micros() == later_us,
{
}

} // verus!
