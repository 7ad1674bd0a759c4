//! The kernel's state: the table of tasks, the pool of frames that their
//! address spaces share, and the physical memory behind the frames.

use vstd::prelude::*;
use crate::address::{page_count, page_limit, total_pages, PhysAddr, VirtAddr};
use crate::address_space::{mapped, unmapped, AddressSpace, AddressSpaceView};
use crate::config::{MAX_SYSCALL_NUM, PAGE_SIZE};
use crate::error::MemError;
use crate::frame_allocator::FrameAllocator;
use crate::permission::{decode_port, MapPermission};
use crate::phys_memory::{written, PhysMemory};
use crate::task::{counted, elapsed, TaskInfo, TaskRecord, TaskStatus};

verus! {

/// What the kernel shows of one task.
#[verifier::ext_equal]
pub struct TaskView {
    pub status: TaskStatus,
    pub counters: Seq<u32>,
    pub first_scheduled: Option<usize>,
    pub space: AddressSpaceView,
}

/// What the kernel shows of itself: its tasks by their identifiers, the task
/// that has the processor, the free frames, and the bytes of physical memory
/// from frame `first_frame` on.
#[verifier::ext_equal]
pub struct KernelView {
    pub tasks: Seq<TaskView>,
    pub current: Option<usize>,
    pub free: Set<usize>,
    pub first_frame: usize,
    pub memory: Seq<u8>,
}

impl TaskView {
    /// A task that is ready to run for the first time, with nothing mapped.
    pub open spec fn fresh() -> TaskView {
        TaskView {
            status: TaskStatus::Ready,
            counters: Seq::new(MAX_SYSCALL_NUM as nat, |i: int| 0u32),
            first_scheduled: None,
            space: AddressSpaceView { mappings: Map::empty(), regions: Set::empty() },
        }
    }

    /// The task with another status.
    pub open spec fn with_status(self, status: TaskStatus) -> TaskView {
        TaskView { status, counters: self.counters, first_scheduled: self.first_scheduled, space: self.space }
    }

    /// The task with another address space.
    pub open spec fn with_space(self, space: AddressSpaceView) -> TaskView {
        TaskView { status: self.status, counters: self.counters, first_scheduled: self.first_scheduled, space }
    }

    /// The task with other counters.
    pub open spec fn with_counters(self, counters: Seq<u32>) -> TaskView {
        TaskView { status: self.status, counters, first_scheduled: self.first_scheduled, space: self.space }
    }

    /// The task once it was given the processor when the clock read `now`.
    pub open spec fn started(self, now: usize) -> TaskView {
        TaskView {
            status: TaskStatus::Running,
            counters: self.counters,
            first_scheduled: match self.first_scheduled {
                Some(t) => Some(t),
                None => Some(now),
            },
            space: self.space,
        }
    }
}

impl KernelView {
    /// The number of frames of physical memory.
    pub open spec fn frame_count(self) -> int {
        (self.memory.len() as int) / (PAGE_SIZE as int)
    }

    /// Whether `id` names a task.
    pub open spec fn has_task(self, id: int) -> bool {
        0 <= id < self.tasks.len()
    }

    /// Whether a task has the processor.
    pub open spec fn running(self) -> bool {
        &&& self.current is Some
        &&& self.has_task(self.cur())
        &&& self.tasks[self.cur()].status == TaskStatus::Running
    }

    /// The identifier of the current task.
    pub open spec fn cur(self) -> int {
        self.current.unwrap() as int
    }

    /// Whether frame `f` is a frame of physical memory.
    pub open spec fn holds_frame(self, f: usize) -> bool {
        self.first_frame <= f < self.first_frame + self.frame_count()
    }

    /// Whether frame `f` backs a page of task `t`.
    pub open spec fn owns(self, t: int, f: usize) -> bool {
        self.tasks[t].space.frames().contains(f)
    }

    /// The place in `memory` of the byte behind `va` in the address space of
    /// task `t`.
    pub open spec fn index_of(self, t: int, va: VirtAddr) -> int {
        self.tasks[t].space.translate(va).unwrap().0 - self.first_frame * PAGE_SIZE
    }

    /// Whether the kernel can store `len` bytes at `va` in the address space
    /// that `token` names.
    pub open spec fn can_store(self, token: usize, va: VirtAddr, len: usize) -> bool {
        self.has_task(token as int) && self.tasks[token as int].space.accessible(
            va,
            len,
            MapPermission::user_read_write(),
        )
    }

    /// Whether the kernel can load `len` bytes from `va` in the address space
    /// that `token` names.
    pub open spec fn can_load(self, token: usize, va: VirtAddr, len: usize) -> bool {
        self.has_task(token as int) && self.tasks[token as int].space.accessible(
            va,
            len,
            MapPermission::user_read(),
        )
    }

    /// Whether task `id` can be given the processor: it is ready, and no
    /// task is running.
    pub open spec fn can_run(self, id: usize) -> bool {
        &&& self.has_task(id as int)
        &&& self.tasks[id as int].status == TaskStatus::Ready
        &&& !self.running()
    }

    /// What holds of the kernel at all times: only the current task runs;
    /// each address space is consistent; every frame is either free or
    /// backs pages of one task; and all of them are frames of memory.
    pub open spec fn inv(self) -> bool {
        &&& self.current is Some ==> self.has_task(self.cur())
        &&& forall|t: int|
            self.has_task(t) && (#[trigger] self.tasks[t]).status == TaskStatus::Running
                ==> self.current == Some(t as usize)
        &&& forall|t: int| self.has_task(t) ==> (#[trigger] self.tasks[t]).space.consistent()
        &&& forall|t: int| self.has_task(t) ==> (#[trigger] self.tasks[t]).counters.len() == MAX_SYSCALL_NUM
        &&& self.free.finite()
        &&& self.memory.len() == self.frame_count() * PAGE_SIZE
        &&& self.first_frame + self.frame_count() <= total_pages()
        &&& forall|f: usize| #[trigger] self.free.contains(f) ==> self.holds_frame(f)
        &&& forall|t: int, f: usize|
            self.has_task(t) && #[trigger] self.owns(t, f) ==> self.holds_frame(f) && !self.free.contains(f)
        &&& forall|t: int, u: int, f: usize|
            self.has_task(t) && self.has_task(u) && t != u && #[trigger] self.owns(t, f) ==> !#[trigger] self.owns(u, f)
    }
}

/// Whether `post` is `pre` but for the task `t`, which is `task` now.
pub open spec fn task_replaced(pre: KernelView, post: KernelView, t: int, task: TaskView) -> bool {
    &&& post.tasks == pre.tasks.update(t, task)
    &&& post.current == pre.current
    &&& post.free == pre.free
    &&& post.first_frame == pre.first_frame
    &&& post.memory == pre.memory
}

/// Whether `post` is `pre` but for the address space of task `t` and the
/// free frames.
pub open spec fn space_replaced(pre: KernelView, post: KernelView, t: int) -> bool {
    &&& post.tasks == pre.tasks.update(t, pre.tasks[t].with_space(post.tasks[t].space))
    &&& post.current == pre.current
    &&& post.first_frame == pre.first_frame
    &&& post.memory == pre.memory
}

/// What a request of the current task to map memory does: it ends as the
/// task's address space decides; a failed request changes nothing; a
/// successful one maps the pages in that address space and takes their frames
/// out of the pool.
pub open spec fn map_step(
    pre: KernelView,
    post: KernelView,
    start: VirtAddr,
    len: usize,
    port: usize,
    res: Result<(), MemError>,
) -> bool {
    &&& res == pre.tasks[pre.cur()].space.map_outcome(pre.free, start, len, port)
    &&& res is Err ==> post == pre
    &&& res is Ok ==> space_replaced(pre, post, pre.cur()) && mapped(
        pre.tasks[pre.cur()].space,
        pre.free,
        post.tasks[pre.cur()].space,
        post.free,
        start.page() as int,
        start.page() + page_count(len as int),
        decode_port(port).unwrap(),
    )
}

/// What a request of the current task to unmap memory does: it ends as the
/// task's address space decides; a failed request changes nothing; a
/// successful one unmaps the pages and puts their frames back into the pool.
pub open spec fn unmap_step(
    pre: KernelView,
    post: KernelView,
    start: VirtAddr,
    len: usize,
    res: Result<(), MemError>,
) -> bool {
    &&& res == pre.tasks[pre.cur()].space.unmap_outcome(start, len)
    &&& res is Err ==> post == pre
    &&& res is Ok ==> space_replaced(pre, post, pre.cur()) && unmapped(
        pre.tasks[pre.cur()].space,
        pre.free,
        post.tasks[pre.cur()].space,
        post.free,
        start.page() as int,
        start.page() + page_count(len as int),
    )
}

/// What the end of the current task does: the task is exited, nothing is
/// mapped in its address space any more, and its frames are back in the pool.
pub open spec fn exit_step(pre: KernelView, post: KernelView) -> bool {
    &&& post.tasks == pre.tasks.update(
        pre.cur(),
        pre.tasks[pre.cur()].with_status(TaskStatus::Exited).with_space(
            AddressSpaceView { mappings: Map::empty(), regions: Set::empty() },
        ),
    )
    &&& post.current == pre.current
    &&& post.free == pre.free.union(pre.tasks[pre.cur()].space.frames())
    &&& post.first_frame == pre.first_frame
    &&& post.memory == pre.memory
}

/// What storing `data` at `va` in the address space of task `t` does: byte
/// `i` of `data` is the byte behind `va + i`, and no other byte of memory
/// changes; nor does anything else.
pub open spec fn store_step(pre: KernelView, post: KernelView, t: int, va: VirtAddr, data: Seq<u8>) -> bool {
    &&& post.tasks == pre.tasks
    &&& post.current == pre.current
    &&& post.free == pre.free
    &&& post.first_frame == pre.first_frame
    &&& post.memory.len() == pre.memory.len()
    &&& forall|i: int|
        0 <= i < data.len() ==> post.memory[#[trigger] pre.index_of(t, va.offset_by(i))] == data[i]
    &&& forall|k: int|
        0 <= k < pre.memory.len() && !stored_at(pre, t, va, data.len() as int, k) ==> #[trigger] post.memory[k]
            == pre.memory[k]
}

/// Whether one of the `len` bytes from `va` in the address space of task `t`
/// lies at place `k` of memory.
pub open spec fn stored_at(pre: KernelView, t: int, va: VirtAddr, len: int, k: int) -> bool {
    exists|i: int| 0 <= i < len && #[trigger] pre.index_of(t, va.offset_by(i)) == k
}

/// A task: its record and its address space.
pub struct Task {
    record: TaskRecord,
    space: AddressSpace,
}

impl View for Task {
    type V = TaskView;

    closed spec fn view(&self) -> TaskView {
        TaskView {
            status: self.record.status(),
            counters: self.record.counters(),
            first_scheduled: self.record.first_scheduled(),
            space: self.space@,
        }
    }
}

/// The kernel.
pub struct Kernel {
    tasks: Vec<Task>,
    current: Option<usize>,
    allocator: FrameAllocator,
    memory: PhysMemory,
}

impl View for Kernel {
    type V = KernelView;

    closed spec fn view(&self) -> KernelView {
        KernelView {
            tasks: Seq::new(self.tasks@.len(), |t: int| self.tasks@[t]@),
            current: self.current,
            free: self.allocator.free(),
            first_frame: self.memory.first_frame(),
            memory: self.memory@,
        }
    }
}

impl Kernel {
    pub closed spec fn wf(&self) -> bool {
        &&& self.allocator.wf()
        &&& self.memory.wf()
        &&& self.allocator.first() == self.memory.first_frame()
        &&& self.allocator.limit() == self.memory.first_frame() + self.memory.frame_count()
        &&& self.current is Some ==> self.current.unwrap() < self.tasks@.len()
        &&& forall|t: int| 0 <= t < self.tasks@.len() ==> (#[trigger] self.tasks@[t]).space.wf()
        &&& forall|t: int| 0 <= t < self.tasks@.len() ==> (#[trigger] self.tasks@[t]).space.owned_by(&self.allocator)
        &&& forall|t: int, u: int, f: usize|
            0 <= t < self.tasks@.len() && 0 <= u < self.tasks@.len() && t != u && #[trigger] self.task_owns(t, f)
                ==> !#[trigger] self.task_owns(u, f)
        &&& forall|t: int|
            0 <= t < self.tasks@.len() && (#[trigger] self.tasks@[t]).record.status() == TaskStatus::Running
                ==> self.current == Some(t as usize)
    }

    spec fn task_owns(&self, t: int, f: usize) -> bool {
        self.tasks@[t].space@.frames().contains(f)
    }

    /// A well-formed kernel shows a state in which the invariant holds.
    pub proof fn lemma_inv(&self)
        requires
            self.wf(),
        ensures
            self@.inv(),
    {
        let view = self@;
        self.allocator.lemma_free_bounded();
        self.memory.lemma_bounded();
        assert forall|t: int| view.has_task(t) implies (#[trigger] view.tasks[t]).space.consistent() && view.tasks[t].counters.len()
            == MAX_SYSCALL_NUM by {
            assert(self.tasks@[t].space.wf());
            self.tasks@[t].space.lemma_consistent();
            self.tasks@[t].record.lemma_counters_len();
        }
        assert forall|t: int, f: usize| view.has_task(t) && #[trigger] view.owns(t, f) implies view.holds_frame(f)
            && !view.free.contains(f) by {
            assert(self.tasks@[t].space.owned_by(&self.allocator));
            assert(self.allocator.allocated().contains(f));
        }
        assert forall|t: int, u: int, f: usize|
            view.has_task(t) && view.has_task(u) && t != u && #[trigger] view.owns(t, f) implies !#[trigger] view.owns(
            u,
            f,
        ) by {
            assert(self.task_owns(t, f));
            assert(!self.task_owns(u, f));
        }
        assert forall|t: int|
            view.has_task(t) && (#[trigger] view.tasks[t]).status == TaskStatus::Running implies view.current
            == Some(t as usize) by {
            assert(self.tasks@[t].record.status() == TaskStatus::Running);
        }
    }

    /// A kernel with no task, over the `frames` frames of memory from frame
    /// `first_frame` on, all of them free and every byte zero. There is none
    /// when a frame would have no address or the memory no size.
    pub fn new(first_frame: usize, frames: usize) -> (made: Option<Kernel>)
        ensures
            made is Some <==> first_frame + frames <= total_pages() && frames * PAGE_SIZE <= usize::MAX,
            match made {
                Some(kernel) => {
                    &&& kernel.wf()
                    &&& kernel@.tasks == Seq::<TaskView>::empty()
                    &&& kernel@.current is None
                    &&& kernel@.free == Set::range(first_frame, (first_frame + frames) as usize)
                    &&& kernel@.first_frame == first_frame
                    &&& kernel@.memory == Seq::new((frames * PAGE_SIZE) as nat, |i: int| 0u8)
                },
                None => true,
            },
    {
        let limit: usize = page_limit();
        if first_frame > limit || frames > limit - first_frame || frames > usize::MAX / PAGE_SIZE {
            return None;
        }
        let kernel = Kernel {
            tasks: Vec::new(),
            current: None,
            allocator: FrameAllocator::new(first_frame, first_frame + frames),
            memory: PhysMemory::new(first_frame, frames),
        };
        assert(kernel@.tasks =~= Seq::<TaskView>::empty());
        Some(kernel)
    }
}

impl Kernel {
    /// The number of tasks.
    pub fn task_count(&self) -> (n: usize)
        ensures
            n == self@.tasks.len(),
    {
        self.tasks.len()
    }

    /// The identifier of the task that has or last had the processor.
    pub fn current_task(&self) -> (id: Option<usize>)
        ensures
            id == self@.current,
    {
        self.current
    }

    /// Whether a task has the processor.
    pub fn is_running(&self) -> (b: bool)
        requires
            self.wf(),
        ensures
            b == self@.running(),
    {
        match self.current {
            Some(id) => match self.tasks[id].record.get_status() {
                TaskStatus::Running => true,
                _ => false,
            },
            None => false,
        }
    }

    /// The token that names the address space of the current task.
    pub fn current_user_token(&self) -> (token: usize)
        requires
            self.wf(),
            self@.running(),
        ensures
            token == self@.cur(),
    {
        self.current.unwrap()
    }

    /// Where task `id` is in its life, if there is such a task.
    pub fn task_status(&self, id: usize) -> (status: Option<TaskStatus>)
        ensures
            status == (if self@.has_task(id as int) {
                Some(self@.tasks[id as int].status)
            } else {
                None
            }),
    {
        if id < self.tasks.len() {
            Some(self.tasks[id].record.get_status())
        } else {
            None
        }
    }

    /// How often task `id` made syscall `syscall_id`, if there are such a
    /// task and such a syscall.
    pub fn syscall_count(&self, id: usize, syscall_id: usize) -> (count: Option<u32>)
        requires
            self.wf(),
        ensures
            count == (if self@.has_task(id as int) && syscall_id < MAX_SYSCALL_NUM {
                Some(self@.tasks[id as int].counters[syscall_id as int])
            } else {
                None
            }),
    {
        if id < self.tasks.len() && syscall_id < MAX_SYSCALL_NUM {
            Some(self.tasks[id].record.syscall_count(syscall_id))
        } else {
            None
        }
    }

    /// The number of free frames.
    pub fn free_frames(&self) -> (n: usize)
        requires
            self.wf(),
        ensures
            n == self@.free.len(),
    {
        self.allocator.free_count()
    }

    /// The physical address behind `va` in the address space that `token`
    /// names and the access that its page grants, if `token` names a task
    /// and the page is mapped.
    pub fn translate(&self, token: usize, va: VirtAddr) -> (found: Option<(PhysAddr, MapPermission)>)
        requires
            self.wf(),
        ensures
            match found {
                Some((pa, perm)) => {
                    &&& self@.has_task(token as int)
                    &&& self@.tasks[token as int].space.translate(va) == Some(pa)
                    &&& perm == self@.tasks[token as int].space.mappings[va.page()].perm
                },
                None => !self@.has_task(token as int) || self@.tasks[token as int].space.translate(va) is None,
            },
    {
        if token < self.tasks.len() {
            self.tasks[token].space.translate(va)
        } else {
            None
        }
    }

    /// Adds a task that is ready to run, with nothing mapped, and returns
    /// its identifier.
    pub fn spawn(&mut self) -> (id: usize)
        requires
            old(self).wf(),
        ensures
            final(self).wf(),
            id == old(self)@.tasks.len(),
            final(self)@.tasks == old(self)@.tasks.push(TaskView::fresh()),
            final(self)@.current == old(self)@.current,
            final(self)@.free == old(self)@.free,
            final(self)@.first_frame == old(self)@.first_frame,
            final(self)@.memory == old(self)@.memory,
    {
        let id: usize = self.tasks.len();
        let task = Task { record: TaskRecord::new(), space: AddressSpace::new() };
        proof {
            assert(task@ =~= TaskView::fresh());
            assert(task.space@.frames() =~= Set::<usize>::empty());
        }
        self.tasks.push(task);
        proof {
            let before = old(self).tasks@;
            assert forall|t: int| 0 <= t < before.len() implies self.tasks@[t] == before[t] by {}
            assert(self@.tasks =~= old(self)@.tasks.push(TaskView::fresh()));
            assert forall|t: int, u: int, f: usize|
                0 <= t < self.tasks@.len() && 0 <= u < self.tasks@.len() && t != u && #[trigger] self.task_owns(t, f)
                implies !#[trigger] self.task_owns(u, f) by {
                if t < before.len() && u < before.len() {
                    assert(old(self).task_owns(t, f));
                    assert(!old(self).task_owns(u, f));
                }
            }
            assert forall|t: int| 0 <= t < self.tasks@.len() implies (#[trigger] self.tasks@[t]).space.owned_by(
                &self.allocator,
            ) by {
                if t < before.len() {
                    assert(before[t].space.owned_by(&old(self).allocator));
                }
            }
        }
        id
    }

    /// Gives task `id` the processor when the clock reads `now`, if the task
    /// is ready and no task is running.
    pub fn switch_to(&mut self, id: usize, now: usize) -> (done: bool)
        requires
            old(self).wf(),
        ensures
            final(self).wf(),
            done == old(self)@.can_run(id),
            done ==> {
                &&& final(self)@.tasks == old(self)@.tasks.update(
                    id as int,
                    old(self)@.tasks[id as int].started(now),
                )
                &&& final(self)@.current == Some(id)
                &&& final(self)@.free == old(self)@.free
                &&& final(self)@.first_frame == old(self)@.first_frame
                &&& final(self)@.memory == old(self)@.memory
            },
            !done ==> final(self)@ == old(self)@,
    {
        if id >= self.tasks.len() || self.is_running() {
            return false;
        }
        match self.tasks[id].record.get_status() {
            TaskStatus::Ready => {},
            _ => {
                return false;
            },
        }
        self.tasks[id].record.mark_running(now);
        self.current = Some(id);
        proof {
            self.lemma_record_changed(old(self), id as int);
            assert(self@.tasks =~= old(self)@.tasks.update(id as int, old(self)@.tasks[id as int].started(now)));
            assert forall|t: int|
                0 <= t < self.tasks@.len() && (#[trigger] self.tasks@[t]).record.status()
                    == TaskStatus::Running implies self.current == Some(t as usize) by {
                if t != id {
                    assert(old(self).tasks@[t].record.status() == TaskStatus::Running);
                }
            }
        }
        true
    }

    /// When only the record of task `id` differs from what it was in
    /// `before`, the kernel is as well formed as it was, but for what it
    /// says of running tasks.
    proof fn lemma_record_changed(&self, before: &Kernel, id: int)
        requires
            before.wf(),
            0 <= id < before.tasks@.len(),
            self.tasks@.len() == before.tasks@.len(),
            forall|t: int| 0 <= t < self.tasks@.len() && t != id ==> self.tasks@[t] == before.tasks@[t],
            self.tasks@[id].space == before.tasks@[id].space,
            self.allocator == before.allocator,
            self.memory == before.memory,
        ensures
            self.allocator.wf(),
            self.memory.wf(),
            self.allocator.first() == self.memory.first_frame(),
            self.allocator.limit() == self.memory.first_frame() + self.memory.frame_count(),
            forall|t: int| 0 <= t < self.tasks@.len() ==> (#[trigger] self.tasks@[t]).space.wf(),
            forall|t: int|
                0 <= t < self.tasks@.len() ==> (#[trigger] self.tasks@[t]).space.owned_by(&self.allocator),
            forall|t: int, u: int, f: usize|
                0 <= t < self.tasks@.len() && 0 <= u < self.tasks@.len() && t != u && #[trigger] self.task_owns(t, f)
                    ==> !#[trigger] self.task_owns(u, f),
            forall|t: int|
                0 <= t < self.tasks@.len() && t != id ==> (#[trigger] self@.tasks[t]) == before@.tasks[t],
            self@.tasks[id].space == before@.tasks[id].space,
            self@.tasks.len() == before@.tasks.len(),
            self@.free == before@.free,
            self@.first_frame == before@.first_frame,
            self@.memory == before@.memory,
    {
        assert forall|t: int| 0 <= t < self.tasks@.len() implies (#[trigger] self.tasks@[t]).space.wf()
            && self.tasks@[t].space.owned_by(&self.allocator) by {
            assert(before.tasks@[t].space.wf());
            assert(before.tasks@[t].space.owned_by(&before.allocator));
        }
        assert forall|t: int, u: int, f: usize|
            0 <= t < self.tasks@.len() && 0 <= u < self.tasks@.len() && t != u && #[trigger] self.task_owns(t, f)
            implies !#[trigger] self.task_owns(u, f) by {
            assert(before.task_owns(t, f));
            assert(!before.task_owns(u, f));
        }
    }

    /// Counts one more call of syscall `syscall_id` for the current task.
    pub fn record_syscall(&mut self, syscall_id: usize)
        requires
            old(self).wf(),
            old(self)@.running(),
            syscall_id < MAX_SYSCALL_NUM,
        ensures
            final(self).wf(),
            task_replaced(
                old(self)@,
                final(self)@,
                old(self)@.cur(),
                old(self)@.tasks[old(self)@.cur()].with_counters(
                    counted(old(self)@.tasks[old(self)@.cur()].counters, syscall_id as int),
                ),
            ),
    {
        let id: usize = self.current_user_token();
        self.tasks[id].record.record_syscall(syscall_id);
        proof {
            self.lemma_record_changed(old(self), id as int);
            assert(self@.tasks =~= old(self)@.tasks.update(
                id as int,
                old(self)@.tasks[id as int].with_counters(counted(old(self)@.tasks[id as int].counters, syscall_id as int)),
            ));
        }
    }

    /// What the current task reads of itself when the clock reads `now`.
    pub fn snapshot(&self, now: usize) -> (info: TaskInfo)
        requires
            self.wf(),
            self@.running(),
        ensures
            info.status == self@.tasks[self@.cur()].status,
            info.syscall_times@ == self@.tasks[self@.cur()].counters,
            info.time == elapsed(self@.tasks[self@.cur()].first_scheduled, now),
    {
        let id: usize = self.current_user_token();
        self.tasks[id].record.snapshot(now)
    }

    /// Takes the processor from the current task, which stays ready to run.
    pub fn suspend_current(&mut self)
        requires
            old(self).wf(),
            old(self)@.running(),
        ensures
            final(self).wf(),
            task_replaced(
                old(self)@,
                final(self)@,
                old(self)@.cur(),
                old(self)@.tasks[old(self)@.cur()].with_status(TaskStatus::Ready),
            ),
    {
        let id: usize = self.current_user_token();
        self.tasks[id].record.mark_ready();
        proof {
            self.lemma_record_changed(old(self), id as int);
            assert(self@.tasks =~= old(self)@.tasks.update(
                id as int,
                old(self)@.tasks[id as int].with_status(TaskStatus::Ready),
            ));
            assert forall|t: int|
                0 <= t < self.tasks@.len() && (#[trigger] self.tasks@[t]).record.status()
                    == TaskStatus::Running implies self.current == Some(t as usize) by {
                if t != id {
                    assert(old(self).tasks@[t].record.status() == TaskStatus::Running);
                }
            }
        }
    }
}

impl Kernel {
    /// When only the address space of task `id` and the pool differ from
    /// what they were in `before`, and frames moved only between that task
    /// and the pool, the kernel is as well formed as it was.
    proof fn lemma_space_changed(&self, before: &Kernel, id: int)
        requires
            before.wf(),
            0 <= id < before.tasks@.len(),
            self.tasks@.len() == before.tasks@.len(),
            forall|t: int| 0 <= t < self.tasks@.len() && t != id ==> self.tasks@[t] == before.tasks@[t],
            self.tasks@[id].record == before.tasks@[id].record,
            self.current == before.current,
            self.memory == before.memory,
            self.allocator.wf(),
            self.allocator.first() == before.allocator.first(),
            self.allocator.limit() == before.allocator.limit(),
            self.tasks@[id].space.wf(),
            self.tasks@[id].space.owned_by(&self.allocator),
            forall|f: usize|
                self.allocator.free().contains(f) && !before.allocator.free().contains(f)
                    ==> #[trigger] before.task_owns(id, f),
            forall|f: usize|
                #[trigger] self.task_owns(id, f) && !before.task_owns(id, f) ==> before.allocator.free().contains(f),
        ensures
            self.wf(),
            self@.tasks == before@.tasks.update(id, before@.tasks[id].with_space(self@.tasks[id].space)),
            self@.tasks[id].space == self.tasks@[id].space@,
            before@.tasks[id].space == before.tasks@[id].space@,
            self@.current == before@.current,
            self@.free == self.allocator.free(),
            before@.free == before.allocator.free(),
            self@.first_frame == before@.first_frame,
            self@.memory == before@.memory,
    {
        assert forall|t: int| 0 <= t < self.tasks@.len() implies (#[trigger] self.tasks@[t]).space.wf() by {
            if t != id {
                assert(before.tasks@[t].space.wf());
            }
        }
        assert forall|t: int| 0 <= t < self.tasks@.len() implies (#[trigger] self.tasks@[t]).space.owned_by(
            &self.allocator,
        ) by {
            if t != id {
                assert(before.tasks@[t].space.owned_by(&before.allocator));
                assert forall|f: usize| self.tasks@[t].space@.frames().contains(f) implies self.allocator.allocated().contains(f) by {
                    assert(before.allocator.allocated().contains(f));
                    assert(before.task_owns(t, f));
                    if self.allocator.free().contains(f) {
                        assert(before.task_owns(id, f));
                        assert(!before.task_owns(t, f));
                    }
                }
            }
        }
        assert forall|t: int, u: int, f: usize|
            0 <= t < self.tasks@.len() && 0 <= u < self.tasks@.len() && t != u && #[trigger] self.task_owns(t, f)
            implies !#[trigger] self.task_owns(u, f) by {
            if self.task_owns(u, f) {
                if t != id && u != id {
                    assert(before.task_owns(t, f));
                    assert(before.task_owns(u, f));
                } else if t == id {
                    assert(before.task_owns(u, f));
                    assert(before.tasks@[u].space.owned_by(&before.allocator));
                    assert(before.allocator.allocated().contains(f));
                    if before.task_owns(id, f) {
                        assert(!before.task_owns(u, f));
                    }
                } else {
                    assert(before.task_owns(t, f));
                    assert(before.tasks@[t].space.owned_by(&before.allocator));
                    assert(before.allocator.allocated().contains(f));
                    if before.task_owns(id, f) {
                        assert(!before.task_owns(t, f));
                    }
                }
            }
        }
        assert forall|t: int|
            0 <= t < self.tasks@.len() && (#[trigger] self.tasks@[t]).record.status()
                == TaskStatus::Running implies self.current == Some(t as usize) by {
            assert(before.tasks@[t].record.status() == TaskStatus::Running);
        }
        assert(self@.tasks =~= before@.tasks.update(id, before@.tasks[id].with_space(self@.tasks[id].space)));
    }

    /// Maps memory in the address space of the current task.
    pub fn map_current(&mut self, start: VirtAddr, len: usize, port: usize) -> (res: Result<(), MemError>)
        requires
            old(self).wf(),
            old(self)@.running(),
        ensures
            final(self).wf(),
            map_step(old(self)@, final(self)@, start, len, port, res),
    {
        let id: usize = self.current_user_token();
        let res = self.tasks[id].space.map(&mut self.allocator, start, len, port);
        proof {
            let pre = old(self).tasks@[id as int].space@;
            let post = self.tasks@[id as int].space@;
            let pre_free = old(self).allocator.free();
            if res is Ok {
                assert forall|f: usize| #[trigger] self.task_owns(id as int, f) && !old(self).task_owns(id as int, f) implies pre_free.contains(f) by {
                    let v = choose|v: usize| #[trigger] post.mappings.contains_key(v) && post.mappings[v].ppn == f;
                    if pre.mappings.contains_key(v) {
                        assert(post.mappings[v] == pre.mappings[v]);
                        assert(pre.frames().contains(f));
                    } else {
                        assert(post.mappings.dom().contains(v));
                        assert(pre_free.contains(post.mappings[v].ppn));
                    }
                }
            }
            self.lemma_space_changed(old(self), id as int);
            if res is Err {
                assert(post == pre);
                assert(old(self)@.tasks[id as int].with_space(post) =~= old(self)@.tasks[id as int]);
                assert(self@.tasks =~= old(self)@.tasks);
                assert(self@ =~= old(self)@);
            }
        }
        res
    }

    /// Unmaps memory in the address space of the current task.
    pub fn unmap_current(&mut self, start: VirtAddr, len: usize) -> (res: Result<(), MemError>)
        requires
            old(self).wf(),
            old(self)@.running(),
        ensures
            final(self).wf(),
            unmap_step(old(self)@, final(self)@, start, len, res),
    {
        let id: usize = self.current_user_token();
        let res = self.tasks[id].space.unmap(&mut self.allocator, start, len);
        proof {
            let pre = old(self).tasks@[id as int].space@;
            let post = self.tasks@[id as int].space@;
            let pre_free = old(self).allocator.free();
            if res is Ok {
                let first = start.page() as int;
                let end = start.page() + page_count(len as int);
                assert forall|f: usize|
                    self.allocator.free().contains(f) && !pre_free.contains(f) implies #[trigger] old(self).task_owns(id as int, f) by {
                    assert(pre.frames_in(first, end).contains(f));
                    let v = choose|v: usize| first <= v < end && #[trigger] pre.mappings.contains_key(v) && pre.mappings[v].ppn == f;
                    assert(pre.frames().contains(f));
                }
                assert forall|f: usize| #[trigger] self.task_owns(id as int, f) && !old(self).task_owns(id as int, f) implies pre_free.contains(f) by {
                    let v = choose|v: usize| #[trigger] post.mappings.contains_key(v) && post.mappings[v].ppn == f;
                    assert(pre.mappings.contains_key(v));
                    assert(pre.frames().contains(f));
                }
            }
            self.lemma_space_changed(old(self), id as int);
            if res is Err {
                assert(post == pre);
                assert(old(self)@.tasks[id as int].with_space(post) =~= old(self)@.tasks[id as int]);
                assert(self@.tasks =~= old(self)@.tasks);
                assert(self@ =~= old(self)@);
            }
        }
        res
    }

    /// Ends the current task and releases its address space.
    pub fn exit_current(&mut self)
        requires
            old(self).wf(),
            old(self)@.running(),
        ensures
            final(self).wf(),
            exit_step(old(self)@, final(self)@),
    {
        let id: usize = self.current_user_token();
        self.tasks[id].space.clear(&mut self.allocator);
        let ghost mid = *self;
        proof {
            let post = self.tasks@[id as int].space@;
            assert(post.frames() =~= Set::<usize>::empty());
            self.lemma_space_changed(old(self), id as int);
        }
        self.tasks[id].record.mark_exited();
        proof {
            self.lemma_record_changed(&mid, id as int);
            assert forall|t: int|
                0 <= t < self.tasks@.len() && (#[trigger] self.tasks@[t]).record.status()
                    == TaskStatus::Running implies self.current == Some(t as usize) by {
                if t != id {
                    assert(mid.tasks@[t].record.status() == TaskStatus::Running);
                }
            }
            assert(self@.tasks =~= old(self)@.tasks.update(
                id as int,
                old(self)@.tasks[id as int].with_status(TaskStatus::Exited).with_space(
                    AddressSpaceView { mappings: Map::empty(), regions: Set::empty() },
                ),
            ));
        }
    }

    /// The addresses of the `len` bytes from `va` in the address space of
    /// task `token` are bytes of memory, each another one.
    proof fn lemma_buffer_in_memory(&self, token: int, va: VirtAddr, len: usize, need: MapPermission, addrs: Seq<PhysAddr>)
        requires
            self.wf(),
            0 <= token < self.tasks@.len(),
            self.tasks@[token].space@.accessible(va, len, need),
            addrs.len() == len,
            forall|i: int|
                0 <= i < len ==> self.tasks@[token].space@.translate(va.offset_by(i)) == Some(#[trigger] addrs[i]),
        ensures
            addrs.no_duplicates(),
            forall|i: int| 0 <= i < addrs.len() ==> self.memory.holds(#[trigger] addrs[i]),
            forall|i: int|
                0 <= i < addrs.len() ==> self@.index_of(token, va.offset_by(i)) == self.memory.index_of(#[trigger] addrs[i]),
    {
        let space = self.tasks@[token].space@;
        self.tasks@[token].space.lemma_consistent();
        self.allocator.lemma_free_bounded();
        assert forall|i: int, j: int| 0 <= i < addrs.len() && 0 <= j < addrs.len() && i != j implies addrs[i]
            != addrs[j] by {
            assert(space.translate(va.offset_by(i)) == Some(addrs[i]));
            assert(space.translate(va.offset_by(j)) == Some(addrs[j]));
            space.lemma_translate_injective(va.offset_by(i), va.offset_by(j));
        }
        assert forall|i: int| 0 <= i < addrs.len() implies self.memory.holds(#[trigger] addrs[i]) by {
            let a = va.offset_by(i);
            let b = va.offset_by(if i == 0 { 1 } else { 0 });
            assert(space.translate(a) == Some(addrs[i]));
            let f = space.mappings[a.page()].ppn;
            assert(space.mappings.contains_key(a.page()));
            assert(space.frames().contains(f));
            assert(self.tasks@[token].space.owned_by(&self.allocator));
            assert(self.allocator.allocated().contains(f));
            assert(f < total_pages());
            assert(addrs[i].frame() == f);
        }
        assert forall|i: int| 0 <= i < addrs.len() implies self@.index_of(token, va.offset_by(i))
            == self.memory.index_of(#[trigger] addrs[i]) by {
            assert(space.translate(va.offset_by(i)) == Some(addrs[i]));
        }
    }

    /// Stores `data` at `va` in the address space that `token` names, after
    /// checking that every page that the bytes reach into is mapped there
    /// and may be read and written from user mode.
    pub fn write_user(&mut self, token: usize, va: VirtAddr, data: &Vec<u8>) -> (res: Result<(), MemError>)
        requires
            old(self).wf(),
        ensures
            final(self).wf(),
            res == (if old(self)@.can_store(token, va, data@.len() as usize) {
                Ok::<(), MemError>(())
            } else {
                Err::<(), MemError>(MemError::TranslationFault)
            }),
            res is Err ==> final(self)@ == old(self)@,
            res is Ok ==> store_step(old(self)@, final(self)@, token as int, va, data@),
    {
        if token >= self.tasks.len() {
            return Err(MemError::TranslationFault);
        }
        let addrs: Vec<PhysAddr> = match self.tasks[token].space.translate_buffer(
            va,
            data.len(),
            MapPermission::user_read_write(),
        ) {
            Ok(found) => found,
            Err(e) => {
                return Err(e);
            },
        };
        proof {
            self.lemma_buffer_in_memory(token as int, va, data.len(), MapPermission::user_read_write(), addrs@);
        }
        self.memory.store_all(&addrs, data);
        proof {
            let pre = old(self)@;
            let post = self@;
            assert(post.tasks =~= pre.tasks);
            assert forall|i: int| 0 <= i < data@.len() implies post.memory[#[trigger] pre.index_of(
                token as int,
                va.offset_by(i),
            )] == data@[i] by {
                assert(pre.index_of(token as int, va.offset_by(i)) == old(self).memory.index_of(addrs@[i]));
            }
            assert forall|k: int|
                0 <= k < pre.memory.len() && !stored_at(pre, token as int, va, data@.len() as int, k) implies #[trigger] post.memory[k]
                == pre.memory[k] by {
                if written(old(self).memory.first_frame(), addrs@, addrs@.len() as int, k) {
                    let i = choose|i: int| 0 <= i < addrs@.len() && (#[trigger] addrs@[i]).0 - old(self).memory.first_frame() * PAGE_SIZE == k;
                    assert(pre.index_of(token as int, va.offset_by(i)) == old(self).memory.index_of(addrs@[i]));
                    assert(stored_at(pre, token as int, va, data@.len() as int, k));
                }
            }
            assert forall|t: int| 0 <= t < self.tasks@.len() implies (#[trigger] self.tasks@[t]).space.owned_by(
                &self.allocator,
            ) by {
                assert(old(self).tasks@[t].space.owned_by(&old(self).allocator));
            }
            assert forall|t: int, u: int, f: usize|
                0 <= t < self.tasks@.len() && 0 <= u < self.tasks@.len() && t != u && #[trigger] self.task_owns(t, f)
                implies !#[trigger] self.task_owns(u, f) by {
                assert(old(self).task_owns(t, f));
                assert(!old(self).task_owns(u, f));
            }
        }
        Ok(())
    }

    /// Loads `len` bytes from `va` in the address space that `token` names,
    /// after checking that every page that the bytes reach into is mapped
    /// there and may be read from user mode.
    pub fn read_user(&self, token: usize, va: VirtAddr, len: usize) -> (res: Result<Vec<u8>, MemError>)
        requires
            self.wf(),
        ensures
            match res {
                Ok(bytes) => {
                    &&& self@.can_load(token, va, len)
                    &&& bytes@.len() == len
                    &&& forall|i: int|
                        0 <= i < len ==> #[trigger] bytes@[i] == self@.memory[self@.index_of(
                            token as int,
                            va.offset_by(i),
                        )]
                },
                Err(e) => e == MemError::TranslationFault && !self@.can_load(token, va, len),
            },
    {
        if token >= self.tasks.len() {
            return Err(MemError::TranslationFault);
        }
        let addrs: Vec<PhysAddr> = match self.tasks[token].space.translate_buffer(va, len, MapPermission::user_read()) {
            Ok(found) => found,
            Err(e) => {
                return Err(e);
            },
        };
        proof {
            self.lemma_buffer_in_memory(token as int, va, len, MapPermission::user_read(), addrs@);
        }
        let bytes: Vec<u8> = self.memory.load_all(&addrs);
        proof {
            assert forall|i: int| 0 <= i < len implies #[trigger] bytes@[i] == self@.memory[self@.index_of(
                token as int,
                va.offset_by(i),
            )] by {
                assert(self@.index_of(token as int, va.offset_by(i)) == self.memory.index_of(addrs@[i]));
            }
        }
        Ok(bytes)
    }
}

/// The identifier that comes `k` places after `start` where `n` tasks stand
/// in a ring.
pub open spec fn ring(start: int, k: int, n: int) -> int {
    (start + k) % n
}

impl KernelView {
    /// Whether task `id` is ready to run.
    pub open spec fn ready(self, id: int) -> bool {
        self.has_task(id) && self.tasks[id].status == TaskStatus::Ready
    }

    /// The task after which the search for the next task to run starts: the
    /// current one, or the last one where there is no current one.
    pub open spec fn ring_start(self) -> int {
        match self.current {
            Some(id) => id as int,
            None => self.tasks.len() - 1,
        }
    }
}

impl Kernel {
    /// The ready task that comes first after the current one, with the
    /// tasks in a ring by their identifiers, so that the current task
    /// itself comes last. There is none when no task is ready.
    pub fn next_ready(&self) -> (next: Option<usize>)
        requires
            self.wf(),
        ensures
            match next {
                Some(id) => exists|k: int|
                    {
                        &&& 1 <= k <= self@.tasks.len()
                        &&& id == #[trigger] ring(self@.ring_start(), k, self@.tasks.len() as int)
                        &&& self@.ready(id as int)
                        &&& forall|j: int|
                            1 <= j < k ==> !self@.ready(#[trigger] ring(self@.ring_start(), j, self@.tasks.len() as int))
                    },
                None => forall|t: int| !#[trigger] self@.ready(t),
            },
    {
        let n: usize = self.tasks.len();
        if n == 0 {
            return None;
        }
        let start: usize = match self.current {
            Some(id) => id,
            None => n - 1,
        };
        let mut k: usize = 0;
        let mut id: usize = if start + 1 == n {
            0
        } else {
            start + 1
        };
        proof {
            lemma_ring_next(start as int, 0, n as int);
            assert(ring(start as int, 0, n as int) == start) by (nonlinear_arith)
                requires
                    0 <= start < n,
                    ring(start as int, 0, n as int) == (start + 0) % (n as int),
            ;
        }
        while k < n
            invariant
                n == self.tasks@.len(),
                n > 0,
                start < n,
                start == self@.ring_start(),
                k <= n,
                id < n,
                id == ring(start as int, k + 1, n as int),
                forall|j: int| 1 <= j <= k ==> !self@.ready(#[trigger] ring(start as int, j, n as int)),
            decreases n - k,
        {
            match self.tasks[id].record.get_status() {
                TaskStatus::Ready => {
                    assert(self@.ready(id as int));
                    return Some(id);
                },
                _ => {},
            }
            assert(!self@.ready(ring(start as int, k + 1, n as int)));
            proof {
                lemma_ring_next(start as int, k + 1, n as int);
            }
            k = k + 1;
            id = if id + 1 == n {
                0
            } else {
                id + 1
            };
        }
        proof {
            assert forall|t: int| !#[trigger] self@.ready(t) by {
                if self@.has_task(t) {
                    let j = if t > start { t - start } else { t - start + n };
                    lemma_ring_at(start as int, j, n as int, t);
                    assert(!self@.ready(ring(start as int, j, n as int)));
                }
            }
        }
        None
    }
}

/// One step round the ring is the next identifier, or the first after the last.
proof fn lemma_ring_next(start: int, k: int, n: int)
    requires
        n > 0,
        0 <= start < n,
        k >= 0,
    ensures
        ring(start, k + 1, n) == (if ring(start, k, n) + 1 == n {
            0
        } else {
            ring(start, k, n) + 1
        }),
        0 <= ring(start, k, n) < n,
{
    let q = (start + k) / n;
    let r = (start + k) % n;
    assert(start + k == q * n + r) by (nonlinear_arith)
        requires
            n > 0,
            q == (start + k) / n,
            r == (start + k) % n,
    ;
    if r + 1 == n {
        assert((q + 1) * n == q * n + n) by (nonlinear_arith);
        assert((start + k + 1) % n == 0) by (nonlinear_arith)
            requires
                n > 0,
                start + k + 1 == (q + 1) * n,
        ;
    } else {
        assert((start + k + 1) % n == r + 1) by (nonlinear_arith)
            requires
                n > 0,
                0 <= r + 1 < n,
                start + k + 1 == q * n + (r + 1),
        ;
    }
}

/// Task `t` stands `j` places after `start` in the ring.
proof fn lemma_ring_at(start: int, j: int, n: int, t: int)
    requires
        n > 0,
        0 <= start < n,
        0 <= t < n,
        j == (if t > start {
            t - start
        } else {
            t - start + n
        }),
    ensures
        1 <= j <= n,
        ring(start, j, n) == t,
{
    if t > start {
        assert((start + j) % n == t) by (nonlinear_arith)
            requires
                n > 0,
                0 <= t < n,
                start + j == t,
        ;
    } else {
        assert((start + j) % n == t) by (nonlinear_arith)
            requires
                n > 0,
                0 <= t < n,
                start + j == t + n,
        ;
    }
}

} // verus!
