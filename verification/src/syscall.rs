//! The syscalls of the current task: each checks its raw arguments, acts on
//! the kernel's state, and answers with zero for success or -1 for failure.

use vstd::prelude::*;
use crate::address::VirtAddr;
use crate::config::{
    MAX_SYSCALL_NUM, MICROS_PER_SEC, SYSCALL_EXIT, SYSCALL_GET_TIME, SYSCALL_MMAP, SYSCALL_MUNMAP,
    SYSCALL_SET_PRIORITY, SYSCALL_TASK_INFO, SYSCALL_YIELD,
};
use crate::error::MemError;
use crate::kernel::{exit_step, map_step, store_step, task_replaced, unmap_step, Kernel, KernelView};
use crate::permission::port_is_valid;
use crate::task::{counted, elapsed, task_info_layout, TaskStatus};
use crate::wire::{le_bytes, lemma_le_bytes_len, push_le_bytes};

verus! {

/// A time as whole seconds and the microseconds beyond them.
#[derive(Clone, Copy, PartialEq, Eq, Structural, Debug)]
pub struct TimeVal {
    pub sec: usize,
    pub usec: usize,
}

/// The number of bytes that a `TimeVal` takes up in user memory.
pub const TIME_VAL_SIZE: usize = 16;

/// The time `us` microseconds after the clock started.
pub open spec fn time_val_of(us: usize) -> TimeVal {
    TimeVal { sec: us / MICROS_PER_SEC, usec: us % MICROS_PER_SEC }
}

/// The layout of a `TimeVal` in user memory: the seconds in eight bytes,
/// then the microseconds in eight bytes.
pub open spec fn time_val_bytes(time: TimeVal) -> Seq<u8> {
    le_bytes(time.sec as nat, 8) + le_bytes(time.usec as nat, 8)
}

impl TimeVal {
    /// The microseconds that the time stands for.
    pub open spec fn micros(self) -> int {
        self.sec * MICROS_PER_SEC + self.usec
    }

    /// Whether `self` is no later than `other`.
    pub open spec fn no_later_than(self, other: TimeVal) -> bool {
        self.sec < other.sec || (self.sec == other.sec && self.usec <= other.usec)
    }

    /// Splits a reading of the microsecond clock into seconds and the rest.
    pub fn from_micros(us: usize) -> (time: TimeVal)
        ensures
            time == time_val_of(us),
            time.usec < MICROS_PER_SEC,
            time.micros() == us,
    {
        TimeVal { sec: us / MICROS_PER_SEC, usec: us % MICROS_PER_SEC }
    }

    /// The bytes that stand for the time in user memory.
    pub fn to_bytes(&self) -> (bytes: Vec<u8>)
        ensures
            bytes@ == time_val_bytes(*self),
            bytes@.len() == TIME_VAL_SIZE,
    {
        let mut bytes: Vec<u8> = Vec::new();
        push_le_bytes(&mut bytes, self.sec as u64, 8);
        push_le_bytes(&mut bytes, self.usec as u64, 8);
        proof {
            lemma_le_bytes_len(self.sec as nat, 8);
            lemma_le_bytes_len(self.usec as nat, 8);
            assert(bytes@ =~= time_val_bytes(*self));
        }
        bytes
    }
}

/// The answer of a syscall that ended as `res` says.
pub open spec fn status_of(res: Result<(), MemError>) -> isize {
    if res is Ok {
        0isize
    } else {
        -1isize
    }
}

/// What handing a result to the current task does: where the kernel can
/// store `data` at `ptr` in the task's address space, it does, and the
/// answer is zero; where it cannot, the task ends, and the answer is -1.
pub open spec fn result_step(pre: KernelView, post: KernelView, ptr: usize, data: Seq<u8>, ret: isize) -> bool {
    if pre.can_store(pre.cur() as usize, VirtAddr(ptr), data.len() as usize) {
        ret == 0 && store_step(pre, post, pre.cur(), VirtAddr(ptr), data)
    } else {
        ret == -1 && exit_step(pre, post)
    }
}

/// What `sys_yield` does: the current task is ready, no longer running.
pub open spec fn yield_step(pre: KernelView, post: KernelView, ret: isize) -> bool {
    ret == 0 && task_replaced(pre, post, pre.cur(), pre.tasks[pre.cur()].with_status(TaskStatus::Ready))
}

/// What `sys_get_time` does when the clock reads `now_us`: it hands the
/// task that time.
pub open spec fn get_time_step(pre: KernelView, post: KernelView, now_us: usize, ts: usize, ret: isize) -> bool {
    result_step(pre, post, ts, time_val_bytes(time_val_of(now_us)), ret)
}

/// What `sys_task_info` does when the clock reads `now_us`: it hands the
/// task its status, its counters and the time since it first ran.
pub open spec fn task_info_step(pre: KernelView, post: KernelView, now_us: usize, ti: usize, ret: isize) -> bool {
    result_step(
        pre,
        post,
        ti,
        task_info_layout(
            pre.tasks[pre.cur()].status,
            pre.tasks[pre.cur()].counters,
            elapsed(pre.tasks[pre.cur()].first_scheduled, now_us),
        ),
        ret,
    )
}

/// What `sys_mmap` does: it maps the range where the address space of the
/// current task accepts the request, and answers whether it did.
pub open spec fn mmap_step(pre: KernelView, post: KernelView, start: usize, len: usize, port: usize, ret: isize) -> bool {
    let res = pre.tasks[pre.cur()].space.map_outcome(pre.free, VirtAddr(start), len, port);
    ret == status_of(res) && map_step(pre, post, VirtAddr(start), len, port, res)
}

/// What `sys_munmap` does: it unmaps the range where the address space of
/// the current task accepts the request, and answers whether it did.
pub open spec fn munmap_step(pre: KernelView, post: KernelView, start: usize, len: usize, ret: isize) -> bool {
    let res = pre.tasks[pre.cur()].space.unmap_outcome(VirtAddr(start), len);
    ret == status_of(res) && unmap_step(pre, post, VirtAddr(start), len, res)
}

/// Ends the current task and releases its address space. The scheduler
/// takes over from here: the task never runs again.
pub fn sys_exit(kernel: &mut Kernel, _exit_code: i32)
    requires
        old(kernel).wf(),
        old(kernel)@.running(),
    ensures
        final(kernel).wf(),
        exit_step(old(kernel)@, final(kernel)@),
{
    kernel.exit_current();
}

/// The current task gives up the processor and stays ready to run.
pub fn sys_yield(kernel: &mut Kernel) -> (ret: isize)
    requires
        old(kernel).wf(),
        old(kernel)@.running(),
    ensures
        final(kernel).wf(),
        yield_step(old(kernel)@, final(kernel)@, ret),
{
    kernel.suspend_current();
    0
}

/// Stores `data` at `ptr` in the address space of the current task, or ends
/// the task when it cannot.
fn hand_over(kernel: &mut Kernel, ptr: usize, data: &Vec<u8>) -> (ret: isize)
    requires
        old(kernel).wf(),
        old(kernel)@.running(),
    ensures
        final(kernel).wf(),
        result_step(old(kernel)@, final(kernel)@, ptr, data@, ret),
{
    let token: usize = kernel.current_user_token();
    match kernel.write_user(token, VirtAddr(ptr), data) {
        Ok(_) => 0,
        Err(_) => {
            kernel.exit_current();
            -1
        },
    }
}

/// Writes the time `now_us`, a reading of the microsecond clock, to the
/// `TimeVal` at `ts` in the address space of the current task.
pub fn sys_get_time(kernel: &mut Kernel, now_us: usize, ts: usize, _tz: usize) -> (ret: isize)
    requires
        old(kernel).wf(),
        old(kernel)@.running(),
    ensures
        final(kernel).wf(),
        get_time_step(old(kernel)@, final(kernel)@, now_us, ts, ret),
{
    let time: TimeVal = TimeVal::from_micros(now_us);
    let bytes: Vec<u8> = time.to_bytes();
    hand_over(kernel, ts, &bytes)
}

/// Priorities are not supported: the call is accepted and always fails.
pub fn sys_set_priority(_prio: isize) -> (ret: isize)
    ensures
        ret == -1,
{
    -1
}

/// Maps `len` bytes from `start`, rounded up to whole pages, in the address
/// space of the current task, with the access that `port` encodes.
pub fn sys_mmap(kernel: &mut Kernel, start: usize, len: usize, port: usize) -> (ret: isize)
    requires
        old(kernel).wf(),
        old(kernel)@.running(),
    ensures
        final(kernel).wf(),
        mmap_step(old(kernel)@, final(kernel)@, start, len, port, ret),
{
    if !port_is_valid(port) {
        return -1;
    }
    match kernel.map_current(VirtAddr(start), len, port) {
        Ok(_) => 0,
        Err(_) => -1,
    }
}

/// Unmaps `len` bytes from `start`, rounded up to whole pages, in the
/// address space of the current task.
pub fn sys_munmap(kernel: &mut Kernel, start: usize, len: usize) -> (ret: isize)
    requires
        old(kernel).wf(),
        old(kernel)@.running(),
    ensures
        final(kernel).wf(),
        munmap_step(old(kernel)@, final(kernel)@, start, len, ret),
{
    match kernel.unmap_current(VirtAddr(start), len) {
        Ok(_) => 0,
        Err(_) => -1,
    }
}

/// Writes a snapshot of the current task's record, taken when the
/// microsecond clock reads `now_us`, to the `TaskInfo` at `ti` in the
/// address space of the task.
pub fn sys_task_info(kernel: &mut Kernel, now_us: usize, ti: usize) -> (ret: isize)
    requires
        old(kernel).wf(),
        old(kernel)@.running(),
    ensures
        final(kernel).wf(),
        task_info_step(old(kernel)@, final(kernel)@, now_us, ti, ret),
{
    let bytes: Vec<u8> = kernel.snapshot(now_us).to_bytes();
    hand_over(kernel, ti, &bytes)
}

/// The kernel once the current task was counted one more call of syscall
/// `syscall_id`, where the counter table has a slot for it.
pub open spec fn recorded(pre: KernelView, syscall_id: usize) -> KernelView {
    if syscall_id < MAX_SYSCALL_NUM {
        KernelView {
            tasks: pre.tasks.update(
                pre.cur(),
                pre.tasks[pre.cur()].with_counters(counted(pre.tasks[pre.cur()].counters, syscall_id as int)),
            ),
            current: pre.current,
            free: pre.free,
            first_frame: pre.first_frame,
            memory: pre.memory,
        }
    } else {
        pre
    }
}

/// What a syscall does: the call is counted, then it does what the syscall
/// of that identifier does; one that the kernel does not know fails.
pub open spec fn syscall_step(
    pre: KernelView,
    post: KernelView,
    syscall_id: usize,
    args: Seq<usize>,
    now_us: usize,
    ret: isize,
) -> bool {
    let mid = recorded(pre, syscall_id);
    if syscall_id == SYSCALL_EXIT {
        ret == 0 && exit_step(mid, post)
    } else if syscall_id == SYSCALL_YIELD {
        yield_step(mid, post, ret)
    } else if syscall_id == SYSCALL_GET_TIME {
        get_time_step(mid, post, now_us, args[0], ret)
    } else if syscall_id == SYSCALL_SET_PRIORITY {
        ret == -1 && post == mid
    } else if syscall_id == SYSCALL_MMAP {
        mmap_step(mid, post, args[0], args[1], args[2], ret)
    } else if syscall_id == SYSCALL_MUNMAP {
        munmap_step(mid, post, args[0], args[1], ret)
    } else if syscall_id == SYSCALL_TASK_INFO {
        task_info_step(mid, post, now_us, args[0], ret)
    } else {
        ret == -1 && post == mid
    }
}

/// Serves syscall `syscall_id` of the current task with the arguments
/// `args`, when the microsecond clock reads `now_us`.
pub fn syscall(kernel: &mut Kernel, syscall_id: usize, args: [usize; 3], now_us: usize) -> (ret: isize)
    requires
        old(kernel).wf(),
        old(kernel)@.running(),
    ensures
        final(kernel).wf(),
        syscall_step(old(kernel)@, final(kernel)@, syscall_id, args@, now_us, ret),
{
    if syscall_id < MAX_SYSCALL_NUM {
        kernel.record_syscall(syscall_id);
    }
    assert(kernel@ =~= recorded(old(kernel)@, syscall_id));
    if syscall_id == SYSCALL_EXIT {
        sys_exit(kernel, #[verifier::truncate] (args[0] as i32));
        0
    } else if syscall_id == SYSCALL_YIELD {
        sys_yield(kernel)
    } else if syscall_id == SYSCALL_GET_TIME {
        sys_get_time(kernel, now_us, args[0], args[1])
    } else if syscall_id == SYSCALL_SET_PRIORITY {
        sys_set_priority(#[verifier::truncate] (args[0] as isize))
    } else if syscall_id == SYSCALL_MMAP {
        sys_mmap(kernel, args[0], args[1], args[2])
    } else if syscall_id == SYSCALL_MUNMAP {
        sys_munmap(kernel, args[0], args[1])
    } else if syscall_id == SYSCALL_TASK_INFO {
        sys_task_info(kernel, now_us, args[0])
    } else {
        -1
    }
}

} // verus!
