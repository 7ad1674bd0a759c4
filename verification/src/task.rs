//! What the kernel records of each task: where it is in its life, how often
//! it made each syscall, and when it first ran.

use vstd::prelude::*;
use crate::config::MAX_SYSCALL_NUM;
use crate::wire::{le_bytes, lemma_le_bytes_len, push_le_bytes};

verus! {

/// Where a task is in its life.
#[derive(Clone, Copy, PartialEq, Eq, Structural, Debug)]
pub enum TaskStatus {
    /// Waiting to be given the processor.
    Ready,
    /// Executing.
    Running,
    /// Finished; it never runs again.
    Exited,
}

impl TaskStatus {
    /// The number that stands for the status in user memory.
    pub open spec fn tag(self) -> u32 {
        match self {
            TaskStatus::Ready => 0,
            TaskStatus::Running => 1,
            TaskStatus::Exited => 2,
        }
    }

    pub fn to_tag(self) -> (t: u32)
        ensures
            t == self.tag(),
    {
        match self {
            TaskStatus::Ready => 0,
            TaskStatus::Running => 1,
            TaskStatus::Exited => 2,
        }
    }
}

/// The time that a task has had since it first ran: `now` less the time of
/// its first run, and zero for a task that never ran or a clock that reads
/// earlier than that.
pub open spec fn elapsed(first_scheduled: Option<usize>, now: usize) -> usize {
    match first_scheduled {
        Some(t) => if now >= t {
            (now - t) as usize
        } else {
            0
        },
        None => 0,
    }
}

/// The counters `before` after one more call of syscall `id`. A counter that
/// is at its highest value starts again from zero.
pub open spec fn counted(before: Seq<u32>, id: int) -> Seq<u32> {
    before.update(id, before[id].wrapping_add(1))
}

/// A snapshot of a task's record, as a task reads it of itself.
#[derive(Clone, Copy)]
pub struct TaskInfo {
    pub status: TaskStatus,
    pub syscall_times: [u32; MAX_SYSCALL_NUM],
    pub time: usize,
}

/// The number of bytes that a `TaskInfo` takes up in user memory.
pub const TASK_INFO_SIZE: usize = 2016;

/// The counters, four bytes each, one after the other.
pub open spec fn counters_bytes(counters: Seq<u32>) -> Seq<u8>
    decreases counters.len(),
{
    if counters.len() == 0 {
        Seq::empty()
    } else {
        counters_bytes(counters.drop_last()) + le_bytes(counters.last() as nat, 4)
    }
}

/// `counters_bytes` yields four bytes for each counter.
pub proof fn lemma_counters_bytes_len(counters: Seq<u32>)
    ensures
        counters_bytes(counters).len() == 4 * counters.len(),
    decreases counters.len(),
{
    if counters.len() > 0 {
        lemma_counters_bytes_len(counters.drop_last());
        lemma_le_bytes_len(counters.last() as nat, 4);
    }
}

/// The layout of a `TaskInfo` in user memory: the status tag in four bytes,
/// the counters in four bytes each, four bytes of padding that bring the
/// last field to a word boundary, and the time in eight bytes.
pub open spec fn task_info_layout(status: TaskStatus, counters: Seq<u32>, time: usize) -> Seq<u8> {
    le_bytes(status.tag() as nat, 4) + counters_bytes(counters) + le_bytes(0, 4) + le_bytes(time as nat, 8)
}

/// The bytes that stand for `info` in user memory.
pub open spec fn task_info_bytes(info: TaskInfo) -> Seq<u8> {
    task_info_layout(info.status, info.syscall_times@, info.time)
}

impl TaskInfo {
    /// The bytes that stand for the snapshot in user memory.
    pub fn to_bytes(&self) -> (bytes: Vec<u8>)
        ensures
            bytes@ == task_info_bytes(*self),
            bytes@.len() == TASK_INFO_SIZE,
    {
        let mut bytes: Vec<u8> = Vec::new();
        push_le_bytes(&mut bytes, self.status.to_tag() as u64, 4);
        let ghost head = bytes@;
        proof {
            assert(head =~= le_bytes(self.status.tag() as nat, 4));
            assert(self.syscall_times@.take(0) =~= Seq::<u32>::empty());
            assert(bytes@ =~= head + counters_bytes(self.syscall_times@.take(0)));
        }
        let mut i: usize = 0;
        while i < MAX_SYSCALL_NUM
            invariant
                i <= MAX_SYSCALL_NUM,
                self.syscall_times@.len() == MAX_SYSCALL_NUM,
                bytes@ == head + counters_bytes(self.syscall_times@.take(i as int)),
            decreases MAX_SYSCALL_NUM - i,
        {
            let ghost before = bytes@;
            push_le_bytes(&mut bytes, self.syscall_times[i] as u64, 4);
            proof {
                let done = self.syscall_times@.take(i as int);
                let next = self.syscall_times@.take(i + 1);
                assert(next.drop_last() =~= done);
                assert(next.last() == self.syscall_times@[i as int]);
                assert(bytes@ =~= head + counters_bytes(next));
            }
            i = i + 1;
        }
        proof {
            assert(self.syscall_times@.take(MAX_SYSCALL_NUM as int) =~= self.syscall_times@);
        }
        push_le_bytes(&mut bytes, 0, 4);
        push_le_bytes(&mut bytes, self.time as u64, 8);
        proof {
            lemma_le_bytes_len(self.status.tag() as nat, 4);
            lemma_counters_bytes_len(self.syscall_times@);
            lemma_le_bytes_len(0, 4);
            lemma_le_bytes_len(self.time as nat, 8);
        }
        bytes
    }
}

/// The record that the kernel keeps of one task.
pub struct TaskRecord {
    status: TaskStatus,
    syscall_times: [u32; MAX_SYSCALL_NUM],
    first_scheduled: Option<usize>,
}

impl TaskRecord {
    /// Where the task is in its life.
    pub closed spec fn status(&self) -> TaskStatus {
        self.status
    }

    /// How often the task made each syscall, by the syscall's identifier.
    pub closed spec fn counters(&self) -> Seq<u32> {
        self.syscall_times@
    }

    /// The reading of the clock when the task first ran, if it ever did.
    pub closed spec fn first_scheduled(&self) -> Option<usize> {
        self.first_scheduled
    }

    /// There is one counter for each syscall identifier.
    pub proof fn lemma_counters_len(&self)
        ensures
            self.counters().len() == MAX_SYSCALL_NUM,
    {
    }

    /// The record of a task that is ready to run for the first time.
    pub fn new() -> (record: TaskRecord)
        ensures
            record.status() == TaskStatus::Ready,
            record.counters() == Seq::new(MAX_SYSCALL_NUM as nat, |i: int| 0u32),
            record.first_scheduled() is None,
    {
        let record = TaskRecord {
            status: TaskStatus::Ready,
            syscall_times: [0u32; MAX_SYSCALL_NUM],
            first_scheduled: None,
        };
        assert(record.counters() =~= Seq::new(MAX_SYSCALL_NUM as nat, |i: int| 0u32));
        record
    }

    pub fn get_status(&self) -> (status: TaskStatus)
        ensures
            status == self.status(),
    {
        self.status
    }

    /// How often the task made syscall `syscall_id`.
    pub fn syscall_count(&self, syscall_id: usize) -> (count: u32)
        requires
            syscall_id < MAX_SYSCALL_NUM,
        ensures
            count == self.counters()[syscall_id as int],
    {
        self.syscall_times[syscall_id]
    }

    /// Counts one more call of syscall `syscall_id`.
    pub fn record_syscall(&mut self, syscall_id: usize)
        requires
            syscall_id < MAX_SYSCALL_NUM,
        ensures
            final(self).counters() == counted(old(self).counters(), syscall_id as int),
            final(self).status() == old(self).status(),
            final(self).first_scheduled() == old(self).first_scheduled(),
    {
        let count: u32 = self.syscall_times[syscall_id];
        self.syscall_times[syscall_id] = count.wrapping_add(1);
    }

    /// What the task reads of itself when the clock reads `now`.
    pub fn snapshot(&self, now: usize) -> (info: TaskInfo)
        ensures
            info.status == self.status(),
            info.syscall_times@ == self.counters(),
            info.time == elapsed(self.first_scheduled(), now),
    {
        let time: usize = match self.first_scheduled {
            Some(t) => if now >= t {
                now - t
            } else {
                0
            },
            None => 0,
        };
        TaskInfo { status: self.status, syscall_times: self.syscall_times, time }
    }

    /// Gives the task the processor when the clock reads `now`, which is
    /// kept if the task runs for the first time.
    pub fn mark_running(&mut self, now: usize)
        ensures
            final(self).status() == TaskStatus::Running,
            final(self).counters() == old(self).counters(),
            final(self).first_scheduled() == (match old(self).first_scheduled() {
                Some(t) => Some(t),
                None => Some(now),
            }),
    {
        self.status = TaskStatus::Running;
        if self.first_scheduled.is_none() {
            self.first_scheduled = Some(now);
        }
    }

    /// Takes the processor from the task, which stays ready to run.
    pub fn mark_ready(&mut self)
        ensures
            final(self).status() == TaskStatus::Ready,
            final(self).counters() == old(self).counters(),
            final(self).first_scheduled() == old(self).first_scheduled(),
    {
        self.status = TaskStatus::Ready;
    }

    /// Ends the task.
    pub fn mark_exited(&mut self)
        ensures
            final(self).status() == TaskStatus::Exited,
            final(self).counters() == old(self).counters(),
            final(self).first_scheduled() == old(self).first_scheduled(),
    {
        self.status = TaskStatus::Exited;
    }
}

} // verus!
