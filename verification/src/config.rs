//! Fixed parameters of the memory layout and of the syscall interface.

use vstd::prelude::*;

verus! {

/// Size of a page and of a physical frame, in bytes.
pub const PAGE_SIZE: usize = 4096;

/// Number of address bits that select a byte inside a page.
pub const PAGE_SIZE_BITS: usize = 12;

/// Number of syscall identifiers that a task's counter table has a slot for.
pub const MAX_SYSCALL_NUM: usize = 500;

pub const SYSCALL_EXIT: usize = 93;

pub const SYSCALL_YIELD: usize = 124;

pub const SYSCALL_SET_PRIORITY: usize = 140;

pub const SYSCALL_GET_TIME: usize = 169;

pub const SYSCALL_MUNMAP: usize = 215;

pub const SYSCALL_MMAP: usize = 222;

pub const SYSCALL_TASK_INFO: usize = 410;

/// Microseconds in a second.
pub const MICROS_PER_SEC: usize = 1_000_000;

} // verus!
