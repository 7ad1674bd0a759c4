//! The memory-mapping core of a small teaching kernel: per-task address
//! spaces over a shared pool of physical frames, checked access to user
//! memory, per-task accounting, and the syscalls built on them.

pub mod address;
pub mod address_space;
pub mod config;
pub mod error;
pub mod frame_allocator;
pub mod kernel;
pub mod page_table;
pub mod permission;
pub mod phys_memory;
pub mod syscall;
pub mod task;
pub mod theorems;
pub mod wire;

pub use address::{PhysAddr, VirtAddr};
pub use address_space::{AddressSpace, MemoryArea};
pub use error::MemError;
pub use frame_allocator::FrameAllocator;
pub use kernel::Kernel;
pub use permission::MapPermission;
pub use syscall::{
    sys_exit, sys_get_time, sys_mmap, sys_munmap, sys_set_priority, sys_task_info, sys_yield, syscall, TimeVal,
};
pub use task::{TaskInfo, TaskRecord, TaskStatus};
