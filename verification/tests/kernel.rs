use kernel_mm::address::{page_limit, VirtAddr};
use kernel_mm::error::MemError;
use kernel_mm::kernel::Kernel;
use kernel_mm::task::TaskStatus;

fn machine() -> Kernel {
    Kernel::new(0x80, 32).expect("the memory fits")
}

#[test]
fn new_kernel_has_no_task_and_every_frame_free() {
    let kernel = machine();
    assert_eq!(kernel.task_count(), 0);
    assert_eq!(kernel.current_task(), None);
    assert_eq!(kernel.free_frames(), 32);
    assert!(!kernel.is_running());
    assert_eq!(kernel.next_ready(), None);
    assert_eq!(kernel.task_status(0), None);
}

#[test]
fn kernel_needs_addressable_frames() {
    assert!(Kernel::new(page_limit(), 1).is_none());
    assert!(Kernel::new(page_limit() - 1, 2).is_none());
    assert!(Kernel::new(usize::MAX, 1).is_none());
    assert!(Kernel::new(0, page_limit()).is_none());
    assert!(Kernel::new(page_limit(), 0).is_some());
    assert!(Kernel::new(0, 0).is_some());
}

#[test]
fn spawned_tasks_are_ready_and_numbered_in_order() {
    let mut kernel = machine();
    assert_eq!(kernel.spawn(), 0);
    assert_eq!(kernel.spawn(), 1);
    assert_eq!(kernel.task_count(), 2);
    assert_eq!(kernel.task_status(0), Some(TaskStatus::Ready));
    assert_eq!(kernel.task_status(1), Some(TaskStatus::Ready));
    assert_eq!(kernel.task_status(2), None);
    assert_eq!(kernel.syscall_count(1, 169), Some(0));
    assert_eq!(kernel.syscall_count(1, 500), None);
    assert_eq!(kernel.syscall_count(2, 0), None);
    assert_eq!(kernel.current_task(), None);
}

#[test]
fn only_a_ready_task_gets_the_processor_and_only_when_it_is_free() {
    let mut kernel = machine();
    let a = kernel.spawn();
    let b = kernel.spawn();
    assert!(!kernel.switch_to(7, 0));
    assert!(kernel.switch_to(a, 10));
    assert!(kernel.is_running());
    assert_eq!(kernel.current_task(), Some(a));
    assert_eq!(kernel.current_user_token(), a);
    assert_eq!(kernel.task_status(a), Some(TaskStatus::Running));
    // the processor is taken
    assert!(!kernel.switch_to(b, 11));
    assert!(!kernel.switch_to(a, 11));
    assert_eq!(kernel.task_status(b), Some(TaskStatus::Ready));
    kernel.suspend_current();
    assert!(!kernel.is_running());
    assert_eq!(kernel.task_status(a), Some(TaskStatus::Ready));
    assert!(kernel.switch_to(b, 12));
    assert_eq!(kernel.current_task(), Some(b));
    kernel.exit_current();
    assert_eq!(kernel.task_status(b), Some(TaskStatus::Exited));
    // an exited task never runs again
    assert!(!kernel.switch_to(b, 13));
    assert!(kernel.switch_to(a, 13));
}

#[test]
fn next_ready_goes_round_the_ring_from_the_current_task() {
    let mut kernel = machine();
    let a = kernel.spawn();
    let b = kernel.spawn();
    let c = kernel.spawn();
    // with no current task the search starts at the first one
    assert_eq!(kernel.next_ready(), Some(a));
    assert!(kernel.switch_to(b, 0));
    assert_eq!(kernel.next_ready(), Some(c));
    kernel.suspend_current();
    // the current task itself comes last
    assert_eq!(kernel.next_ready(), Some(c));
    assert!(kernel.switch_to(c, 1));
    assert_eq!(kernel.next_ready(), Some(a));
    kernel.exit_current();
    assert!(kernel.switch_to(a, 2));
    kernel.exit_current();
    assert_eq!(kernel.next_ready(), Some(b));
    assert!(kernel.switch_to(b, 3));
    assert_eq!(kernel.next_ready(), None);
    kernel.suspend_current();
    assert_eq!(kernel.next_ready(), Some(b));
    assert!(kernel.switch_to(b, 4));
    kernel.exit_current();
    assert_eq!(kernel.next_ready(), None);
}

#[test]
fn user_memory_is_written_and_read_back_across_pages() {
    let mut kernel = machine();
    let id = kernel.spawn();
    assert!(kernel.switch_to(id, 0));
    assert_eq!(kernel.map_current(VirtAddr(0x11000), 4096, 0x3), Ok(()));
    assert_eq!(kernel.map_current(VirtAddr(0x10000), 4096, 0x3), Ok(()));
    let data: Vec<u8> = (0u8..=200).collect();
    assert_eq!(kernel.write_user(id, VirtAddr(0x10f80), &data), Ok(()));
    assert_eq!(kernel.read_user(id, VirtAddr(0x10f80), data.len()), Ok(data.clone()));
    // the bytes around the buffer are still zero
    assert_eq!(kernel.read_user(id, VirtAddr(0x10f7f), 1), Ok(vec![0]));
    assert_eq!(kernel.read_user(id, VirtAddr(0x10f80 + 201), 1), Ok(vec![0]));
    // a later store replaces only what it covers
    assert_eq!(kernel.write_user(id, VirtAddr(0x10fff), &vec![0xaa, 0xbb]), Ok(()));
    let mut expected = data;
    expected[0x7f] = 0xaa;
    expected[0x80] = 0xbb;
    assert_eq!(kernel.read_user(id, VirtAddr(0x10f80), expected.len()), Ok(expected));
}

#[test]
fn store_to_an_unmapped_page_is_a_translation_fault() {
    let mut kernel = machine();
    let id = kernel.spawn();
    assert!(kernel.switch_to(id, 0));
    assert_eq!(kernel.map_current(VirtAddr(0x10000), 4096, 0x3), Ok(()));
    let data: Vec<u8> = vec![1, 2, 3, 4];
    assert_eq!(kernel.write_user(id, VirtAddr(0x20000), &data), Err(MemError::TranslationFault));
    // one byte beyond the mapped page is enough, and nothing is stored then
    assert_eq!(kernel.write_user(id, VirtAddr(0x10ffd), &data), Err(MemError::TranslationFault));
    assert_eq!(kernel.read_user(id, VirtAddr(0x10ffd), 3), Ok(vec![0, 0, 0]));
    assert_eq!(kernel.read_user(id, VirtAddr(0x10ffd), 4), Err(MemError::TranslationFault));
    // an empty buffer touches no page
    assert_eq!(kernel.write_user(id, VirtAddr(0x20000), &Vec::new()), Ok(()));
}

#[test]
fn store_needs_a_writable_page_and_load_a_readable_one() {
    let mut kernel = machine();
    let id = kernel.spawn();
    assert!(kernel.switch_to(id, 0));
    assert_eq!(kernel.map_current(VirtAddr(0x10000), 4096, 0x1), Ok(()));
    assert_eq!(kernel.map_current(VirtAddr(0x20000), 4096, 0x2), Ok(()));
    assert_eq!(kernel.map_current(VirtAddr(0x30000), 4096, 0x4), Ok(()));
    let data: Vec<u8> = vec![9];
    assert_eq!(kernel.write_user(id, VirtAddr(0x10000), &data), Err(MemError::TranslationFault));
    assert_eq!(kernel.read_user(id, VirtAddr(0x10000), 1), Ok(vec![0]));
    assert_eq!(kernel.write_user(id, VirtAddr(0x20000), &data), Err(MemError::TranslationFault));
    assert_eq!(kernel.read_user(id, VirtAddr(0x20000), 1), Err(MemError::TranslationFault));
    assert_eq!(kernel.write_user(id, VirtAddr(0x30000), &data), Err(MemError::TranslationFault));
    assert_eq!(kernel.read_user(id, VirtAddr(0x30000), 1), Err(MemError::TranslationFault));
}

#[test]
fn unknown_token_is_a_translation_fault() {
    let mut kernel = machine();
    let id = kernel.spawn();
    assert!(kernel.switch_to(id, 0));
    assert_eq!(kernel.map_current(VirtAddr(0x10000), 4096, 0x3), Ok(()));
    assert_eq!(kernel.write_user(3, VirtAddr(0x10000), &vec![1]), Err(MemError::TranslationFault));
    assert_eq!(kernel.read_user(3, VirtAddr(0x10000), 1), Err(MemError::TranslationFault));
    assert_eq!(kernel.translate(3, VirtAddr(0x10000)), None);
    assert!(kernel.translate(id, VirtAddr(0x10000)).is_some());
}

#[test]
fn tasks_do_not_share_frames() {
    let mut kernel = machine();
    let a = kernel.spawn();
    let b = kernel.spawn();
    assert!(kernel.switch_to(a, 0));
    assert_eq!(kernel.map_current(VirtAddr(0x10000), 4096, 0x3), Ok(()));
    assert_eq!(kernel.write_user(a, VirtAddr(0x10000), &vec![0x11; 8]), Ok(()));
    kernel.suspend_current();
    assert!(kernel.switch_to(b, 1));
    // the other task's mapping is not in this address space
    assert_eq!(kernel.read_user(b, VirtAddr(0x10000), 8), Err(MemError::TranslationFault));
    assert_eq!(kernel.map_current(VirtAddr(0x10000), 4096, 0x3), Ok(()));
    assert_eq!(kernel.write_user(b, VirtAddr(0x10000), &vec![0x22; 8]), Ok(()));
    let (pa, _) = kernel.translate(a, VirtAddr(0x10000)).expect("mapped");
    let (pb, _) = kernel.translate(b, VirtAddr(0x10000)).expect("mapped");
    assert_ne!(pa.frame_number(), pb.frame_number());
    assert_eq!(kernel.read_user(a, VirtAddr(0x10000), 8), Ok(vec![0x11; 8]));
    assert_eq!(kernel.read_user(b, VirtAddr(0x10000), 8), Ok(vec![0x22; 8]));
    assert_eq!(kernel.free_frames(), 30);
    // unmapping in one task leaves the other alone
    assert_eq!(kernel.unmap_current(VirtAddr(0x10000), 4096), Ok(()));
    assert_eq!(kernel.read_user(a, VirtAddr(0x10000), 8), Ok(vec![0x11; 8]));
    assert_eq!(kernel.free_frames(), 31);
}

#[test]
fn exit_releases_the_address_space() {
    let mut kernel = machine();
    let a = kernel.spawn();
    let b = kernel.spawn();
    assert!(kernel.switch_to(b, 0));
    assert_eq!(kernel.map_current(VirtAddr(0x40000), 4096, 0x1), Ok(()));
    kernel.suspend_current();
    assert!(kernel.switch_to(a, 0));
    assert_eq!(kernel.map_current(VirtAddr(0x10000), 3 * 4096, 0x3), Ok(()));
    assert_eq!(kernel.map_current(VirtAddr(0x20000), 2 * 4096, 0x5), Ok(()));
    assert_eq!(kernel.free_frames(), 26);
    kernel.exit_current();
    assert_eq!(kernel.free_frames(), 31);
    assert_eq!(kernel.translate(a, VirtAddr(0x10000)), None);
    assert_eq!(kernel.translate(a, VirtAddr(0x20000)), None);
    assert!(kernel.translate(b, VirtAddr(0x40000)).is_some());
    assert_eq!(kernel.task_status(a), Some(TaskStatus::Exited));
    assert_eq!(kernel.current_task(), Some(a));
    assert!(!kernel.is_running());
}

#[test]
fn snapshot_reports_time_since_the_first_run() {
    let mut kernel = machine();
    let id = kernel.spawn();
    assert!(kernel.switch_to(id, 1_000));
    assert_eq!(kernel.snapshot(1_000).time, 0);
    assert_eq!(kernel.snapshot(4_500).time, 3_500);
    // a clock that reads earlier than the first run counts as no time
    assert_eq!(kernel.snapshot(999).time, 0);
    kernel.suspend_current();
    // a later run does not move the first one
    assert!(kernel.switch_to(id, 9_000));
    let info = kernel.snapshot(10_000);
    assert_eq!(info.time, 9_000);
    assert_eq!(info.status, TaskStatus::Running);
    assert!(info.syscall_times.iter().all(|c| *c == 0));
}

#[test]
fn recorded_syscalls_show_in_the_snapshot() {
    let mut kernel = machine();
    let id = kernel.spawn();
    let other = kernel.spawn();
    assert!(kernel.switch_to(id, 0));
    kernel.record_syscall(169);
    kernel.record_syscall(0);
    kernel.record_syscall(169);
    kernel.record_syscall(499);
    let info = kernel.snapshot(0);
    assert_eq!(info.syscall_times[169], 2);
    assert_eq!(info.syscall_times[0], 1);
    assert_eq!(info.syscall_times[499], 1);
    assert_eq!(info.syscall_times.iter().map(|c| *c as u64).sum::<u64>(), 4);
    assert_eq!(kernel.syscall_count(id, 169), Some(2));
    assert_eq!(kernel.syscall_count(other, 169), Some(0));
}
