use kernel_mm::address::VirtAddr;
use kernel_mm::config::{
    MAX_SYSCALL_NUM, SYSCALL_EXIT, SYSCALL_GET_TIME, SYSCALL_MMAP, SYSCALL_MUNMAP, SYSCALL_SET_PRIORITY,
    SYSCALL_TASK_INFO, SYSCALL_YIELD,
};
use kernel_mm::kernel::Kernel;
use kernel_mm::syscall::{
    sys_exit, sys_get_time, sys_mmap, sys_munmap, sys_set_priority, sys_task_info, sys_yield, syscall,
};
use kernel_mm::task::{TaskStatus, TASK_INFO_SIZE};

fn boot() -> Kernel {
    let mut kernel = Kernel::new(0x1000, 64).expect("the memory fits");
    let id = kernel.spawn();
    assert!(kernel.switch_to(id, 0));
    kernel
}

fn word(bytes: &[u8]) -> u64 {
    let mut raw = [0u8; 8];
    raw.copy_from_slice(bytes);
    u64::from_le_bytes(raw)
}

fn counter(bytes: &[u8], id: usize) -> u32 {
    let mut raw = [0u8; 4];
    raw.copy_from_slice(&bytes[4 + 4 * id..8 + 4 * id]);
    u32::from_le_bytes(raw)
}

fn read_time(kernel: &Kernel, ts: usize) -> (u64, u64) {
    let token = kernel.current_user_token();
    let bytes = kernel.read_user(token, VirtAddr(ts), 16).expect("a readable buffer");
    (word(&bytes[..8]), word(&bytes[8..]))
}

#[test]
fn mmap_refuses_every_port_outside_one_to_seven() {
    let mut kernel = boot();
    for port in [0usize, 8, 9, 15, 16, 0x100, 1 << 31, usize::MAX - 7, usize::MAX] {
        assert_eq!(sys_mmap(&mut kernel, 0x10000, 4096, port), -1);
        assert_eq!(kernel.free_frames(), 64);
        assert_eq!(kernel.translate(0, VirtAddr(0x10000)), None);
    }
    for port in 1usize..=7 {
        assert_eq!(sys_mmap(&mut kernel, 0x10000 * port, 4096, port), 0);
    }
    assert_eq!(kernel.free_frames(), 57);
}

#[test]
fn mmap_and_munmap_refuse_every_misaligned_start() {
    let mut kernel = boot();
    assert_eq!(sys_mmap(&mut kernel, 0x10000, 2 * 4096, 0x3), 0);
    for offset in [1usize, 2, 8, 0x800, 0xfff] {
        assert_eq!(sys_mmap(&mut kernel, 0x20000 + offset, 4096, 0x3), -1);
        assert_eq!(sys_munmap(&mut kernel, 0x10000 + offset, 4096), -1);
        assert_eq!(sys_munmap(&mut kernel, 0x10000 + offset, 2 * 4096), -1);
    }
    assert_eq!(kernel.free_frames(), 62);
    assert!(kernel.translate(0, VirtAddr(0x10000)).is_some());
    assert!(kernel.translate(0, VirtAddr(0x11000)).is_some());
    assert!(kernel.translate(0, VirtAddr(0x20000)).is_none());
}

#[test]
fn mmap_of_an_empty_range_fails() {
    let mut kernel = boot();
    assert_eq!(sys_mmap(&mut kernel, 0x10000, 0, 0x3), -1);
    assert_eq!(sys_munmap(&mut kernel, 0x10000, 0), -1);
    assert_eq!(kernel.free_frames(), 64);
}

#[test]
fn overlapping_mmap_leaves_the_old_mapping_intact() {
    let mut kernel = boot();
    assert_eq!(sys_mmap(&mut kernel, 0x10000, 4096, 0x3), 0);
    let data: Vec<u8> = vec![7, 6, 5, 4, 3, 2, 1];
    assert_eq!(kernel.write_user(0, VirtAddr(0x10100), &data), Ok(()));
    let before = kernel.translate(0, VirtAddr(0x10100));
    assert_eq!(sys_mmap(&mut kernel, 0x10000, 4096, 0x1), -1);
    assert_eq!(sys_mmap(&mut kernel, 0xf000, 2 * 4096, 0x3), -1);
    assert_eq!(sys_mmap(&mut kernel, 0x10000, 2 * 4096, 0x3), -1);
    assert_eq!(kernel.free_frames(), 63);
    assert_eq!(kernel.translate(0, VirtAddr(0x10100)), before);
    assert_eq!(kernel.read_user(0, VirtAddr(0x10100), 7), Ok(data));
    assert_eq!(kernel.translate(0, VirtAddr(0xf000)), None);
    assert_eq!(kernel.translate(0, VirtAddr(0x11000)), None);
}

#[test]
fn munmap_of_a_partly_unmapped_range_changes_nothing() {
    let mut kernel = boot();
    assert_eq!(sys_mmap(&mut kernel, 0x10000, 4096, 0x3), 0);
    assert_eq!(sys_mmap(&mut kernel, 0x12000, 4096, 0x3), 0);
    assert_eq!(kernel.write_user(0, VirtAddr(0x12000), &vec![0x5a; 4]), Ok(()));
    // the page between the two is not mapped
    assert_eq!(sys_munmap(&mut kernel, 0x10000, 3 * 4096), -1);
    assert_eq!(sys_munmap(&mut kernel, 0x11000, 4096), -1);
    assert_eq!(sys_munmap(&mut kernel, 0x12000, 2 * 4096), -1);
    assert_eq!(kernel.free_frames(), 62);
    assert!(kernel.translate(0, VirtAddr(0x10000)).is_some());
    assert_eq!(kernel.read_user(0, VirtAddr(0x12000), 4), Ok(vec![0x5a; 4]));
}

#[test]
fn map_unmap_map_again_on_a_pool_that_just_fits() {
    // every frame of the pool is needed: a frame that leaked would show
    let mut kernel = Kernel::new(0x1000, 3).expect("the memory fits");
    let id = kernel.spawn();
    assert!(kernel.switch_to(id, 0));
    for _ in 0..5 {
        assert_eq!(sys_mmap(&mut kernel, 0x10000, 3 * 4096 - 1, 0x3), 0);
        assert_eq!(kernel.free_frames(), 0);
        assert_eq!(sys_mmap(&mut kernel, 0x20000, 1, 0x3), -1);
        assert_eq!(sys_munmap(&mut kernel, 0x10000, 3 * 4096 - 1), 0);
        assert_eq!(kernel.free_frames(), 3);
    }
    assert_eq!(sys_mmap(&mut kernel, 0x10000, 3 * 4096, 0x3), 0);
}

#[test]
fn get_time_writes_seconds_and_microseconds() {
    let mut kernel = boot();
    assert_eq!(sys_mmap(&mut kernel, 0x10000, 4096, 0x3), 0);
    assert_eq!(sys_get_time(&mut kernel, 3_500_000, 0x10008, 0), 0);
    assert_eq!(read_time(&kernel, 0x10008), (3, 500_000));
    assert_eq!(sys_get_time(&mut kernel, 999_999, 0x10008, 0), 0);
    assert_eq!(read_time(&kernel, 0x10008), (0, 999_999));
    assert_eq!(sys_get_time(&mut kernel, 61_000_001, 0x10ff0, 0), 0);
    assert_eq!(read_time(&kernel, 0x10ff0), (61, 1));
    // the bytes before the structure are untouched
    assert_eq!(kernel.read_user(0, VirtAddr(0x10000), 8), Ok(vec![0; 8]));
    assert!(kernel.is_running());
}

#[test]
fn later_clock_reading_gives_a_time_that_is_not_earlier() {
    let mut kernel = boot();
    assert_eq!(sys_mmap(&mut kernel, 0x10000, 4096, 0x3), 0);
    let readings = [0usize, 1, 999_999, 1_000_000, 1_000_001, 5_999_999, 6_000_000, 6_000_000, usize::MAX];
    let mut last = (0u64, 0u64);
    for now in readings {
        assert_eq!(sys_get_time(&mut kernel, now, 0x10000, 0), 0);
        let time = read_time(&kernel, 0x10000);
        assert!(time >= last);
        assert!(time.1 < 1_000_000);
        assert_eq!(time.0 as u128 * 1_000_000 + time.1 as u128, now as u128);
        last = time;
    }
}

#[test]
fn get_time_to_an_unmapped_pointer_ends_the_task() {
    let mut kernel = boot();
    assert_eq!(sys_mmap(&mut kernel, 0x10000, 4096, 0x3), 0);
    assert_eq!(sys_mmap(&mut kernel, 0x20000, 2 * 4096, 0x1), 0);
    // the structure would reach beyond the mapped page
    assert_eq!(sys_get_time(&mut kernel, 5, 0x10ff8, 0), -1);
    assert_eq!(kernel.task_status(0), Some(TaskStatus::Exited));
    assert!(!kernel.is_running());
    assert_eq!(kernel.free_frames(), 64);
    assert_eq!(kernel.translate(0, VirtAddr(0x10000)), None);
}

#[test]
fn get_time_to_a_read_only_page_ends_the_task() {
    let mut kernel = boot();
    assert_eq!(sys_mmap(&mut kernel, 0x20000, 4096, 0x1), 0);
    assert_eq!(sys_get_time(&mut kernel, 5, 0x20000, 0), -1);
    assert_eq!(kernel.task_status(0), Some(TaskStatus::Exited));
    assert_eq!(kernel.free_frames(), 64);
}

#[test]
fn task_info_writes_status_counters_and_time() {
    let mut kernel = Kernel::new(0x1000, 64).expect("the memory fits");
    let id = kernel.spawn();
    assert!(kernel.switch_to(id, 250));
    assert_eq!(syscall(&mut kernel, SYSCALL_MMAP, [0x10000, 4096, 0x3], 300), 0);
    assert_eq!(syscall(&mut kernel, SYSCALL_GET_TIME, [0x10800, 0, 0], 400), 0);
    assert_eq!(syscall(&mut kernel, SYSCALL_TASK_INFO, [0x10000, 0, 0], 1_250), 0);
    let bytes = kernel.read_user(id, VirtAddr(0x10000), TASK_INFO_SIZE).expect("a readable buffer");
    assert_eq!(bytes[0..4], [1, 0, 0, 0]);
    for syscall_id in 0..MAX_SYSCALL_NUM {
        let expected = match syscall_id {
            SYSCALL_MMAP | SYSCALL_GET_TIME | SYSCALL_TASK_INFO => 1,
            _ => 0,
        };
        assert_eq!(counter(&bytes, syscall_id), expected);
    }
    assert_eq!(bytes[2004..2008], [0, 0, 0, 0]);
    assert_eq!(word(&bytes[2008..2016]), 1_000);
}

#[test]
fn task_info_needs_room_for_the_whole_structure() {
    let mut kernel = boot();
    assert_eq!(sys_mmap(&mut kernel, 0x10000, 4096, 0x3), 0);
    // 2016 bytes from here end exactly at the page's end
    assert_eq!(sys_task_info(&mut kernel, 0, 0x10000 + 4096 - 2016), 0);
    assert!(kernel.is_running());
    assert_eq!(sys_task_info(&mut kernel, 0, 0x10000 + 4096 - 2015), -1);
    assert_eq!(kernel.task_status(0), Some(TaskStatus::Exited));
}

#[test]
fn get_time_counter_goes_up_by_one_for_each_call_among_others() {
    let mut kernel = Kernel::new(0x1000, 64).expect("the memory fits");
    let id = kernel.spawn();
    let other = kernel.spawn();
    assert!(kernel.switch_to(id, 0));
    assert_eq!(syscall(&mut kernel, SYSCALL_MMAP, [0x10000, 4096, 0x3], 0), 0);
    let mut get_time_calls = 0u32;
    for round in 0..10usize {
        assert_eq!(kernel.syscall_count(id, SYSCALL_GET_TIME), Some(get_time_calls));
        assert_eq!(syscall(&mut kernel, SYSCALL_GET_TIME, [0x10000, 0, 0], round), 0);
        get_time_calls += 1;
        assert_eq!(kernel.syscall_count(id, SYSCALL_GET_TIME), Some(get_time_calls));
        assert_eq!(syscall(&mut kernel, SYSCALL_SET_PRIORITY, [round, 0, 0], round), -1);
        assert_eq!(syscall(&mut kernel, SYSCALL_MMAP, [0x20000, 4096, 0x1], round), 0);
        assert_eq!(syscall(&mut kernel, SYSCALL_TASK_INFO, [0x10100, 0, 0], round), 0);
        assert_eq!(syscall(&mut kernel, SYSCALL_MUNMAP, [0x20000, 4096, 0], round), 0);
        assert_eq!(kernel.syscall_count(id, SYSCALL_GET_TIME), Some(get_time_calls));
        if round % 3 == 0 {
            assert_eq!(syscall(&mut kernel, SYSCALL_GET_TIME, [0x10000, 0, 0], round), 0);
            get_time_calls += 1;
        }
    }
    assert_eq!(get_time_calls, 14);
    assert_eq!(kernel.syscall_count(id, SYSCALL_GET_TIME), Some(14));
    assert_eq!(kernel.syscall_count(id, SYSCALL_SET_PRIORITY), Some(10));
    assert_eq!(kernel.syscall_count(id, SYSCALL_MMAP), Some(11));
    assert_eq!(kernel.syscall_count(id, SYSCALL_MUNMAP), Some(10));
    assert_eq!(kernel.syscall_count(id, SYSCALL_TASK_INFO), Some(10));
    assert_eq!(kernel.syscall_count(id, SYSCALL_YIELD), Some(0));
    assert_eq!(kernel.syscall_count(other, SYSCALL_GET_TIME), Some(0));
    // what the task reads of itself agrees
    assert_eq!(syscall(&mut kernel, SYSCALL_TASK_INFO, [0x10100, 0, 0], 0), 0);
    let bytes = kernel.read_user(id, VirtAddr(0x10100), TASK_INFO_SIZE).expect("a readable buffer");
    assert_eq!(counter(&bytes, SYSCALL_GET_TIME), 14);
    assert_eq!(counter(&bytes, SYSCALL_TASK_INFO), 11);
}

#[test]
fn counters_belong_to_the_task_that_calls() {
    let mut kernel = Kernel::new(0x1000, 64).expect("the memory fits");
    let a = kernel.spawn();
    let b = kernel.spawn();
    assert!(kernel.switch_to(a, 0));
    assert_eq!(syscall(&mut kernel, SYSCALL_MMAP, [0x10000, 4096, 0x3], 0), 0);
    assert_eq!(syscall(&mut kernel, SYSCALL_GET_TIME, [0x10000, 0, 0], 1), 0);
    assert_eq!(syscall(&mut kernel, SYSCALL_YIELD, [0, 0, 0], 2), 0);
    assert_eq!(kernel.task_status(a), Some(TaskStatus::Ready));
    assert!(kernel.switch_to(b, 3));
    assert_eq!(syscall(&mut kernel, SYSCALL_MMAP, [0x10000, 4096, 0x3], 4), 0);
    assert_eq!(syscall(&mut kernel, SYSCALL_GET_TIME, [0x10000, 0, 0], 5), 0);
    assert_eq!(syscall(&mut kernel, SYSCALL_GET_TIME, [0x10000, 0, 0], 6), 0);
    assert_eq!(kernel.syscall_count(a, SYSCALL_GET_TIME), Some(1));
    assert_eq!(kernel.syscall_count(b, SYSCALL_GET_TIME), Some(2));
    assert_eq!(kernel.syscall_count(a, SYSCALL_YIELD), Some(1));
    assert_eq!(kernel.syscall_count(b, SYSCALL_YIELD), Some(0));
    assert_eq!(syscall(&mut kernel, SYSCALL_EXIT, [0, 0, 0], 7), 0);
    assert_eq!(kernel.task_status(b), Some(TaskStatus::Exited));
    assert_eq!(kernel.syscall_count(b, SYSCALL_EXIT), Some(1));
    assert_eq!(kernel.free_frames(), 63);
}

#[test]
fn unknown_syscall_fails_and_is_counted_where_there_is_a_slot() {
    let mut kernel = boot();
    assert_eq!(syscall(&mut kernel, 7, [1, 2, 3], 0), -1);
    assert_eq!(kernel.syscall_count(0, 7), Some(1));
    assert_eq!(syscall(&mut kernel, MAX_SYSCALL_NUM, [1, 2, 3], 0), -1);
    assert_eq!(syscall(&mut kernel, usize::MAX, [1, 2, 3], 0), -1);
    let info = kernel.snapshot(0);
    assert_eq!(info.syscall_times.iter().map(|c| *c as u64).sum::<u64>(), 1);
    assert_eq!(kernel.free_frames(), 64);
    assert!(kernel.is_running());
}

#[test]
fn set_priority_always_fails() {
    assert_eq!(sys_set_priority(0), -1);
    assert_eq!(sys_set_priority(16), -1);
    assert_eq!(sys_set_priority(-1), -1);
    assert_eq!(sys_set_priority(isize::MAX), -1);
}

#[test]
fn yield_makes_the_task_ready_and_returns_zero() {
    let mut kernel = boot();
    assert_eq!(sys_mmap(&mut kernel, 0x10000, 4096, 0x3), 0);
    assert_eq!(sys_yield(&mut kernel), 0);
    assert_eq!(kernel.task_status(0), Some(TaskStatus::Ready));
    assert!(!kernel.is_running());
    // its memory stays
    assert!(kernel.translate(0, VirtAddr(0x10000)).is_some());
    assert_eq!(kernel.free_frames(), 63);
    assert!(kernel.switch_to(0, 9));
    assert_eq!(sys_munmap(&mut kernel, 0x10000, 4096), 0);
}

#[test]
fn exit_ends_the_task_and_frees_its_memory() {
    let mut kernel = boot();
    assert_eq!(sys_mmap(&mut kernel, 0x10000, 4 * 4096, 0x7), 0);
    assert_eq!(kernel.free_frames(), 60);
    sys_exit(&mut kernel, -3);
    assert_eq!(kernel.task_status(0), Some(TaskStatus::Exited));
    assert_eq!(kernel.free_frames(), 64);
    assert!(!kernel.switch_to(0, 1));
}
