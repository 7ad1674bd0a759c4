use kernel_mm::address::PhysAddr;
use kernel_mm::page_table::{PageTable, PageTableEntry};
use kernel_mm::permission::MapPermission;
use kernel_mm::phys_memory::PhysMemory;
use kernel_mm::task::{TaskRecord, TaskStatus};

fn entry(ppn: usize, port: usize) -> PageTableEntry {
    PageTableEntry { ppn, perm: MapPermission::from_port(port).expect("a valid port") }
}

#[test]
fn page_table_holds_what_was_installed_last() {
    let mut table = PageTable::new();
    assert_eq!(table.lookup(5), None);
    table.install(5, entry(100, 3));
    table.install(6, entry(101, 1));
    assert_eq!(table.lookup(5), Some(entry(100, 3)));
    assert_eq!(table.lookup(6), Some(entry(101, 1)));
    table.install(5, entry(102, 7));
    assert_eq!(table.lookup(5), Some(entry(102, 7)));
    table.evict(5);
    assert_eq!(table.lookup(5), None);
    assert_eq!(table.lookup(6), Some(entry(101, 1)));
    // evicting a page that is not mapped changes nothing
    table.evict(5);
    table.evict(usize::MAX);
    assert_eq!(table.lookup(6), Some(entry(101, 1)));
}

#[test]
fn physical_memory_starts_zeroed_and_keeps_what_is_stored() {
    let mut memory = PhysMemory::new(0x80, 2);
    let first = PhysAddr(0x80 * 4096);
    let last = PhysAddr(0x82 * 4096 - 1);
    assert_eq!(memory.load(first), 0);
    assert_eq!(memory.load(last), 0);
    memory.store(first, 0x11);
    memory.store(last, 0x22);
    assert_eq!(memory.load(first), 0x11);
    assert_eq!(memory.load(last), 0x22);
    assert_eq!(memory.load(PhysAddr(0x80 * 4096 + 1)), 0);
}

#[test]
fn physical_memory_stores_and_loads_scattered_bytes() {
    let mut memory = PhysMemory::new(0x10, 4);
    let addrs = vec![PhysAddr(0x13fff), PhysAddr(0x10000), PhysAddr(0x11234)];
    memory.store_all(&addrs, &vec![1, 2, 3]);
    assert_eq!(memory.load_all(&addrs), vec![1, 2, 3]);
    assert_eq!(memory.load(PhysAddr(0x10000)), 2);
    assert_eq!(memory.load(PhysAddr(0x10001)), 0);
    assert_eq!(memory.load_all(&Vec::new()), Vec::<u8>::new());
}

#[test]
fn new_record_is_ready_with_every_counter_zero() {
    let record = TaskRecord::new();
    assert_eq!(record.get_status(), TaskStatus::Ready);
    for id in [0usize, 93, 169, 410, 499] {
        assert_eq!(record.syscall_count(id), 0);
    }
    let info = record.snapshot(12_345);
    assert_eq!(info.status, TaskStatus::Ready);
    assert_eq!(info.time, 0);
    assert!(info.syscall_times.iter().all(|c| *c == 0));
}

#[test]
fn record_counts_each_syscall_under_its_own_identifier() {
    let mut record = TaskRecord::new();
    record.record_syscall(169);
    record.record_syscall(169);
    record.record_syscall(222);
    record.record_syscall(0);
    record.record_syscall(499);
    assert_eq!(record.syscall_count(169), 2);
    assert_eq!(record.syscall_count(222), 1);
    assert_eq!(record.syscall_count(0), 1);
    assert_eq!(record.syscall_count(499), 1);
    assert_eq!(record.syscall_count(168), 0);
    assert_eq!(record.syscall_count(170), 0);
    assert_eq!(record.get_status(), TaskStatus::Ready);
}

#[test]
fn record_keeps_the_time_of_the_first_run() {
    let mut record = TaskRecord::new();
    record.mark_running(100);
    assert_eq!(record.get_status(), TaskStatus::Running);
    assert_eq!(record.snapshot(350).time, 250);
    record.mark_ready();
    assert_eq!(record.get_status(), TaskStatus::Ready);
    record.mark_running(300);
    assert_eq!(record.snapshot(350).time, 250);
    assert_eq!(record.snapshot(99).time, 0);
    record.mark_exited();
    assert_eq!(record.get_status(), TaskStatus::Exited);
    assert_eq!(record.snapshot(usize::MAX).time, usize::MAX - 100);
}
