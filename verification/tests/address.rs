use kernel_mm::address::{page_limit, pages_for, PhysAddr, VirtAddr};
use kernel_mm::config::PAGE_SIZE;

#[test]
fn lengths_round_up_to_whole_pages() {
    assert_eq!(pages_for(0), 0);
    assert_eq!(pages_for(1), 1);
    assert_eq!(pages_for(4095), 1);
    assert_eq!(pages_for(4096), 1);
    assert_eq!(pages_for(4097), 2);
    assert_eq!(pages_for(8192), 2);
    assert_eq!(pages_for(usize::MAX), usize::MAX / PAGE_SIZE + 1);
}

#[test]
fn virtual_address_splits_into_page_and_offset() {
    let va = VirtAddr(0x10abc);
    assert_eq!(va.page_number(), 0x10);
    assert_eq!(va.page_offset(), 0xabc);
    assert!(!va.is_aligned());
    assert!(VirtAddr(0x10000).is_aligned());
    assert!(VirtAddr(0).is_aligned());
    assert_eq!(VirtAddr::from_page(0x10), VirtAddr(0x10000));
}

#[test]
fn physical_address_is_built_from_frame_and_offset() {
    let pa = PhysAddr::from_parts(0x80, 0x123);
    assert_eq!(pa, PhysAddr(0x80123));
    assert_eq!(pa.frame_number(), 0x80);
    assert_eq!(pa.page_offset(), 0x123);
}

#[test]
fn address_space_has_as_many_pages_as_a_word_can_address() {
    assert_eq!(page_limit(), usize::MAX / PAGE_SIZE + 1);
    assert_eq!(VirtAddr(usize::MAX).page_number(), page_limit() - 1);
}
