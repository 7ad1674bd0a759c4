use kernel_mm::address::{page_limit, VirtAddr};
use kernel_mm::address_space::AddressSpace;
use kernel_mm::error::MemError;
use kernel_mm::frame_allocator::FrameAllocator;
use kernel_mm::permission::MapPermission;

fn pool() -> FrameAllocator {
    FrameAllocator::new(0x100, 0x110)
}

#[test]
fn mapping_backs_each_page_with_a_frame_of_its_own() {
    let mut allocator = pool();
    let mut space = AddressSpace::new();
    assert_eq!(space.map(&mut allocator, VirtAddr(0x10000), 3 * 4096, 0x3), Ok(()));
    assert_eq!(allocator.free_count(), 13);
    assert_eq!(space.area_count(), 1);
    let area = space.area(0);
    assert_eq!(area.start_page(), 0x10);
    assert_eq!(area.end_page(), 0x13);
    assert_eq!(area.permission().bits, 22);
    let mut frames = Vec::new();
    for page in 0x10usize..0x13 {
        let (pa, perm) = space.translate(VirtAddr(page * 4096 + 5)).expect("a mapped page");
        assert_eq!(pa.page_offset(), 5);
        assert_eq!(perm.bits, 22);
        assert!(allocator.is_allocated(pa.frame_number()));
        assert_eq!(area.frame_of(page), Some(pa.frame_number()));
        frames.push(pa.frame_number());
    }
    frames.sort();
    frames.dedup();
    assert_eq!(frames.len(), 3);
    assert_eq!(area.frame_of(0x13), None);
    assert_eq!(space.translate(VirtAddr(0x13000)), None);
    assert_eq!(space.translate(VirtAddr(0xffff)), None);
}

#[test]
fn length_is_rounded_up_to_whole_pages() {
    let mut allocator = pool();
    let mut space = AddressSpace::new();
    assert_eq!(space.map(&mut allocator, VirtAddr(0x10000), 4097, 0x1), Ok(()));
    assert_eq!(allocator.free_count(), 14);
    assert!(space.translate(VirtAddr(0x11fff)).is_some());
    assert!(space.translate(VirtAddr(0x12000)).is_none());
    // the same rounding on the way out
    assert_eq!(space.unmap(&mut allocator, VirtAddr(0x10000), 4097), Ok(()));
    assert_eq!(allocator.free_count(), 16);
    assert_eq!(space.area_count(), 0);
}

#[test]
fn misaligned_start_is_refused_first() {
    let mut allocator = pool();
    let mut space = AddressSpace::new();
    assert_eq!(space.map(&mut allocator, VirtAddr(0x10001), 0, 0), Err(MemError::MisalignedAddress));
    assert_eq!(space.unmap(&mut allocator, VirtAddr(0x10fff), 0), Err(MemError::MisalignedAddress));
}

#[test]
fn empty_range_is_an_invalid_length() {
    let mut allocator = pool();
    let mut space = AddressSpace::new();
    assert_eq!(space.map(&mut allocator, VirtAddr(0x10000), 0, 0), Err(MemError::InvalidLength));
    assert_eq!(space.unmap(&mut allocator, VirtAddr(0x10000), 0), Err(MemError::InvalidLength));
}

#[test]
fn range_beyond_the_address_space_is_an_invalid_length() {
    let mut allocator = pool();
    let mut space = AddressSpace::new();
    let last_page = VirtAddr::from_page(page_limit() - 1);
    assert_eq!(space.map(&mut allocator, last_page, 4097, 0x3), Err(MemError::InvalidLength));
    assert_eq!(space.map(&mut allocator, VirtAddr(0x1000), usize::MAX, 0x3), Err(MemError::InvalidLength));
    assert_eq!(space.unmap(&mut allocator, last_page, 2 * 4096), Err(MemError::InvalidLength));
    // the last page of the address space can be mapped
    assert_eq!(space.map(&mut allocator, last_page, 4096, 0x3), Ok(()));
    assert!(space.translate(VirtAddr(usize::MAX)).is_some());
}

#[test]
fn invalid_permission_is_refused() {
    let mut allocator = pool();
    let mut space = AddressSpace::new();
    assert_eq!(space.map(&mut allocator, VirtAddr(0x10000), 4096, 0), Err(MemError::InvalidPermission));
    assert_eq!(space.map(&mut allocator, VirtAddr(0x10000), 4096, 8), Err(MemError::InvalidPermission));
    assert_eq!(allocator.free_count(), 16);
    assert_eq!(space.area_count(), 0);
}

#[test]
fn overlapping_range_is_refused_and_changes_nothing() {
    let mut allocator = pool();
    let mut space = AddressSpace::new();
    assert_eq!(space.map(&mut allocator, VirtAddr(0x10000), 2 * 4096, 0x1), Ok(()));
    let before = space.translate(VirtAddr(0x11000));
    assert_eq!(space.map(&mut allocator, VirtAddr(0x11000), 4096, 0x3), Err(MemError::Overlap));
    assert_eq!(space.map(&mut allocator, VirtAddr(0xf000), 2 * 4096, 0x3), Err(MemError::Overlap));
    assert_eq!(space.map(&mut allocator, VirtAddr(0xf000), 4 * 4096, 0x3), Err(MemError::Overlap));
    assert_eq!(allocator.free_count(), 14);
    assert_eq!(space.area_count(), 1);
    assert_eq!(space.translate(VirtAddr(0x11000)), before);
    assert_eq!(space.translate(VirtAddr(0xf000)), None);
    assert_eq!(space.translate(VirtAddr(0x12000)), None);
    // a neighbour that shares no page is accepted
    assert_eq!(space.map(&mut allocator, VirtAddr(0x12000), 4096, 0x3), Ok(()));
    assert_eq!(space.map(&mut allocator, VirtAddr(0xf000), 4096, 0x3), Ok(()));
}

#[test]
fn exhausted_pool_is_out_of_memory_and_changes_nothing() {
    let mut allocator = FrameAllocator::new(0, 3);
    let mut space = AddressSpace::new();
    assert_eq!(space.map(&mut allocator, VirtAddr(0x10000), 4096, 0x3), Ok(()));
    assert_eq!(space.map(&mut allocator, VirtAddr(0x20000), 3 * 4096, 0x3), Err(MemError::OutOfMemory));
    assert_eq!(allocator.free_count(), 2);
    assert_eq!(space.area_count(), 1);
    assert_eq!(space.translate(VirtAddr(0x20000)), None);
    assert_eq!(space.map(&mut allocator, VirtAddr(0x20000), 2 * 4096, 0x3), Ok(()));
    assert_eq!(allocator.free_count(), 0);
}

#[test]
fn unmapping_a_range_with_an_unmapped_page_changes_nothing() {
    let mut allocator = pool();
    let mut space = AddressSpace::new();
    assert_eq!(space.unmap(&mut allocator, VirtAddr(0x10000), 4096), Err(MemError::NotMapped));
    assert_eq!(space.map(&mut allocator, VirtAddr(0x10000), 2 * 4096, 0x3), Ok(()));
    assert_eq!(space.unmap(&mut allocator, VirtAddr(0x10000), 3 * 4096), Err(MemError::NotMapped));
    assert_eq!(space.unmap(&mut allocator, VirtAddr(0xf000), 3 * 4096), Err(MemError::NotMapped));
    assert_eq!(allocator.free_count(), 14);
    assert_eq!(space.area_count(), 1);
    assert!(space.translate(VirtAddr(0x10000)).is_some());
    assert!(space.translate(VirtAddr(0x11000)).is_some());
}

#[test]
fn an_area_is_not_unmapped_in_part() {
    let mut allocator = pool();
    let mut space = AddressSpace::new();
    assert_eq!(space.map(&mut allocator, VirtAddr(0x10000), 3 * 4096, 0x3), Ok(()));
    assert_eq!(space.unmap(&mut allocator, VirtAddr(0x10000), 4096), Err(MemError::NotMapped));
    assert_eq!(space.unmap(&mut allocator, VirtAddr(0x11000), 4096), Err(MemError::NotMapped));
    assert_eq!(space.unmap(&mut allocator, VirtAddr(0x11000), 2 * 4096), Err(MemError::NotMapped));
    assert_eq!(allocator.free_count(), 13);
    assert_eq!(space.unmap(&mut allocator, VirtAddr(0x10000), 3 * 4096), Ok(()));
    assert_eq!(allocator.free_count(), 16);
}

#[test]
fn a_range_of_several_whole_areas_is_unmapped_at_once() {
    let mut allocator = pool();
    let mut space = AddressSpace::new();
    assert_eq!(space.map(&mut allocator, VirtAddr(0x12000), 4096, 0x1), Ok(()));
    assert_eq!(space.map(&mut allocator, VirtAddr(0x10000), 2 * 4096, 0x3), Ok(()));
    assert_eq!(space.map(&mut allocator, VirtAddr(0x13000), 4096, 0x5), Ok(()));
    assert_eq!(space.map(&mut allocator, VirtAddr(0x20000), 4096, 0x7), Ok(()));
    assert_eq!(allocator.free_count(), 11);
    assert_eq!(space.unmap(&mut allocator, VirtAddr(0x10000), 3 * 4096), Ok(()));
    assert_eq!(allocator.free_count(), 14);
    assert_eq!(space.area_count(), 2);
    assert_eq!(space.translate(VirtAddr(0x10000)), None);
    assert_eq!(space.translate(VirtAddr(0x12000)), None);
    assert!(space.translate(VirtAddr(0x13000)).is_some());
    assert!(space.translate(VirtAddr(0x20000)).is_some());
    assert_eq!(space.area(0).start_page(), 0x13);
    assert_eq!(space.area(1).start_page(), 0x20);
}

#[test]
fn clearing_gives_every_frame_back() {
    let mut allocator = pool();
    let mut space = AddressSpace::new();
    assert_eq!(space.map(&mut allocator, VirtAddr(0x10000), 2 * 4096, 0x3), Ok(()));
    assert_eq!(space.map(&mut allocator, VirtAddr(0x30000), 5 * 4096, 0x1), Ok(()));
    assert_eq!(allocator.free_count(), 9);
    space.clear(&mut allocator);
    assert_eq!(allocator.free_count(), 16);
    assert_eq!(space.area_count(), 0);
    assert_eq!(space.translate(VirtAddr(0x10000)), None);
    assert_eq!(space.translate(VirtAddr(0x30000)), None);
}

#[test]
fn access_is_checked_on_every_page_that_a_buffer_touches() {
    let mut allocator = pool();
    let mut space = AddressSpace::new();
    assert_eq!(space.map(&mut allocator, VirtAddr(0x10000), 4096, 0x3), Ok(()));
    assert_eq!(space.map(&mut allocator, VirtAddr(0x11000), 4096, 0x1), Ok(()));
    let write = MapPermission::user_read_write();
    let read = MapPermission::user_read();
    assert!(space.check_access(VirtAddr(0x10ff0), 16, write));
    assert!(!space.check_access(VirtAddr(0x10ff0), 17, write));
    assert!(space.check_access(VirtAddr(0x10ff0), 17, read));
    assert!(space.check_access(VirtAddr(0x10000), 2 * 4096, read));
    assert!(!space.check_access(VirtAddr(0x10000), 2 * 4096 + 1, read));
    assert!(!space.check_access(VirtAddr(0xffff), 2, read));
    assert!(space.check_access(VirtAddr(0x50000), 0, write));
    assert!(!space.check_access(VirtAddr(usize::MAX), 2, read));
}

#[test]
fn buffer_translation_follows_the_frames_page_by_page() {
    let mut allocator = pool();
    let mut space = AddressSpace::new();
    assert_eq!(space.map(&mut allocator, VirtAddr(0x11000), 4096, 0x3), Ok(()));
    assert_eq!(space.map(&mut allocator, VirtAddr(0x10000), 4096, 0x3), Ok(()));
    let found = space
        .translate_buffer(VirtAddr(0x10ffe), 4, MapPermission::user_read_write())
        .expect("an accessible buffer");
    assert_eq!(found.len(), 4);
    let (low, _) = space.translate(VirtAddr(0x10000)).expect("a mapped page");
    let (high, _) = space.translate(VirtAddr(0x11000)).expect("a mapped page");
    assert_ne!(low.frame_number(), high.frame_number());
    assert_eq!(found[0].0, low.0 + 0xffe);
    assert_eq!(found[1].0, low.0 + 0xfff);
    assert_eq!(found[2].0, high.0);
    assert_eq!(found[3].0, high.0 + 1);
    assert_eq!(
        space.translate_buffer(VirtAddr(0x11ffe), 4, MapPermission::user_read_write()),
        Err(MemError::TranslationFault)
    );
}

#[test]
fn new_address_space_has_nothing_mapped() {
    let mut allocator = pool();
    let mut space = AddressSpace::new();
    assert_eq!(space.area_count(), 0);
    assert_eq!(space.translate(VirtAddr(0)), None);
    assert_eq!(space.translate(VirtAddr(0x10000)), None);
    assert!(!space.check_access(VirtAddr(0x10000), 1, MapPermission::user_read()));
    // clearing it gives nothing back
    space.clear(&mut allocator);
    assert_eq!(allocator.free_count(), 16);
}
