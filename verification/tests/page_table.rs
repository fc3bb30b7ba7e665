use kernel_core::config::{MAX_FRAMES, MAX_VPN, PAGE_SIZE, TABLE_ENTRIES};
use kernel_core::frame::FrameAllocator;
use kernel_core::page_table::{permission_ok, PageTable, PageTableEntry, PageTableError};

fn table_with(frames: usize) -> (PageTable, FrameAllocator) {
    let mut allocator = FrameAllocator::new(frames).unwrap();
    let table = PageTable::new(&mut allocator).unwrap();
    (table, allocator)
}

#[test]
fn a_new_table_takes_one_frame_and_maps_nothing() {
    let (table, allocator) = table_with(8);
    assert_eq!(allocator.available(), 7);
    assert!(!allocator.is_free(0));
    assert_eq!(table.lookup(0), None);
    assert_eq!(table.translate(0x10000), None);
    assert!(!table.has_table(0));
}

#[test]
fn no_table_without_a_free_frame() {
    let mut allocator = FrameAllocator::new(0).unwrap();
    assert!(PageTable::new(&mut allocator).is_none());
}

#[test]
fn map_installs_an_entry_and_a_leaf_table() {
    let (mut table, mut allocator) = table_with(8);
    assert_eq!(table.map(&mut allocator, 16, 5, 0b011), Ok(()));
    assert_eq!(table.lookup(16), Some(PageTableEntry { frame: 5, perms: 0b011 }));
    assert!(table.has_table(0));
    assert!(!table.has_table(1));
    // the leaf table took frame 1
    assert_eq!(allocator.available(), 6);
    assert!(!allocator.is_free(1));
    // a second page under the same leaf table takes no frame
    assert_eq!(table.map(&mut allocator, 17, 6, 0b001), Ok(()));
    assert_eq!(allocator.available(), 6);
}

#[test]
fn translate_keeps_the_offset_within_the_page() {
    let (mut table, mut allocator) = table_with(8);
    table.map(&mut allocator, 16, 5, 0b011).unwrap();
    assert_eq!(table.translate(16 * PAGE_SIZE), Some(5 * PAGE_SIZE));
    assert_eq!(table.translate(16 * PAGE_SIZE + 123), Some(5 * PAGE_SIZE + 123));
    assert_eq!(table.translate(16 * PAGE_SIZE + 4095), Some(5 * PAGE_SIZE + 4095));
    assert_eq!(table.translate(17 * PAGE_SIZE), None);
    assert_eq!(table.translate(15 * PAGE_SIZE + 4095), None);
    assert_eq!(table.translate(usize::MAX), None);
}

#[test]
fn map_refuses_a_mapped_page() {
    let (mut table, mut allocator) = table_with(8);
    table.map(&mut allocator, 16, 5, 0b011).unwrap();
    assert_eq!(table.map(&mut allocator, 16, 6, 0b001), Err(PageTableError::AlreadyMapped));
    assert_eq!(table.lookup(16), Some(PageTableEntry { frame: 5, perms: 0b011 }));
}

#[test]
fn map_refuses_useless_access_bits() {
    let (mut table, mut allocator) = table_with(8);
    assert_eq!(table.map(&mut allocator, 16, 5, 0), Err(PageTableError::InvalidPermission));
    assert_eq!(table.map(&mut allocator, 16, 5, 8), Err(PageTableError::InvalidPermission));
    assert_eq!(table.map(&mut allocator, 16, 5, 0b1011), Err(PageTableError::InvalidPermission));
    assert_eq!(table.lookup(16), None);
    assert_eq!(allocator.available(), 7);
    for perms in 1..=7 {
        assert!(permission_ok(perms));
    }
    assert!(!permission_ok(0));
    assert!(!permission_ok(8));
}

#[test]
fn map_refuses_what_lies_outside_the_machine() {
    let (mut table, mut allocator) = table_with(8);
    assert_eq!(table.map(&mut allocator, MAX_VPN, 5, 1), Err(PageTableError::InvalidAddress));
    assert_eq!(table.map(&mut allocator, 0, MAX_FRAMES, 1), Err(PageTableError::InvalidAddress));
    assert_eq!(table.map(&mut allocator, MAX_VPN - 1, MAX_FRAMES - 1, 1), Ok(()));
}

#[test]
fn map_fails_without_a_frame_for_the_leaf_table() {
    let (mut table, mut allocator) = table_with(2);
    assert_eq!(table.map(&mut allocator, 16, 5, 1), Ok(()));
    assert_eq!(allocator.available(), 0);
    // same leaf table: no frame needed
    assert_eq!(table.map(&mut allocator, 17, 6, 1), Ok(()));
    // another leaf table: none to be had
    assert_eq!(table.map(&mut allocator, TABLE_ENTRIES, 7, 1), Err(PageTableError::OutOfMemory));
    assert_eq!(table.lookup(TABLE_ENTRIES), None);
    assert!(!table.has_table(1));
}

#[test]
fn unmap_returns_the_frame_and_drops_an_empty_leaf_table() {
    let (mut table, mut allocator) = table_with(8);
    table.map(&mut allocator, 16, 5, 0b011).unwrap();
    table.map(&mut allocator, 17, 6, 0b011).unwrap();
    assert_eq!(allocator.available(), 6);
    assert_eq!(table.unmap(&mut allocator, 16), Ok(5));
    assert_eq!(table.lookup(16), None);
    assert!(table.has_table(0));
    assert_eq!(allocator.available(), 6);
    assert_eq!(table.unmap(&mut allocator, 17), Ok(6));
    assert!(!table.has_table(0));
    assert_eq!(allocator.available(), 7);
    assert!(allocator.is_free(1));
}

#[test]
fn unmap_refuses_an_unmapped_page() {
    let (mut table, mut allocator) = table_with(8);
    assert_eq!(table.unmap(&mut allocator, 16), Err(PageTableError::NotMapped));
    table.map(&mut allocator, 16, 5, 0b011).unwrap();
    assert_eq!(table.unmap(&mut allocator, 17), Err(PageTableError::NotMapped));
    assert_eq!(table.unmap(&mut allocator, MAX_VPN), Err(PageTableError::NotMapped));
    assert_eq!(table.lookup(16), Some(PageTableEntry { frame: 5, perms: 0b011 }));
}

#[test]
fn release_frees_the_directory() {
    let (mut table, mut allocator) = table_with(8);
    table.map(&mut allocator, 16, 5, 0b011).unwrap();
    table.unmap(&mut allocator, 16).unwrap();
    table.release(&mut allocator);
    assert_eq!(allocator.available(), 8);
}
