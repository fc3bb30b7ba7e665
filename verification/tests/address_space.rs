use kernel_core::address_space::{AddressSpace, MmapError, MunmapError};
use kernel_core::config::{pages_for, ADDRESS_LIMIT, HEAP_PERMISSION, PAGE_SIZE};
use kernel_core::frame::FrameAllocator;
use kernel_core::page_table::PageTableEntry;
use kernel_core::region::{MemoryRegion, RegionKind};

const HEAP: usize = 0x20000;

fn space_with(frames: usize) -> (AddressSpace, FrameAllocator) {
    let mut allocator = FrameAllocator::new(frames).unwrap();
    let space = AddressSpace::new(&mut allocator, HEAP).unwrap();
    (space, allocator)
}

fn regions_of(space: &AddressSpace) -> Vec<MemoryRegion> {
    let mut all = Vec::new();
    for i in 0..space.region_count() {
        all.push(space.region(i).unwrap());
    }
    all
}

fn mmap_region(start: usize, end: usize, perms: usize) -> MemoryRegion {
    MemoryRegion { start, end, perms, kind: RegionKind::Mmap }
}

#[test]
fn pages_for_rounds_up() {
    assert_eq!(pages_for(0), 0);
    assert_eq!(pages_for(1), 1);
    assert_eq!(pages_for(4095), 1);
    assert_eq!(pages_for(4096), 1);
    assert_eq!(pages_for(4097), 2);
    assert_eq!(pages_for(3 * 4096), 3);
    assert_eq!(pages_for(usize::MAX), usize::MAX / 4096 + 1);
}

#[test]
fn a_new_space_has_an_empty_heap() {
    let (space, allocator) = space_with(16);
    assert_eq!(allocator.available(), 15);
    assert_eq!(space.heap_bottom(), HEAP);
    assert_eq!(space.program_break(), HEAP);
    assert_eq!(
        regions_of(&space),
        vec![MemoryRegion { start: 32, end: 32, perms: HEAP_PERMISSION, kind: RegionKind::Heap }]
    );
    assert_eq!(space.region(1), None);
    assert_eq!(space.lookup(32), None);
}

#[test]
fn a_new_space_needs_an_aligned_heap_and_a_frame() {
    let mut allocator = FrameAllocator::new(16).unwrap();
    assert!(matches!(AddressSpace::new(&mut allocator, HEAP + 1), Err(MmapError::InvalidAddress)));
    assert!(matches!(
        AddressSpace::new(&mut allocator, ADDRESS_LIMIT + PAGE_SIZE),
        Err(MmapError::InvalidAddress)
    ));
    assert_eq!(allocator.available(), 16);
    assert!(AddressSpace::new(&mut allocator, ADDRESS_LIMIT).is_ok());
    let mut none = FrameAllocator::new(0).unwrap();
    assert!(matches!(AddressSpace::new(&mut none, HEAP), Err(MmapError::OutOfMemory)));
}

#[test]
fn mmap_backs_every_page_with_a_frame_of_its_own() {
    let (mut space, mut allocator) = space_with(16);
    assert_eq!(space.mmap(&mut allocator, 0x10000, 2 * PAGE_SIZE + 1, 0b011), Ok(()));
    assert_eq!(regions_of(&space)[1], mmap_region(16, 19, 0b011));
    // three pages and one leaf table
    assert_eq!(allocator.available(), 15 - 4);
    let a = space.lookup(16).unwrap();
    let b = space.lookup(17).unwrap();
    let c = space.lookup(18).unwrap();
    assert_eq!(a.perms, 0b011);
    assert_eq!(b.perms, 0b011);
    assert_eq!(c.perms, 0b011);
    assert!(a.frame != b.frame && b.frame != c.frame && a.frame != c.frame);
    assert_eq!(space.lookup(19), None);
    assert_eq!(space.lookup(15), None);
    assert_eq!(space.translate(0x10000 + 7), Some(a.frame * PAGE_SIZE + 7));
    assert_eq!(space.translate(0x12000 + 4095), Some(c.frame * PAGE_SIZE + 4095));
    assert_eq!(space.translate(0x13000), None);
}

#[test]
fn the_first_page_gets_the_first_free_frame() {
    let (mut space, mut allocator) = space_with(16);
    space.mmap(&mut allocator, 0x10000, PAGE_SIZE, 0b101).unwrap();
    // frame 0 holds the directory, frame 1 the page, frame 2 the leaf table
    assert_eq!(space.lookup(16), Some(PageTableEntry { frame: 1, perms: 0b101 }));
    assert!(!allocator.is_free(2));
    assert!(allocator.is_free(3));
    assert_eq!(space.translate(0x10005), Some(4096 + 5));
}

#[test]
fn mmap_counts_a_leaf_table_for_every_span_it_enters() {
    let (mut space, mut allocator) = space_with(16);
    // pages 511 and 512 lie under two leaf tables
    assert_eq!(space.mmap(&mut allocator, 511 * PAGE_SIZE, 2 * PAGE_SIZE, 1), Ok(()));
    assert_eq!(allocator.available(), 15 - 4);
    // page 513 lies under a leaf table that exists
    assert_eq!(space.mmap(&mut allocator, 513 * PAGE_SIZE, PAGE_SIZE, 1), Ok(()));
    assert_eq!(allocator.available(), 15 - 5);
}

#[test]
fn mmap_refuses_an_unaligned_start() {
    let (mut space, mut allocator) = space_with(16);
    assert_eq!(space.mmap(&mut allocator, 0x10001, PAGE_SIZE, 0b011), Err(MmapError::InvalidAddress));
    // the address is checked before the access bits
    assert_eq!(space.mmap(&mut allocator, 0x10001, PAGE_SIZE, 0), Err(MmapError::InvalidAddress));
    assert_eq!(space.region_count(), 1);
    assert_eq!(allocator.available(), 15);
}

#[test]
fn mmap_refuses_a_range_beyond_the_address_space() {
    let (mut space, mut allocator) = space_with(16);
    assert_eq!(space.mmap(&mut allocator, ADDRESS_LIMIT, PAGE_SIZE, 1), Err(MmapError::InvalidAddress));
    assert_eq!(
        space.mmap(&mut allocator, ADDRESS_LIMIT - PAGE_SIZE, PAGE_SIZE + 1, 1),
        Err(MmapError::InvalidAddress)
    );
    assert_eq!(space.mmap(&mut allocator, 0, usize::MAX, 1), Err(MmapError::InvalidAddress));
    assert_eq!(space.mmap(&mut allocator, ADDRESS_LIMIT - PAGE_SIZE, PAGE_SIZE, 1), Ok(()));
}

#[test]
fn mmap_refuses_useless_access_bits() {
    let (mut space, mut allocator) = space_with(16);
    assert_eq!(space.mmap(&mut allocator, 0x10000, PAGE_SIZE, 0), Err(MmapError::InvalidPermission));
    assert_eq!(space.mmap(&mut allocator, 0x10000, PAGE_SIZE, 8), Err(MmapError::InvalidPermission));
    assert_eq!(space.mmap(&mut allocator, 0x10000, PAGE_SIZE, 0b1111), Err(MmapError::InvalidPermission));
    assert_eq!(space.mmap(&mut allocator, 0x10000, PAGE_SIZE, usize::MAX), Err(MmapError::InvalidPermission));
    assert_eq!(space.region_count(), 1);
    assert_eq!(space.lookup(16), None);
    assert_eq!(allocator.available(), 15);
}

#[test]
fn mmap_refuses_a_range_that_meets_a_region() {
    let (mut space, mut allocator) = space_with(32);
    space.mmap(&mut allocator, 0x10000, 2 * PAGE_SIZE, 0b011).unwrap();
    let free = allocator.available();
    let before = regions_of(&space);
    assert_eq!(space.mmap(&mut allocator, 0x10000, PAGE_SIZE, 0b011), Err(MmapError::Overlap));
    assert_eq!(space.mmap(&mut allocator, 0x11000, PAGE_SIZE, 0b001), Err(MmapError::Overlap));
    assert_eq!(space.mmap(&mut allocator, 0xF000, 2 * PAGE_SIZE, 0b001), Err(MmapError::Overlap));
    assert_eq!(space.mmap(&mut allocator, 0xF000, 8 * PAGE_SIZE, 0b001), Err(MmapError::Overlap));
    assert_eq!(regions_of(&space), before);
    assert_eq!(allocator.available(), free);
    assert_eq!(space.lookup(15), None);
    assert_eq!(space.lookup(18), None);
    // right next to it is fine
    assert_eq!(space.mmap(&mut allocator, 0x12000, PAGE_SIZE, 0b001), Ok(()));
    assert_eq!(space.mmap(&mut allocator, 0xF000, PAGE_SIZE, 0b001), Ok(()));
}

#[test]
fn mmap_fails_as_a_whole_when_frames_run_short() {
    // one frame for the directory, three left: not enough for three pages and a leaf table
    let (mut space, mut allocator) = space_with(4);
    assert_eq!(space.mmap(&mut allocator, 0x10000, 3 * PAGE_SIZE, 0b011), Err(MmapError::OutOfMemory));
    assert_eq!(allocator.available(), 3);
    assert_eq!(space.region_count(), 1);
    assert_eq!(space.lookup(16), None);
    assert_eq!(space.lookup(17), None);
    // two pages and a leaf table fit exactly
    assert_eq!(space.mmap(&mut allocator, 0x10000, 2 * PAGE_SIZE, 0b011), Ok(()));
    assert_eq!(allocator.available(), 0);
}

#[test]
fn mmap_of_no_bytes_changes_nothing() {
    let (mut space, mut allocator) = space_with(4);
    assert_eq!(space.mmap(&mut allocator, 0x10000, 0, 0b011), Ok(()));
    assert_eq!(space.region_count(), 1);
    assert_eq!(allocator.available(), 3);
}

#[test]
fn mmap_then_munmap_restores_everything() {
    let (mut space, mut allocator) = space_with(32);
    space.mmap(&mut allocator, 0x30000, PAGE_SIZE, 0b001).unwrap();
    let regions = regions_of(&space);
    let free = allocator.available();
    let mut free_frames = Vec::new();
    for f in 0..32 {
        free_frames.push(allocator.is_free(f));
    }
    let kept = space.lookup(0x30);

    assert_eq!(space.mmap(&mut allocator, 511 * PAGE_SIZE, 3 * PAGE_SIZE, 0b011), Ok(()));
    assert_ne!(allocator.available(), free);
    assert_eq!(space.munmap(&mut allocator, 511 * PAGE_SIZE, 3 * PAGE_SIZE), Ok(()));

    assert_eq!(regions_of(&space), regions);
    assert_eq!(allocator.available(), free);
    for f in 0..32 {
        assert_eq!(allocator.is_free(f), free_frames[f]);
    }
    assert_eq!(space.lookup(0x30), kept);
    assert_eq!(space.lookup(511), None);
    assert_eq!(space.lookup(512), None);
    assert_eq!(space.lookup(513), None);
}

#[test]
fn munmap_can_split_a_region() {
    let (mut space, mut allocator) = space_with(32);
    space.mmap(&mut allocator, 0x10000, 3 * PAGE_SIZE, 0b011).unwrap();
    let free = allocator.available();
    assert_eq!(space.munmap(&mut allocator, 0x11000, PAGE_SIZE), Ok(()));
    assert_eq!(
        regions_of(&space)[1..].to_vec(),
        vec![mmap_region(16, 17, 0b011), mmap_region(18, 19, 0b011)]
    );
    assert_eq!(allocator.available(), free + 1);
    assert!(space.lookup(16).is_some());
    assert_eq!(space.lookup(17), None);
    assert!(space.lookup(18).is_some());
    // the hole can be mapped again, with other access bits
    assert_eq!(space.mmap(&mut allocator, 0x11000, PAGE_SIZE, 0b100), Ok(()));
    assert_eq!(space.lookup(17).unwrap().perms, 0b100);
}

#[test]
fn munmap_can_shrink_a_region_at_either_end() {
    let (mut space, mut allocator) = space_with(32);
    space.mmap(&mut allocator, 0x10000, 4 * PAGE_SIZE, 0b011).unwrap();
    assert_eq!(space.munmap(&mut allocator, 0x10000, PAGE_SIZE), Ok(()));
    assert_eq!(regions_of(&space)[1..].to_vec(), vec![mmap_region(17, 20, 0b011)]);
    assert_eq!(space.munmap(&mut allocator, 0x13000, 1), Ok(()));
    assert_eq!(regions_of(&space)[1..].to_vec(), vec![mmap_region(17, 19, 0b011)]);
}

#[test]
fn munmap_can_take_pages_of_several_regions() {
    let (mut space, mut allocator) = space_with(32);
    space.mmap(&mut allocator, 0x10000, 2 * PAGE_SIZE, 0b011).unwrap();
    space.mmap(&mut allocator, 0x12000, 2 * PAGE_SIZE, 0b001).unwrap();
    assert_eq!(space.munmap(&mut allocator, 0x11000, 2 * PAGE_SIZE), Ok(()));
    assert_eq!(
        regions_of(&space)[1..].to_vec(),
        vec![mmap_region(16, 17, 0b011), mmap_region(19, 20, 0b001)]
    );
    assert_eq!(space.munmap(&mut allocator, 0x10000, PAGE_SIZE), Ok(()));
    assert_eq!(space.munmap(&mut allocator, 0x13000, PAGE_SIZE), Ok(()));
    assert_eq!(space.region_count(), 1);
    assert_eq!(allocator.available(), 31);
}

#[test]
fn munmap_refuses_an_unaligned_start() {
    let (mut space, mut allocator) = space_with(32);
    space.mmap(&mut allocator, 0x10000, 2 * PAGE_SIZE, 0b011).unwrap();
    assert_eq!(space.munmap(&mut allocator, 0x10800, PAGE_SIZE), Err(MunmapError::InvalidAddress));
    assert!(space.lookup(16).is_some());
    assert!(space.lookup(17).is_some());
}

#[test]
fn munmap_refuses_a_range_that_is_not_mapped_in_full() {
    let (mut space, mut allocator) = space_with(32);
    space.mmap(&mut allocator, 0x10000, 2 * PAGE_SIZE, 0b011).unwrap();
    let regions = regions_of(&space);
    let free = allocator.available();
    // one page too many
    assert_eq!(space.munmap(&mut allocator, 0x10000, 3 * PAGE_SIZE), Err(MunmapError::NotMapped));
    // one page too early
    assert_eq!(space.munmap(&mut allocator, 0xF000, 2 * PAGE_SIZE), Err(MunmapError::NotMapped));
    // nothing there at all
    assert_eq!(space.munmap(&mut allocator, 0x40000, PAGE_SIZE), Err(MunmapError::NotMapped));
    // beyond the address space
    assert_eq!(space.munmap(&mut allocator, ADDRESS_LIMIT, PAGE_SIZE), Err(MunmapError::NotMapped));
    assert_eq!(space.munmap(&mut allocator, 0x10000, usize::MAX), Err(MunmapError::NotMapped));
    assert_eq!(regions_of(&space), regions);
    assert_eq!(allocator.available(), free);
    assert!(space.lookup(16).is_some());
    assert!(space.lookup(17).is_some());
}

#[test]
fn munmap_refuses_pages_of_other_kinds_of_region() {
    let (mut space, mut allocator) = space_with(32);
    assert_eq!(space.map_code(&mut allocator, 0x1000, 2 * PAGE_SIZE, 0b101), Ok(()));
    assert_eq!(space.map_stack(&mut allocator, 0x8000, PAGE_SIZE, 0b011), Ok(()));
    assert_eq!(space.adjust_break(&mut allocator, 10), Some(HEAP));
    assert_eq!(
        regions_of(&space),
        vec![
            MemoryRegion { start: 32, end: 33, perms: HEAP_PERMISSION, kind: RegionKind::Heap },
            MemoryRegion { start: 1, end: 3, perms: 0b101, kind: RegionKind::Code },
            MemoryRegion { start: 8, end: 9, perms: 0b011, kind: RegionKind::Stack },
        ]
    );
    assert_eq!(space.munmap(&mut allocator, 0x1000, PAGE_SIZE), Err(MunmapError::NotMapped));
    assert_eq!(space.munmap(&mut allocator, 0x8000, PAGE_SIZE), Err(MunmapError::NotMapped));
    assert_eq!(space.munmap(&mut allocator, HEAP, PAGE_SIZE), Err(MunmapError::NotMapped));
    assert_eq!(space.region_count(), 3);
    // and a mapping request may not land on them
    assert_eq!(space.mmap(&mut allocator, 0x2000, PAGE_SIZE, 1), Err(MmapError::Overlap));
    assert_eq!(space.mmap(&mut allocator, HEAP, PAGE_SIZE, 1), Err(MmapError::Overlap));
}

#[test]
fn munmap_of_no_bytes_changes_nothing() {
    let (mut space, mut allocator) = space_with(32);
    space.mmap(&mut allocator, 0x10000, 2 * PAGE_SIZE, 0b011).unwrap();
    let regions = regions_of(&space);
    assert_eq!(space.munmap(&mut allocator, 0x10000, 0), Ok(()));
    assert_eq!(space.munmap(&mut allocator, 0x50000, 0), Ok(()));
    assert_eq!(regions_of(&space), regions);
}

#[test]
fn the_break_moves_within_a_page_without_frames() {
    let (mut space, mut allocator) = space_with(32);
    assert_eq!(space.adjust_break(&mut allocator, 100), Some(HEAP));
    assert_eq!(space.program_break(), HEAP + 100);
    // the first byte of heap brought a page and its leaf table
    assert_eq!(allocator.available(), 31 - 2);
    assert_eq!(space.lookup(32).unwrap().perms, HEAP_PERMISSION);
    assert_eq!(space.adjust_break(&mut allocator, 3996), Some(HEAP + 100));
    assert_eq!(space.program_break(), HEAP + 4096);
    assert_eq!(allocator.available(), 31 - 2);
    assert_eq!(space.lookup(33), None);
    assert_eq!(space.adjust_break(&mut allocator, 1), Some(HEAP + 4096));
    assert!(space.lookup(33).is_some());
    assert_eq!(allocator.available(), 31 - 3);
    assert_eq!(space.adjust_break(&mut allocator, 0), Some(HEAP + 4097));
    assert_eq!(space.program_break(), HEAP + 4097);
}

#[test]
fn growing_and_shrinking_the_heap_restores_the_break() {
    let (mut space, mut allocator) = space_with(32);
    space.adjust_break(&mut allocator, 5000).unwrap();
    let free = allocator.available();
    assert_eq!(space.adjust_break(&mut allocator, 3 * 4096), Some(HEAP + 5000));
    assert_eq!(space.program_break(), HEAP + 5000 + 3 * 4096);
    assert_eq!(allocator.available(), free - 3);
    assert_eq!(space.adjust_break(&mut allocator, -3 * 4096), Some(HEAP + 5000 + 3 * 4096));
    assert_eq!(space.program_break(), HEAP + 5000);
    assert_eq!(allocator.available(), free);
    assert_eq!(space.region(0).unwrap().end, 34);
    assert_eq!(space.lookup(34), None);

    assert_eq!(space.adjust_break(&mut allocator, -5000), Some(HEAP + 5000));
    assert_eq!(space.adjust_break(&mut allocator, 5000), Some(HEAP));
    assert_eq!(space.program_break(), HEAP + 5000);
    assert_eq!(allocator.available(), free);
}

#[test]
fn the_break_cannot_fall_below_the_heap() {
    let (mut space, mut allocator) = space_with(32);
    assert_eq!(space.adjust_break(&mut allocator, -1), None);
    space.adjust_break(&mut allocator, 100).unwrap();
    assert_eq!(space.adjust_break(&mut allocator, -101), None);
    assert_eq!(space.adjust_break(&mut allocator, isize::MIN), None);
    assert_eq!(space.program_break(), HEAP + 100);
    assert_eq!(space.adjust_break(&mut allocator, -100), Some(HEAP + 100));
    assert_eq!(space.program_break(), HEAP);
    assert_eq!(allocator.available(), 31);
}

#[test]
fn the_heap_cannot_grow_into_another_region() {
    let (mut space, mut allocator) = space_with(32);
    space.mmap(&mut allocator, HEAP + PAGE_SIZE, PAGE_SIZE, 0b001).unwrap();
    let free = allocator.available();
    assert_eq!(space.adjust_break(&mut allocator, 4096), Some(HEAP));
    assert_eq!(space.adjust_break(&mut allocator, 1), None);
    assert_eq!(space.program_break(), HEAP + 4096);
    assert_eq!(allocator.available(), free - 1);
    space.munmap(&mut allocator, HEAP + PAGE_SIZE, PAGE_SIZE).unwrap();
    assert_eq!(space.adjust_break(&mut allocator, 1), Some(HEAP + 4096));
}

#[test]
fn the_heap_cannot_grow_without_frames_or_address_space() {
    let (mut space, mut allocator) = space_with(3);
    assert_eq!(space.adjust_break(&mut allocator, 4097), None);
    assert_eq!(allocator.available(), 2);
    assert_eq!(space.program_break(), HEAP);
    assert_eq!(space.adjust_break(&mut allocator, 4096), Some(HEAP));
    assert_eq!(allocator.available(), 0);
    assert_eq!(space.adjust_break(&mut allocator, isize::MAX), None);
    assert_eq!(space.adjust_break(&mut allocator, (ADDRESS_LIMIT - HEAP) as isize), None);
}

#[test]
fn release_gives_every_frame_back() {
    let (mut space, mut allocator) = space_with(32);
    space.map_code(&mut allocator, 0, 3 * PAGE_SIZE, 0b101).unwrap();
    space.mmap(&mut allocator, 600 * PAGE_SIZE, 2 * PAGE_SIZE, 0b011).unwrap();
    space.adjust_break(&mut allocator, 10000).unwrap();
    assert!(allocator.available() < 31);
    space.release(&mut allocator);
    assert_eq!(allocator.available(), 32);
    for f in 0..32 {
        assert!(allocator.is_free(f));
    }
}

#[test]
fn mmap_then_munmap_restores_the_order_of_the_free_list() {
    let (mut space, mut allocator) = space_with(32);
    let (mut twin_space, mut twin_allocator) = space_with(32);
    space.mmap(&mut allocator, 0x30000, PAGE_SIZE, 0b001).unwrap();
    twin_space.mmap(&mut twin_allocator, 0x30000, PAGE_SIZE, 0b001).unwrap();

    space.mmap(&mut allocator, 510 * PAGE_SIZE, 5 * PAGE_SIZE, 0b011).unwrap();
    space.munmap(&mut allocator, 510 * PAGE_SIZE, 5 * PAGE_SIZE).unwrap();

    // both allocators hand out the same frames in the same order from here on
    loop {
        let next = allocator.allocate();
        assert_eq!(next, twin_allocator.allocate());
        if next.is_none() {
            break;
        }
    }
    assert_eq!(regions_of(&space), regions_of(&twin_space));
}

#[test]
fn shrinking_and_growing_the_heap_gives_the_pages_their_frames_back() {
    let (mut space, mut allocator) = space_with(32);
    space.adjust_break(&mut allocator, 3 * 4096).unwrap();
    let frames: Vec<PageTableEntry> = (32..35).map(|p| space.lookup(p).unwrap()).collect();
    let free = allocator.available();
    assert_eq!(space.adjust_break(&mut allocator, -3 * 4096), Some(HEAP + 3 * 4096));
    assert_eq!(space.lookup(32), None);
    assert_eq!(allocator.available(), free + 4);
    assert_eq!(space.adjust_break(&mut allocator, 3 * 4096), Some(HEAP));
    let again: Vec<PageTableEntry> = (32..35).map(|p| space.lookup(p).unwrap()).collect();
    assert_eq!(again, frames);
    assert_eq!(allocator.available(), free);
}

#[test]
fn access_bits_read_as_read_write_execute() {
    let (mut space, mut allocator) = space_with(32);
    space.mmap(&mut allocator, 0x10000, PAGE_SIZE, 0b001).unwrap();
    space.mmap(&mut allocator, 0x11000, PAGE_SIZE, 0b110).unwrap();
    let a = space.lookup(16).unwrap();
    let b = space.lookup(17).unwrap();
    assert!(a.readable() && !a.writable() && !a.executable());
    assert!(!b.readable() && b.writable() && b.executable());
    let heap = PageTableEntry { frame: 0, perms: HEAP_PERMISSION };
    assert!(heap.readable() && heap.writable() && !heap.executable());
}
