use kernel_core::address_space::AddressSpace;
use kernel_core::config::{MAX_FRAMES, PAGE_SIZE};
use kernel_core::frame::FrameAllocator;
use kernel_core::memory::PhysMemory;

fn machine(frames: usize) -> (PhysMemory, AddressSpace, FrameAllocator) {
    let mut allocator = FrameAllocator::new(frames).unwrap();
    let space = AddressSpace::new(&mut allocator, 0x20000).unwrap();
    (PhysMemory::new(frames).unwrap(), space, allocator)
}

#[test]
fn memory_is_made_of_whole_frames() {
    let memory = PhysMemory::new(3).unwrap();
    assert_eq!(memory.size(), 3 * PAGE_SIZE);
    assert_eq!(memory.read(0), Some(0));
    assert_eq!(memory.read(3 * PAGE_SIZE - 1), Some(0));
    assert_eq!(memory.read(3 * PAGE_SIZE), None);
    assert!(PhysMemory::new(MAX_FRAMES + 1).is_none());
}

#[test]
fn write_stays_inside_the_memory() {
    let mut memory = PhysMemory::new(1).unwrap();
    assert!(memory.write(17, 0xAB));
    assert_eq!(memory.read(17), Some(0xAB));
    assert_eq!(memory.read(16), Some(0));
    assert!(!memory.write(PAGE_SIZE, 1));
}

#[test]
fn a_record_across_a_page_boundary_lands_in_two_frames() {
    let (mut memory, mut space, mut allocator) = machine(16);
    space.mmap(&mut allocator, 0x10000, 2 * PAGE_SIZE, 0b011).unwrap();
    let first = space.lookup(16).unwrap().frame;
    let second = space.lookup(17).unwrap().frame;
    // the leaf table was allocated between the two pages
    assert_ne!(second, first + 1);

    let data = vec![1u8, 2, 3, 4, 5];
    assert!(memory.store(&space, 0x10000 + 4093, &data));
    assert_eq!(memory.read(first * PAGE_SIZE + 4093), Some(1));
    assert_eq!(memory.read(first * PAGE_SIZE + 4094), Some(2));
    assert_eq!(memory.read(first * PAGE_SIZE + 4095), Some(3));
    assert_eq!(memory.read(second * PAGE_SIZE), Some(4));
    assert_eq!(memory.read(second * PAGE_SIZE + 1), Some(5));
    // nothing spilled into the frame that follows the first physically
    assert_eq!(memory.read((first + 1) * PAGE_SIZE), Some(0));
    assert_eq!(memory.read(first * PAGE_SIZE + 4092), Some(0));
    assert_eq!(memory.read(second * PAGE_SIZE + 2), Some(0));

    assert_eq!(memory.load(&space, 0x10000 + 4093, 5), Some(data));
    assert_eq!(memory.load(&space, 0x10000 + 4094, 3), Some(vec![2u8, 3, 4]));
}

#[test]
fn a_large_record_spans_three_pages() {
    let (mut memory, mut space, mut allocator) = machine(16);
    space.mmap(&mut allocator, 0x10000, 3 * PAGE_SIZE, 0b011).unwrap();
    let mut data = Vec::new();
    for i in 0..(PAGE_SIZE + 200) {
        data.push((i % 251) as u8);
    }
    assert!(memory.store(&space, 0x10000 + 4000, &data));
    assert_eq!(memory.load(&space, 0x10000 + 4000, data.len()), Some(data.clone()));
    let third = space.lookup(18).unwrap().frame;
    // byte 4192 + 96 of the data is the first byte of the third page
    assert_eq!(memory.read(third * PAGE_SIZE), Some(((96 + 4096) % 251) as u8));
}

#[test]
fn nothing_is_stored_unless_the_whole_range_is_mapped() {
    let (mut memory, mut space, mut allocator) = machine(16);
    space.mmap(&mut allocator, 0x10000, PAGE_SIZE, 0b011).unwrap();
    let frame = space.lookup(16).unwrap().frame;
    let data = vec![9u8; 8];
    assert!(!memory.store(&space, 0x10000 + 4092, &data));
    assert_eq!(memory.read(frame * PAGE_SIZE + 4092), Some(0));
    assert_eq!(memory.read(frame * PAGE_SIZE + 4095), Some(0));
    assert!(!memory.store(&space, 0x10000 - 1, &data));
    assert!(!memory.store(&space, 0x30000, &data));
    assert!(!memory.store(&space, usize::MAX - 3, &data));
    assert_eq!(memory.load(&space, 0x10000 + 4092, 8), None);
    assert_eq!(memory.load(&space, usize::MAX, 2), None);
    assert!(memory.can_reach(&space, 0x10000, PAGE_SIZE));
    assert!(!memory.can_reach(&space, 0x10000, PAGE_SIZE + 1));
    // an empty range is always within reach
    assert!(memory.can_reach(&space, 0x50000, 0));
    assert!(memory.store(&space, 0x50000, &Vec::new()));
    assert_eq!(memory.load(&space, 0x50000, 0), Some(Vec::new()));
}

#[test]
fn a_frame_beyond_the_memory_is_out_of_reach() {
    // an allocator for more frames than the memory holds
    let mut allocator = FrameAllocator::new(16).unwrap();
    let mut space = AddressSpace::new(&mut allocator, 0x20000).unwrap();
    let mut memory = PhysMemory::new(2).unwrap();
    space.mmap(&mut allocator, 0x10000, 2 * PAGE_SIZE, 0b011).unwrap();
    assert_eq!(space.lookup(16).unwrap().frame, 1);
    assert_eq!(space.lookup(17).unwrap().frame, 3);
    assert!(memory.store(&space, 0x10000, &vec![7u8; 16]));
    assert!(!memory.store(&space, 0x11000, &vec![7u8; 16]));
    assert!(!memory.store(&space, 0x10FFF, &vec![7u8; 2]));
    assert_eq!(memory.read(PAGE_SIZE + 4095), Some(0));
}
