use kernel_core::config::MAX_FRAMES;
use kernel_core::frame::FrameAllocator;

#[test]
fn frames_are_handed_out_in_ascending_order() {
    let mut frames = FrameAllocator::new(3).unwrap();
    assert_eq!(frames.total_frames(), 3);
    assert_eq!(frames.available(), 3);
    assert_eq!(frames.allocate(), Some(0));
    assert_eq!(frames.allocate(), Some(1));
    assert_eq!(frames.allocate(), Some(2));
    assert_eq!(frames.allocate(), None);
    assert_eq!(frames.available(), 0);
}

#[test]
fn a_freed_frame_is_the_next_one_handed_out() {
    let mut frames = FrameAllocator::new(4).unwrap();
    let a = frames.allocate().unwrap();
    let b = frames.allocate().unwrap();
    assert!(!frames.is_free(a));
    assert!(!frames.is_free(b));
    assert!(frames.is_free(2));
    frames.free(a);
    assert!(frames.is_free(a));
    assert_eq!(frames.available(), 3);
    assert_eq!(frames.allocate(), Some(a));
    assert_eq!(frames.allocate(), Some(2));
}

#[test]
fn an_empty_allocator_stays_empty() {
    let mut frames = FrameAllocator::new(0).unwrap();
    assert_eq!(frames.allocate(), None);
    assert_eq!(frames.allocate(), None);
    assert_eq!(frames.available(), 0);
}

#[test]
fn a_machine_may_not_have_more_frames_than_the_limit() {
    assert!(FrameAllocator::new(MAX_FRAMES).is_some());
    assert!(FrameAllocator::new(MAX_FRAMES + 1).is_none());
}

#[test]
fn a_frame_beyond_the_machine_is_not_free() {
    let frames = FrameAllocator::new(2).unwrap();
    assert!(frames.is_free(0));
    assert!(frames.is_free(1));
    assert!(!frames.is_free(2));
}
