use oskernel::mm::address::PhysPageNum;
use oskernel::mm::frame_allocator::{frame_alloc, frame_dealloc, init_frame_allocator, StackFrameAllocator};

fn allocator(l: u64, r: u64) -> StackFrameAllocator {
    let mut a = StackFrameAllocator::new();
    a.init(PhysPageNum(l), PhysPageNum(r));
    a
}

#[test]
fn allocates_forward_then_fails() {
    let mut a = allocator(0x100, 0x103);
    assert_eq!(a.available_frames(), 3);
    assert_eq!(a.allocate(), Some(PhysPageNum(0x100)));
    assert_eq!(a.allocate(), Some(PhysPageNum(0x101)));
    assert_eq!(a.allocate(), Some(PhysPageNum(0x102)));
    assert_eq!(a.allocate(), None);
    assert_eq!(a.available_frames(), 0);
}

#[test]
fn exhausted_range_still_serves_recycled() {
    let mut a = allocator(0x100, 0x102);
    let p0 = a.allocate().unwrap();
    let p1 = a.allocate().unwrap();
    assert_eq!(a.allocate(), None);
    a.dealloc(p0);
    a.dealloc(p1);
    assert_eq!(a.allocate(), Some(p1));
    assert_eq!(a.allocate(), Some(p0));
    assert_eq!(a.allocate(), None);
}

#[test]
fn alloc_dealloc_cycle_keeps_count() {
    let mut a = allocator(0x200, 0x210);
    let before = a.available_frames();
    let f = frame_alloc(&mut a).unwrap();
    assert_eq!(a.available_frames(), before - 1);
    let p = f.ppn();
    frame_dealloc(&mut a, f);
    assert_eq!(a.available_frames(), before);
    let again = frame_alloc(&mut a).unwrap();
    assert_eq!(again.ppn(), p);
}

#[test]
fn fresh_frame_is_zeroed() {
    let mut a = allocator(0x300, 0x301);
    let f = frame_alloc(&mut a).unwrap();
    assert_eq!(f.get_bytes_array().len(), 4096);
    assert!(f.get_bytes_array().iter().all(|b| *b == 0));
    assert!(frame_alloc(&mut a).is_none());
}

#[test]
fn allocator_covers_memory_after_kernel() {
    let mut a = StackFrameAllocator::new();
    init_frame_allocator(&mut a, 0x8021_0123);
    assert_eq!(a.available_frames(), 0x80800 - 0x80211);
    assert_eq!(a.allocate(), Some(PhysPageNum(0x80211)));
}
