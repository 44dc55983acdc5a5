use oskernel::mm::address::{PhysPageNum, VirtPageNum};
use oskernel::mm::frame_allocator::StackFrameAllocator;
use oskernel::mm::page_table::{PTEFlags, PageTable, PageTableEntry, PTE_R, PTE_V, PTE_W, PTE_X};
use oskernel::mm::MemError;

fn allocator(l: u64, r: u64) -> StackFrameAllocator {
    let mut a = StackFrameAllocator::new();
    a.init(PhysPageNum(l), PhysPageNum(r));
    a
}

#[test]
fn map_translate_unmap() {
    let mut a = allocator(0x1000, 0x1100);
    let mut pt = PageTable::new(&mut a).unwrap();
    let vpn = VirtPageNum(0x12345);
    assert_eq!(pt.translate(vpn), None);
    pt.map(&mut a, vpn, PhysPageNum(0x8_0400), PTEFlags::from_bits(PTE_R | PTE_W)).unwrap();
    let e = pt.translate(vpn).unwrap();
    assert_eq!(e, PageTableEntry::new(PhysPageNum(0x8_0400), PTEFlags::from_bits(PTE_R | PTE_W | PTE_V)));
    assert_eq!(e.bits, (0x8_0400 << 10) | 0b111);
    assert_eq!(e.ppn(), PhysPageNum(0x8_0400));
    assert!(e.is_valid() && e.readable() && e.writable() && !e.executable());
    assert_eq!(pt.translate(VirtPageNum(0x12346)), None);
    pt.unmap(vpn);
    assert_eq!(pt.translate(vpn), None);
}

#[test]
fn neighbours_keep_their_mappings() {
    let mut a = allocator(0x1000, 0x1100);
    let mut pt = PageTable::new(&mut a).unwrap();
    pt.map(&mut a, VirtPageNum(1), PhysPageNum(0x10), PTEFlags::from_bits(PTE_R)).unwrap();
    pt.map(&mut a, VirtPageNum(2), PhysPageNum(0x20), PTEFlags::from_bits(PTE_X)).unwrap();
    pt.map(&mut a, VirtPageNum(1 << 18), PhysPageNum(0x30), PTEFlags::from_bits(PTE_W)).unwrap();
    pt.unmap(VirtPageNum(2));
    assert_eq!(pt.translate(VirtPageNum(1)).unwrap().ppn(), PhysPageNum(0x10));
    assert_eq!(pt.translate(VirtPageNum(2)), None);
    assert_eq!(pt.translate(VirtPageNum(1 << 18)).unwrap().ppn(), PhysPageNum(0x30));
}

#[test]
fn map_fails_cleanly_without_frames() {
    let mut a = allocator(0x1000, 0x1002);
    let mut pt = PageTable::new(&mut a).unwrap();
    let r = pt.map(&mut a, VirtPageNum(5), PhysPageNum(0x10), PTEFlags::from_bits(PTE_R));
    assert_eq!(r, Err(MemError::OutOfFrames));
    assert_eq!(pt.translate(VirtPageNum(5)), None);
}

#[test]
fn view_from_token_owns_nothing() {
    let pt = PageTable::from_token((8u64 << 60) | 0x8_0123);
    assert_eq!(pt.translate(VirtPageNum(0)), None);
}

#[test]
fn flag_byte_operations() {
    let rw = PTEFlags::from_bits(PTE_R).union(PTEFlags::from_bits(PTE_W));
    assert_eq!(rw.bits, 0b110);
    assert!(rw.contains(PTEFlags::from_bits(PTE_W)));
    assert!(!rw.contains(PTEFlags::from_bits(PTE_X)));
    assert!(rw.contains(PTEFlags::empty()));
    let e = PageTableEntry::empty();
    assert!(!e.is_valid());
    assert_eq!(e.flags(), PTEFlags::empty());
}
