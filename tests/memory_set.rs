use oskernel::mm::address::{PhysPageNum, VirtAddr, VirtPageNum};
use oskernel::mm::frame_allocator::StackFrameAllocator;
use oskernel::mm::memory_set::{
    KernelLayout, MapArea, MapPermission, MapType, MemorySet, VPNRange, MAP_R, MAP_U, MAP_W, MAP_X,
};
use oskernel::mm::page_table::PageTable;
use oskernel::mm::MemError;

fn allocator(l: u64, r: u64) -> StackFrameAllocator {
    let mut a = StackFrameAllocator::new();
    a.init(PhysPageNum(l), PhysPageNum(r));
    a
}

fn framed_area_with(data: &[u8], pages: u64) -> MapArea {
    let mut a = allocator(0x1000, 0x1100);
    let mut pt = PageTable::new(&mut a).unwrap();
    let mut area = MapArea::new(
        VirtAddr(0x10000),
        VirtAddr(0x10000 + pages * 4096),
        MapType::Framed,
        MapPermission { bits: MAP_R | MAP_W },
    );
    area.map(&mut pt, &mut a).unwrap();
    area.copy_data(&pt, data);
    area
}

#[test]
fn copy_data_empty() {
    let area = framed_area_with(&[], 2);
    assert_eq!(area.frame_count(), 2);
    assert!(area.frame(0x10).unwrap().get_bytes_array().iter().all(|b| *b == 0));
    assert!(area.frame(0x11).unwrap().get_bytes_array().iter().all(|b| *b == 0));
}

#[test]
fn copy_data_one_full_page() {
    let data: Vec<u8> = (0..4096u32).map(|i| (i % 251) as u8 + 1).collect();
    let area = framed_area_with(&data, 2);
    assert_eq!(area.frame(0x10).unwrap().get_bytes_array(), &data[..]);
    assert!(area.frame(0x11).unwrap().get_bytes_array().iter().all(|b| *b == 0));
}

#[test]
fn copy_data_partial_last_page() {
    let data: Vec<u8> = (0..(2 * 4096 + 100u32)).map(|i| (i % 7) as u8 + 1).collect();
    let area = framed_area_with(&data, 3);
    assert_eq!(area.frame(0x10).unwrap().get_bytes_array(), &data[..4096]);
    assert_eq!(area.frame(0x11).unwrap().get_bytes_array(), &data[4096..8192]);
    let last = area.frame(0x12).unwrap().get_bytes_array();
    assert_eq!(&last[..100], &data[8192..]);
    assert!(last[100..].iter().all(|b| *b == 0));
}

#[test]
fn framed_area_translates_to_its_frames() {
    let mut a = allocator(0x1000, 0x1100);
    let mut pt = PageTable::new(&mut a).unwrap();
    let mut area = MapArea::new(VirtAddr(0x4000), VirtAddr(0x6800), MapType::Framed, MapPermission { bits: MAP_R });
    area.map(&mut pt, &mut a).unwrap();
    assert_eq!(area.get_start_vpn(), VirtPageNum(4));
    assert_eq!(area.get_end_vpn(), VirtPageNum(7));
    for i in 0..3usize {
        let e = pt.translate(VirtPageNum(4 + i as u64)).unwrap();
        assert!(e.is_valid() && e.readable() && !e.writable());
        assert_eq!(e.ppn(), area.frame(4 + i as u64).unwrap().ppn());
    }
    area.unmap(&mut pt, &mut a);
    assert_eq!(area.frame_count(), 0);
    assert_eq!(pt.translate(VirtPageNum(5)), None);
}

#[test]
fn identical_area_maps_page_onto_itself() {
    let mut a = allocator(0x1000, 0x1100);
    let mut pt = PageTable::new(&mut a).unwrap();
    let mut area = MapArea::new(VirtAddr(0x8020_0000), VirtAddr(0x8020_3000), MapType::Identical, MapPermission { bits: MAP_R | MAP_X });
    area.map(&mut pt, &mut a).unwrap();
    assert_eq!(pt.translate(VirtPageNum(0x80201)).unwrap().ppn(), PhysPageNum(0x80201));
    assert_eq!(area.frame_count(), 0);
}

#[test]
fn overlapping_area_is_refused() {
    let mut a = allocator(0x1000, 0x1100);
    let mut ms = MemorySet::new_bare(&mut a).unwrap();
    let perm = MapPermission { bits: MAP_R | MAP_W };
    ms.insert_framed_area(&mut a, VirtAddr(0x10000), VirtAddr(0x13000), perm).unwrap();
    assert_eq!(ms.insert_framed_area(&mut a, VirtAddr(0x12000), VirtAddr(0x14000), perm), Err(MemError::Overlap));
    assert_eq!(ms.area_count(), 1);
    ms.insert_framed_area(&mut a, VirtAddr(0x13000), VirtAddr(0x14000), perm).unwrap();
    assert_eq!(ms.area_count(), 2);
    assert!(ms.translate(VirtPageNum(0x13)).unwrap().is_valid());
}

#[test]
fn frame_exhaustion_keeps_earlier_areas() {
    let mut a = allocator(0x1000, 0x1010);
    let mut ms = MemorySet::new_bare(&mut a).unwrap();
    let perm = MapPermission { bits: MAP_R | MAP_W };
    let mut n: u64 = 0;
    loop {
        let start = 0x10000 + n * 0x1000;
        match ms.insert_framed_area(&mut a, VirtAddr(start), VirtAddr(start + 0x1000), perm) {
            Ok(()) => n += 1,
            Err(e) => {
                assert_eq!(e, MemError::OutOfFrames);
                break;
            }
        }
    }
    assert_eq!(n, 13);
    assert_eq!(a.available_frames(), 0);
    assert_eq!(ms.area_count(), 13);
    for i in 0..n {
        let e = ms.translate(VirtPageNum(0x10 + i)).unwrap();
        assert_eq!(e.ppn(), ms.area(i as usize).frame(0x10 + i).unwrap().ppn());
    }
    assert_eq!(ms.translate(VirtPageNum(0x10 + n)), None);
    ms.release(&mut a);
    assert_eq!(a.available_frames(), 16);
}

fn elf_image() -> Vec<u8> {
    let mut d = vec![0u8; 0x1000 + 100];
    d[..4].copy_from_slice(&[0x7f, b'E', b'L', b'F']);
    d[4] = 2;
    d[5] = 1;
    d[6] = 1;
    d[16..18].copy_from_slice(&2u16.to_le_bytes());
    d[18..20].copy_from_slice(&0xf3u16.to_le_bytes());
    d[20..24].copy_from_slice(&1u32.to_le_bytes());
    d[24..32].copy_from_slice(&0x10000u64.to_le_bytes());
    d[32..40].copy_from_slice(&64u64.to_le_bytes());
    d[52..54].copy_from_slice(&64u16.to_le_bytes());
    d[54..56].copy_from_slice(&56u16.to_le_bytes());
    d[56..58].copy_from_slice(&1u16.to_le_bytes());
    d[58..60].copy_from_slice(&64u16.to_le_bytes());
    let ph = 64;
    d[ph..ph + 4].copy_from_slice(&1u32.to_le_bytes());
    d[ph + 4..ph + 8].copy_from_slice(&5u32.to_le_bytes());
    d[ph + 8..ph + 16].copy_from_slice(&0x1000u64.to_le_bytes());
    d[ph + 16..ph + 24].copy_from_slice(&0x10000u64.to_le_bytes());
    d[ph + 24..ph + 32].copy_from_slice(&0x10000u64.to_le_bytes());
    d[ph + 32..ph + 40].copy_from_slice(&100u64.to_le_bytes());
    d[ph + 40..ph + 48].copy_from_slice(&0x1800u64.to_le_bytes());
    d[ph + 48..ph + 56].copy_from_slice(&0x1000u64.to_le_bytes());
    for i in 0..100 {
        d[0x1000 + i] = (i as u8) + 1;
    }
    d
}

#[test]
fn address_space_from_elf() {
    let mut a = allocator(0x1000, 0x1100);
    let image = elf_image();
    let (ms, sp, entry) = MemorySet::from_elf(&mut a, &image, PhysPageNum(0x80200)).unwrap();
    assert_eq!(entry, 0x10000);
    assert_eq!(sp, 0x15000);
    assert_eq!(ms.area_count(), 3);
    let seg = ms.area(0);
    assert_eq!((seg.get_start_vpn().0, seg.get_end_vpn().0), (0x10, 0x12));
    assert_eq!(seg.get_map_perm().bits, MAP_U | MAP_R | MAP_X);
    let bytes = seg.frame(0x10).unwrap().get_bytes_array();
    assert_eq!(&bytes[..100], &image[0x1000..0x1064]);
    assert!(bytes[100..].iter().all(|b| *b == 0));
    assert!(seg.frame(0x11).unwrap().get_bytes_array().iter().all(|b| *b == 0));
    let stack = ms.area(1);
    assert_eq!((stack.get_start_vpn().0, stack.get_end_vpn().0), (0x13, 0x15));
    assert_eq!(stack.get_map_perm().bits, MAP_R | MAP_W | MAP_U);
    let trap = ms.area(2);
    assert_eq!((trap.get_start_vpn().0, trap.get_end_vpn().0), (0x7ff_fffe, 0x7ff_ffff));
    assert_eq!(trap.get_map_type(), MapType::Framed);
    let tramp = ms.translate(VirtPageNum(0x7ff_ffff)).unwrap();
    assert_eq!(tramp.ppn(), PhysPageNum(0x80200));
    assert!(tramp.readable() && tramp.executable() && !tramp.writable());
    assert_eq!(ms.translate(VirtPageNum(0x12)), None);
}

#[test]
fn elf_with_wrong_magic_is_refused() {
    let mut a = allocator(0x1000, 0x1100);
    let mut image = elf_image();
    image[1] = b'X';
    assert!(matches!(MemorySet::from_elf(&mut a, &image, PhysPageNum(0x80200)), Err(MemError::InvalidElf)));
    let short = vec![0x7fu8, b'E', b'L', b'F'];
    assert!(matches!(MemorySet::from_elf(&mut a, &short, PhysPageNum(0x80200)), Err(MemError::InvalidElf)));
}

#[test]
fn elf_segment_beyond_image_is_refused() {
    let mut a = allocator(0x1000, 0x1100);
    let mut image = elf_image();
    image[64 + 32..64 + 40].copy_from_slice(&0x2000u64.to_le_bytes());
    assert!(matches!(MemorySet::from_elf(&mut a, &image, PhysPageNum(0x80200)), Err(MemError::InvalidElf)));
}

#[test]
fn kernel_address_space_is_identical() {
    let mut a = allocator(0x80400, 0x80800);
    let layout = KernelLayout {
        stext: 0x8020_0000,
        etext: 0x8020_3000,
        srodata: 0x8020_3000,
        erodata: 0x8020_4000,
        sdata: 0x8020_4000,
        edata: 0x8020_5000,
        sbss_with_stack: 0x8020_5000,
        ebss: 0x8021_0000,
        ekernel: 0x8021_0000,
        strampoline: 0x8020_2000,
    };
    let ms = MemorySet::new_kernel(&mut a, layout).unwrap();
    assert_eq!(ms.area_count(), 5);
    let text = ms.translate(VirtPageNum(0x80201)).unwrap();
    assert_eq!(text.ppn(), PhysPageNum(0x80201));
    assert!(text.readable() && text.executable() && !text.writable());
    let ro = ms.translate(VirtPageNum(0x80203)).unwrap();
    assert!(ro.readable() && !ro.writable());
    let ram = ms.translate(VirtPageNum(0x807ff)).unwrap();
    assert_eq!(ram.ppn(), PhysPageNum(0x807ff));
    assert!(ram.writable());
    assert_eq!(ms.translate(VirtPageNum(0x80800)), None);
    assert_eq!(ms.translate(VirtPageNum(0x7ff_ffff)).unwrap().ppn(), PhysPageNum(0x80202));
}

#[test]
fn elf_skips_segments_that_are_not_loaded() {
    let mut a = allocator(0x1000, 0x1100);
    let mut image = elf_image();
    image[56..58].copy_from_slice(&2u16.to_le_bytes());
    let ph = 64 + 56;
    image[ph..ph + 4].copy_from_slice(&4u32.to_le_bytes());
    image[ph + 4..ph + 8].copy_from_slice(&4u32.to_le_bytes());
    image[ph + 16..ph + 24].copy_from_slice(&0x40000u64.to_le_bytes());
    image[ph + 40..ph + 48].copy_from_slice(&0x1000u64.to_le_bytes());
    let (ms, sp, _) = MemorySet::from_elf(&mut a, &image, PhysPageNum(0x80200)).unwrap();
    assert_eq!(ms.area_count(), 3);
    assert_eq!(sp, 0x15000);
    assert_eq!(ms.translate(VirtPageNum(0x40)), None);
}

#[test]
fn permissions_and_ranges() {
    assert_eq!(MapPermission::from_bits_truncate(0xff).bits, MAP_R | MAP_W | MAP_X | MAP_U);
    let r = VPNRange::new(VirtPageNum(3), VirtPageNum(9));
    assert_eq!((r.get_start(), r.get_end()), (VirtPageNum(3), VirtPageNum(9)));
}

#[test]
fn pages_map_in_any_order() {
    let mut a = allocator(0x1000, 0x1100);
    let mut pt = PageTable::new(&mut a).unwrap();
    let mut area = MapArea::new(VirtAddr(0x20000), VirtAddr(0x23000), MapType::Framed, MapPermission { bits: MAP_R | MAP_W });
    area.map_one(&mut pt, &mut a, VirtPageNum(0x22)).unwrap();
    area.map_one(&mut pt, &mut a, VirtPageNum(0x20)).unwrap();
    assert_eq!(area.frame_count(), 2);
    assert!(area.frame(0x21).is_none());
    assert_eq!(pt.translate(VirtPageNum(0x22)).unwrap().ppn(), area.frame(0x22).unwrap().ppn());
    area.unmap_one(&mut pt, &mut a, VirtPageNum(0x20));
    assert!(area.frame(0x20).is_none());
    assert_eq!(pt.translate(VirtPageNum(0x20)), None);
    assert!(pt.translate(VirtPageNum(0x22)).is_some());
}

#[test]
fn stack_goes_above_highest_segment() {
    let mut a = allocator(0x1000, 0x1100);
    let mut image = elf_image();
    image[56..58].copy_from_slice(&2u16.to_le_bytes());
    let first = 64;
    let second = 64 + 56;
    let copy: Vec<u8> = image[first..first + 56].to_vec();
    image[second..second + 56].copy_from_slice(&copy);
    image[first + 16..first + 24].copy_from_slice(&0x30000u64.to_le_bytes());
    image[first + 32..first + 40].copy_from_slice(&0u64.to_le_bytes());
    image[first + 40..first + 48].copy_from_slice(&0x1000u64.to_le_bytes());
    let (ms, sp, _) = MemorySet::from_elf(&mut a, &image, PhysPageNum(0x80200)).unwrap();
    assert_eq!(ms.area_count(), 4);
    assert_eq!(sp, 0x34000);
    let stack = ms.area(2);
    assert_eq!((stack.get_start_vpn().0, stack.get_end_vpn().0), (0x32, 0x34));
}

#[test]
fn overlapping_segments_are_refused() {
    let mut a = allocator(0x1000, 0x1100);
    let mut image = elf_image();
    image[56..58].copy_from_slice(&2u16.to_le_bytes());
    let copy: Vec<u8> = image[64..120].to_vec();
    image[120..176].copy_from_slice(&copy);
    assert!(matches!(MemorySet::from_elf(&mut a, &image, PhysPageNum(0x80200)), Err(MemError::Overlap)));
}

#[test]
fn unmapped_frame_is_reused_first() {
    let mut a = allocator(0x1000, 0x1100);
    let mut pt = PageTable::new(&mut a).unwrap();
    let mut area = MapArea::new(VirtAddr(0x20000), VirtAddr(0x22000), MapType::Framed, MapPermission { bits: MAP_R });
    area.map(&mut pt, &mut a).unwrap();
    let freed = area.frame(0x21).unwrap().ppn();
    area.unmap_one(&mut pt, &mut a, VirtPageNum(0x21));
    assert_eq!(a.allocate(), Some(freed));
}

#[test]
fn built_space_returns_every_frame() {
    let mut a = allocator(0x1000, 0x1100);
    let before = a.available_frames();
    let image = elf_image();
    let (ms, _, _) = MemorySet::from_elf(&mut a, &image, PhysPageNum(0x80200)).unwrap();
    assert!(a.available_frames() < before);
    ms.release(&mut a);
    assert_eq!(a.available_frames(), before);
}
