use oskernel::mm::address::{PhysAddr, PhysPageNum, VirtAddr, VirtPageNum};

#[test]
fn widening_keeps_legal_bits() {
    assert_eq!(PhysAddr::from(0x1234_5678_9abc_def0u64).0, 0x34_5678_9abc_def0);
    assert_eq!(PhysPageNum::from(0x1234_5678_9abc_def0u64).0, 0x678_9abc_def0);
    assert_eq!(VirtAddr::from(0x1234_5678_9abc_def0u64).0, 0x78_9abc_def0);
    assert_eq!(VirtPageNum::from(0x1234_5678_9abc_def0u64).0, 0x2bc_def0);
}

#[test]
fn page_offset_floor_ceil() {
    let pa = PhysAddr(0x8020_1234);
    assert_eq!(pa.page_offset(), 0x234);
    assert_eq!(pa.floor().0, 0x80201);
    assert_eq!(pa.ceil().0, 0x80202);
    assert!(!pa.aligned());
    let aligned = PhysAddr(0x8020_1000);
    assert!(aligned.aligned());
    assert_eq!(aligned.ceil().0, 0x80201);
    let va = VirtAddr(0x1fff);
    assert_eq!(va.page_offset(), 0xfff);
    assert_eq!(va.floor().0, 1);
    assert_eq!(va.ceil().0, 2);
    assert!(VirtAddr(0).aligned());
}

#[test]
fn physical_round_trip() {
    let pa = PhysAddr(0x8040_3000);
    let ppn = pa.to_ppn();
    assert_eq!(ppn.0, 0x80403);
    assert_eq!(PhysAddr::from(ppn), pa);
    assert_eq!(u64::from(PhysAddr::from(ppn)), 0x8040_3000);
}

#[test]
fn virtual_round_trip() {
    let va = VirtAddr(0x10_0000);
    let vpn = va.to_vpn();
    assert_eq!(vpn.0, 0x100);
    assert_eq!(VirtAddr::from(vpn), va);
    assert_eq!(u64::from(VirtAddr::from(vpn)), 0x10_0000);
}

#[test]
fn sign_extension_of_high_virtual_address() {
    let va = VirtAddr::from(0x40_0000_0000u64);
    assert_eq!(u64::from(va), 0xffff_ffc0_0000_0000);
    let top = VirtAddr::from(0xffff_ffff_ffff_f000u64);
    assert_eq!(top.0, 0x7f_ffff_f000);
    assert_eq!(u64::from(top), 0xffff_ffff_ffff_f000);
    assert_eq!(u64::from(VirtAddr(0x3f_ffff_ffff)), 0x3f_ffff_ffff);
}

#[test]
fn vpn_indexes_top_level_first() {
    let vpn = VirtPageNum((3 << 18) | (5 << 9) | 7);
    assert_eq!(vpn.indexes(), [3, 5, 7]);
    assert_eq!(VirtPageNum(0x7ff_ffff).indexes(), [511, 511, 511]);
}
