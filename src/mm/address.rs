//! Typed Sv39 addresses and page numbers. Machine words are 64 bits wide.
//!
//! A physical address has 56 bits, a virtual address 39, a physical page
//! number 44 and a virtual page number 27. Widening a plain `u64` into one
//! of these types keeps the legal low bits; narrowing a virtual address back
//! into a `u64` sign-extends it from bit 38.
use vstd::prelude::*;

use crate::config::{PAGE_SIZE, PAGE_SIZE_BITS};

verus! {

/// Mask of the 56 bits of a physical address.
pub const PA_MASK: u64 = 0x00ff_ffff_ffff_ffff;
/// Mask of the 39 bits of a virtual address.
pub const VA_MASK: u64 = 0x7f_ffff_ffff;
/// Mask of the 44 bits of a physical page number.
pub const PPN_MASK: u64 = 0xfff_ffff_ffff;
/// Mask of the 27 bits of a virtual page number.
pub const VPN_MASK: u64 = 0x7ff_ffff;
/// Bit 38 of a virtual address: the sign bit of Sv39.
pub const VA_SIGN_BIT: u64 = 0x40_0000_0000;

/// A physical address.
#[derive(Clone, Copy, Debug, PartialEq, Eq, Structural, PartialOrd, Ord)]
pub struct PhysAddr(pub u64);

/// A virtual address, kept in its 39-bit form.
#[derive(Clone, Copy, Debug, PartialEq, Eq, Structural, PartialOrd, Ord)]
pub struct VirtAddr(pub u64);

/// A physical page number.
#[derive(Clone, Copy, Debug, PartialEq, Eq, Structural, PartialOrd, Ord)]
pub struct PhysPageNum(pub u64);

/// A virtual page number.
#[derive(Clone, Copy, Debug, PartialEq, Eq, Structural, PartialOrd, Ord)]
pub struct VirtPageNum(pub u64);

/// `a / PAGE_SIZE`, rounded up.
pub open spec fn page_ceil(a: int) -> int {
    if a % (PAGE_SIZE as int) == 0 {
        a / (PAGE_SIZE as int)
    } else {
        a / (PAGE_SIZE as int) + 1
    }
}

/// The value of a 39-bit virtual address as a 64-bit word: bit 38 is copied
/// into every higher bit.
pub open spec fn sign_extend_va(v: u64) -> u64 {
    if v & VA_SIGN_BIT != 0 {
        v | !VA_MASK
    } else {
        v
    }
}

/// The three 9-bit page-table indices of a virtual page number, top level first.
pub open spec fn vpn_indexes(v: u64) -> (u64, u64, u64) {
    ((v >> 18u64) & 511, (v >> 9u64) & 511, v & 511)
}

impl From<u64> for PhysAddr {
    fn from(value: u64) -> Self {
        PhysAddr(value & PA_MASK)
    }
}

impl vstd::std_specs::convert::FromSpecImpl<u64> for PhysAddr {
    open spec fn obeys_from_spec() -> bool {
        true
    }

    open spec fn from_spec(v: u64) -> Self {
        PhysAddr(v & PA_MASK)
    }
}

impl From<u64> for PhysPageNum {
    fn from(value: u64) -> Self {
        PhysPageNum(value & PPN_MASK)
    }
}

impl vstd::std_specs::convert::FromSpecImpl<u64> for PhysPageNum {
    open spec fn obeys_from_spec() -> bool {
        true
    }

    open spec fn from_spec(v: u64) -> Self {
        PhysPageNum(v & PPN_MASK)
    }
}

impl From<u64> for VirtAddr {
    fn from(value: u64) -> Self {
        VirtAddr(value & VA_MASK)
    }
}

impl vstd::std_specs::convert::FromSpecImpl<u64> for VirtAddr {
    open spec fn obeys_from_spec() -> bool {
        true
    }

    open spec fn from_spec(v: u64) -> Self {
        VirtAddr(v & VA_MASK)
    }
}

impl From<u64> for VirtPageNum {
    fn from(value: u64) -> Self {
        VirtPageNum(value & VPN_MASK)
    }
}

impl vstd::std_specs::convert::FromSpecImpl<u64> for VirtPageNum {
    open spec fn obeys_from_spec() -> bool {
        true
    }

    open spec fn from_spec(v: u64) -> Self {
        VirtPageNum(v & VPN_MASK)
    }
}

impl From<PhysAddr> for u64 {
    fn from(value: PhysAddr) -> Self {
        value.0
    }
}

impl vstd::std_specs::convert::FromSpecImpl<PhysAddr> for u64 {
    open spec fn obeys_from_spec() -> bool {
        true
    }

    open spec fn from_spec(v: PhysAddr) -> Self {
        v.0
    }
}

impl From<PhysPageNum> for u64 {
    fn from(value: PhysPageNum) -> Self {
        value.0
    }
}

impl vstd::std_specs::convert::FromSpecImpl<PhysPageNum> for u64 {
    open spec fn obeys_from_spec() -> bool {
        true
    }

    open spec fn from_spec(v: PhysPageNum) -> Self {
        v.0
    }
}

impl From<VirtAddr> for u64 {
    fn from(value: VirtAddr) -> Self {
        if value.0 & VA_SIGN_BIT != 0 {
            value.0 | !VA_MASK
        } else {
            value.0
        }
    }
}

impl vstd::std_specs::convert::FromSpecImpl<VirtAddr> for u64 {
    open spec fn obeys_from_spec() -> bool {
        true
    }

    open spec fn from_spec(v: VirtAddr) -> Self {
        sign_extend_va(v.0)
    }
}

impl From<VirtPageNum> for u64 {
    fn from(value: VirtPageNum) -> Self {
        value.0
    }
}

impl vstd::std_specs::convert::FromSpecImpl<VirtPageNum> for u64 {
    open spec fn obeys_from_spec() -> bool {
        true
    }

    open spec fn from_spec(v: VirtPageNum) -> Self {
        v.0
    }
}

impl From<PhysPageNum> for PhysAddr {
    fn from(value: PhysPageNum) -> Self {
        PhysAddr(value.0 << PAGE_SIZE_BITS)
    }
}

impl vstd::std_specs::convert::FromSpecImpl<PhysPageNum> for PhysAddr {
    open spec fn obeys_from_spec() -> bool {
        true
    }

    open spec fn from_spec(v: PhysPageNum) -> Self {
        PhysAddr(v.0 << PAGE_SIZE_BITS)
    }
}

impl From<VirtPageNum> for VirtAddr {
    fn from(value: VirtPageNum) -> Self {
        VirtAddr(value.0 << PAGE_SIZE_BITS)
    }
}

impl vstd::std_specs::convert::FromSpecImpl<VirtPageNum> for VirtAddr {
    open spec fn obeys_from_spec() -> bool {
        true
    }

    open spec fn from_spec(v: VirtPageNum) -> Self {
        VirtAddr(v.0 << PAGE_SIZE_BITS)
    }
}

impl PhysAddr {
    /// The offset of the address inside its page.
    pub fn page_offset(&self) -> (r: u64)
        ensures
            r == self.0 % PAGE_SIZE,
    {
        let a = self.0;
        let r = a & (PAGE_SIZE - 1);
        assert(a & 4095 == a % 4096) by (bit_vector);
        r
    }

    /// The page that holds the address.
    pub fn floor(&self) -> (r: PhysPageNum)
        ensures
            r.0 == self.0 / PAGE_SIZE,
    {
        PhysPageNum(self.0 / PAGE_SIZE)
    }

    /// The first page that starts at or above the address.
    pub fn ceil(&self) -> (r: PhysPageNum)
        ensures
            r.0 == page_ceil(self.0 as int),
    {
        if self.0 % PAGE_SIZE == 0 {
            PhysPageNum(self.0 / PAGE_SIZE)
        } else {
            PhysPageNum(self.0 / PAGE_SIZE + 1)
        }
    }

    /// Whether the address is the start of a page.
    pub fn aligned(&self) -> (r: bool)
        ensures
            r == (self.0 % PAGE_SIZE == 0),
    {
        self.page_offset() == 0
    }

    /// The page that starts at this address.
    pub fn to_ppn(&self) -> (r: PhysPageNum)
        requires
            self.0 % PAGE_SIZE == 0,
        ensures
            r.0 == self.0 / PAGE_SIZE,
            r.0 << PAGE_SIZE_BITS == self.0,
    {
        let r = self.floor();
        let a = self.0;
        assert(a % 4096 == 0 ==> (a / 4096) << 12 == a) by (bit_vector);
        r
    }
}

impl VirtAddr {
    /// The offset of the address inside its page.
    pub fn page_offset(&self) -> (r: u64)
        ensures
            r == self.0 % PAGE_SIZE,
    {
        let a = self.0;
        let r = a & (PAGE_SIZE - 1);
        assert(a & 4095 == a % 4096) by (bit_vector);
        r
    }

    /// The page that holds the address.
    pub fn floor(&self) -> (r: VirtPageNum)
        ensures
            r.0 == self.0 / PAGE_SIZE,
    {
        VirtPageNum(self.0 / PAGE_SIZE)
    }

    /// The first page that starts at or above the address.
    pub fn ceil(&self) -> (r: VirtPageNum)
        ensures
            r.0 == page_ceil(self.0 as int),
    {
        if self.0 % PAGE_SIZE == 0 {
            VirtPageNum(self.0 / PAGE_SIZE)
        } else {
            VirtPageNum(self.0 / PAGE_SIZE + 1)
        }
    }

    /// Whether the address is the start of a page.
    pub fn aligned(&self) -> (r: bool)
        ensures
            r == (self.0 % PAGE_SIZE == 0),
    {
        self.page_offset() == 0
    }

    /// The page that starts at this address.
    pub fn to_vpn(&self) -> (r: VirtPageNum)
        requires
            self.0 % PAGE_SIZE == 0,
        ensures
            r.0 == self.0 / PAGE_SIZE,
            r.0 << PAGE_SIZE_BITS == self.0,
    {
        let r = self.floor();
        let a = self.0;
        assert(a % 4096 == 0 ==> (a / 4096) << 12 == a) by (bit_vector);
        r
    }
}

impl VirtPageNum {
    /// The indices into the three levels of the page table, top level first.
    pub fn indexes(&self) -> (r: [usize; 3])
        ensures
            r@.len() == 3,
            (r@[0] as u64, r@[1] as u64, r@[2] as u64) == vpn_indexes(self.0),
            r@[0] < 512 && r@[1] < 512 && r@[2] < 512,
    {
        let vpn = self.0;
        let r = [((vpn >> 18) & 511) as usize, ((vpn >> 9) & 511) as usize, (vpn & 511) as usize];
        assert((vpn >> 18u64) & 511 < 512 && (vpn >> 9u64) & 511 < 512 && vpn & 511 < 512)
            by (bit_vector);
        r
    }
}

/// A page-aligned physical address survives the trip to its page number and back.
pub proof fn lemma_pa_ppn_round_trip(pa: PhysAddr)
    requires
        pa.0 % PAGE_SIZE == 0,
    ensures
        ((pa.0 / PAGE_SIZE) as u64) << PAGE_SIZE_BITS == pa.0,
{
    let a = pa.0;
    assert(a % 4096 == 0 ==> (a / 4096) << 12 == a) by (bit_vector);
}

/// A page-aligned virtual address survives the trip to its page number and
/// back; on an address whose sign bit is clear, narrowing it to a word is the
/// identity as well.
pub proof fn lemma_va_vpn_round_trip(va: VirtAddr)
    requires
        va.0 % PAGE_SIZE == 0,
    ensures
        ((va.0 / PAGE_SIZE) as u64) << PAGE_SIZE_BITS == va.0,
        va.0 < VA_SIGN_BIT ==> sign_extend_va(((va.0 / PAGE_SIZE) as u64) << PAGE_SIZE_BITS) == va.0,
{
    let a = va.0;
    assert(a % 4096 == 0 ==> (a / 4096) << 12 == a) by (bit_vector);
    assert(a < 0x40_0000_0000 ==> a & 0x40_0000_0000 == 0) by (bit_vector);
}

/// A 39-bit virtual address with bit 38 set becomes a word whose 25 upper
/// bits are all set and whose low 39 bits are the address.
pub proof fn lemma_sign_extension_sets_upper_bits(v: u64)
    requires
        v <= VA_MASK,
        v & VA_SIGN_BIT != 0,
    ensures
        sign_extend_va(v) >> 39u64 == 0x1ff_ffffu64,
        sign_extend_va(v) & VA_MASK == v,
{
    assert(v <= 0x7f_ffff_ffff ==> (v | !0x7f_ffff_ffffu64) >> 39u64 == 0x1ff_ffffu64
        && (v | !0x7f_ffff_ffffu64) & 0x7f_ffff_ffffu64 == v) by (bit_vector);
}

/// Distinct 27-bit page numbers have distinct page-table indices.
pub proof fn lemma_vpn_indexes_injective(a: u64, b: u64)
    requires
        a <= VPN_MASK,
        b <= VPN_MASK,
        vpn_indexes(a) == vpn_indexes(b),
    ensures
        a == b,
{
    assert(a <= 0x7ff_ffff && b <= 0x7ff_ffff && (a >> 18u64) & 511 == (b >> 18u64) & 511 && (a
        >> 9u64) & 511 == (b >> 9u64) & 511 && a & 511 == b & 511 ==> a == b) by (bit_vector);
}

} // verus!
