//! Sv39 page-table entries and three-level page tables.
//!
//! A page table owns the frames of its nodes. Each node is one frame read as
//! 512 little-endian 64-bit entries; an entry carries a physical page number
//! in bits 53..10 and the flag byte `D A G U X W R V` in bits 7..0.
use vstd::prelude::*;

use crate::mm::address::{PhysPageNum, VirtPageNum, PPN_MASK, VPN_MASK, vpn_indexes};
use crate::mm::frame_allocator::{FrameTracker, StackFrameAllocator, frame_alloc, frame_ppns, distinct_frames, release_frames};
use crate::mm::MemError;
use crate::config::PAGE_SIZE;

verus! {

/// Valid.
pub const PTE_V: u8 = 1;
/// Readable.
pub const PTE_R: u8 = 2;
/// Writable.
pub const PTE_W: u8 = 4;
/// Executable.
pub const PTE_X: u8 = 8;
/// Accessible from user mode.
pub const PTE_U: u8 = 16;
/// Global.
pub const PTE_G: u8 = 32;
/// Accessed.
pub const PTE_A: u8 = 64;
/// Dirty.
pub const PTE_D: u8 = 128;

/// The flag byte of a page-table entry.
#[derive(Clone, Copy, Debug, PartialEq, Eq, Structural)]
pub struct PTEFlags {
    pub bits: u8,
}

impl PTEFlags {
    /// The flags whose bits are set in `bits`; every bit of the byte is a flag.
    pub fn from_bits(bits: u8) -> (r: PTEFlags)
        ensures
            r.bits == bits,
    {
        PTEFlags { bits }
    }

    /// No flag.
    pub fn empty() -> (r: PTEFlags)
        ensures
            r.bits == 0,
    {
        PTEFlags { bits: 0 }
    }

    /// The flags of either operand.
    pub fn union(self, other: PTEFlags) -> (r: PTEFlags)
        ensures
            r.bits == self.bits | other.bits,
    {
        PTEFlags { bits: self.bits | other.bits }
    }

    /// Whether every flag of `other` is set here.
    pub fn contains(self, other: PTEFlags) -> (r: bool)
        ensures
            r == (self.bits & other.bits == other.bits),
    {
        self.bits & other.bits == other.bits
    }
}

/// Page number held by an entry.
pub open spec fn pte_ppn(bits: u64) -> u64 {
    (bits >> 10u64) & PPN_MASK
}

/// Whether an entry is valid.
pub open spec fn pte_valid(bits: u64) -> bool {
    bits & 1 != 0
}

/// The bits of the entry for page `ppn` with the flag byte `flags`.
pub open spec fn pte_bits(ppn: u64, flags: u8) -> u64 {
    (ppn << 10u64) | (flags as u64)
}

/// A page-table entry.
#[derive(Clone, Copy, Debug, PartialEq, Eq, Structural)]
pub struct PageTableEntry {
    pub bits: u64,
}

impl PageTableEntry {
    /// The entry for page `ppn` with `flags`.
    pub fn new(ppn: PhysPageNum, flags: PTEFlags) -> (r: PageTableEntry)
        ensures
            r.bits == pte_bits(ppn.0, flags.bits),
    {
        PageTableEntry { bits: (ppn.0 << 10) | (flags.bits as u64) }
    }

    /// The unmapped entry.
    pub fn empty() -> (r: PageTableEntry)
        ensures
            r.bits == 0,
    {
        PageTableEntry { bits: 0 }
    }

    /// The page number the entry holds.
    pub fn ppn(&self) -> (r: PhysPageNum)
        ensures
            r.0 == pte_ppn(self.bits),
    {
        PhysPageNum((self.bits >> 10) & PPN_MASK)
    }

    /// The flag byte.
    pub fn flags(&self) -> (r: PTEFlags)
        ensures
            r.bits == self.bits as u8,
    {
        PTEFlags::from_bits(self.bits as u8)
    }

    /// Whether `V` is set.
    pub fn is_valid(&self) -> (r: bool)
        ensures
            r == pte_valid(self.bits),
    {
        let b = self.bits;
        assert((b as u8) & 1 != 0 <==> b & 1 != 0) by (bit_vector);
        self.flags().bits & PTE_V != 0
    }

    /// Whether `R` is set.
    pub fn readable(&self) -> (r: bool)
        ensures
            r == ((self.bits as u8) & PTE_R != 0),
    {
        self.flags().bits & PTE_R != 0
    }

    /// Whether `W` is set.
    pub fn writable(&self) -> (r: bool)
        ensures
            r == ((self.bits as u8) & PTE_W != 0),
    {
        self.flags().bits & PTE_W != 0
    }

    /// Whether `X` is set.
    pub fn executable(&self) -> (r: bool)
        ensures
            r == ((self.bits as u8) & PTE_X != 0),
    {
        self.flags().bits & PTE_X != 0
    }
}

/// An entry built from a 44-bit page number gives that page number back, and
/// its flag byte.
pub proof fn lemma_pte_fields(ppn: u64, flags: u8)
    ensures
        ppn <= PPN_MASK ==> pte_ppn(pte_bits(ppn, flags)) == ppn,
        pte_valid(pte_bits(ppn, flags)) == (flags & 1 != 0),
        pte_bits(ppn, flags) as u8 == flags,
{
    assert(ppn <= 0xfff_ffff_ffff ==> (((ppn << 10u64) | (flags as u64)) >> 10u64) & 0xfff_ffff_ffff
        == ppn) by (bit_vector);
    assert((((ppn << 10u64) | (flags as u64)) & 1 != 0) == (flags & 1 != 0)) by (bit_vector);
    assert(((ppn << 10u64) | (flags as u64)) as u8 == flags) by (bit_vector);
}

/// Entry `i` of a node whose frame holds `b`, read little-endian.
pub open spec fn pte_at(b: Seq<u8>, i: int) -> u64 {
    let o = 8 * i;
    (b[o] as u64) | ((b[o + 1] as u64) << 8u64) | ((b[o + 2] as u64) << 16u64) | ((b[o + 3] as u64)
        << 24u64) | ((b[o + 4] as u64) << 32u64) | ((b[o + 5] as u64) << 40u64) | ((b[o + 6] as u64)
        << 48u64) | ((b[o + 7] as u64) << 56u64)
}

proof fn lemma_le_bytes(w: u64, b0: u8, b1: u8, b2: u8, b3: u8, b4: u8, b5: u8, b6: u8, b7: u8)
    by (bit_vector)
    requires
        b0 == (w & 0xff) as u8,
        b1 == ((w >> 8u64) & 0xff) as u8,
        b2 == ((w >> 16u64) & 0xff) as u8,
        b3 == ((w >> 24u64) & 0xff) as u8,
        b4 == ((w >> 32u64) & 0xff) as u8,
        b5 == ((w >> 40u64) & 0xff) as u8,
        b6 == ((w >> 48u64) & 0xff) as u8,
        b7 == ((w >> 56u64) & 0xff) as u8,
    ensures
        (b0 as u64) | ((b1 as u64) << 8u64) | ((b2 as u64) << 16u64) | ((b3 as u64) << 24u64) | ((
        b4 as u64) << 32u64) | ((b5 as u64) << 40u64) | ((b6 as u64) << 48u64) | ((b7 as u64)
            << 56u64) == w,
{
}

proof fn lemma_zero_entry(b: Seq<u8>, i: int)
    requires
        0 <= i < 512,
        b.len() == 4096,
        forall|j: int| 0 <= j < b.len() ==> b[j] == 0u8,
    ensures
        pte_at(b, i) == 0,
{
    let z = 0u8;
    assert((z as u64) | ((z as u64) << 8u64) | ((z as u64) << 16u64) | ((z as u64) << 24u64) | ((
    z as u64) << 32u64) | ((z as u64) << 40u64) | ((z as u64) << 48u64) | ((z as u64) << 56u64)
        == 0) by (bit_vector)
        requires
            z == 0u8,
    ;
    assert(b[8 * i] == 0 && b[8 * i + 1] == 0 && b[8 * i + 2] == 0 && b[8 * i + 3] == 0);
    assert(b[8 * i + 4] == 0 && b[8 * i + 5] == 0 && b[8 * i + 6] == 0 && b[8 * i + 7] == 0);
}

/// Reads entry `i` of a node frame.
fn read_pte(f: &FrameTracker, i: usize) -> (r: u64)
    requires
        f.wf(),
        i < 512,
    ensures
        r == pte_at(f.contents(), i as int),
{
    let o = 8 * i;
    (f.read_byte(o) as u64) | ((f.read_byte(o + 1) as u64) << 8) | ((f.read_byte(o + 2) as u64)
        << 16) | ((f.read_byte(o + 3) as u64) << 24) | ((f.read_byte(o + 4) as u64) << 32) | ((
    f.read_byte(o + 5) as u64) << 40) | ((f.read_byte(o + 6) as u64) << 48) | ((f.read_byte(o + 7)
        as u64) << 56)
}

/// Writes entry `i` of a node frame; the other entries stay as they were.
fn write_pte(f: &mut FrameTracker, i: usize, w: u64)
    requires
        old(f).wf(),
        i < 512,
    ensures
        final(f).wf(),
        final(f).frame_ppn() == old(f).frame_ppn(),
        pte_at(final(f).contents(), i as int) == w,
        forall|j: int|
            0 <= j < 512 && j != i ==> pte_at(final(f).contents(), j) == pte_at(
                old(f).contents(),
                j,
            ),
{
    let o = 8 * i;
    let b0 = (w & 0xff) as u8;
    let b1 = ((w >> 8) & 0xff) as u8;
    let b2 = ((w >> 16) & 0xff) as u8;
    let b3 = ((w >> 24) & 0xff) as u8;
    let b4 = ((w >> 32) & 0xff) as u8;
    let b5 = ((w >> 40) & 0xff) as u8;
    let b6 = ((w >> 48) & 0xff) as u8;
    let b7 = ((w >> 56) & 0xff) as u8;
    f.write_byte(o, b0);
    f.write_byte(o + 1, b1);
    f.write_byte(o + 2, b2);
    f.write_byte(o + 3, b3);
    f.write_byte(o + 4, b4);
    f.write_byte(o + 5, b5);
    f.write_byte(o + 6, b6);
    f.write_byte(o + 7, b7);
    proof {
        lemma_le_bytes(w, b0, b1, b2, b3, b4, b5, b6, b7);
        let c = f.contents();
        let oc = old(f).contents();
        assert(c[o as int] == b0 && c[o + 1] == b1 && c[o + 2] == b2 && c[o + 3] == b3);
        assert(c[o + 4] == b4 && c[o + 5] == b5 && c[o + 6] == b6 && c[o + 7] == b7);
        assert forall|j: int| 0 <= j < 512 && j != i implies pte_at(c, j) == pte_at(oc, j) by {
            assert(c[8 * j] == oc[8 * j]);
            assert(c[8 * j + 1] == oc[8 * j + 1]);
            assert(c[8 * j + 2] == oc[8 * j + 2]);
            assert(c[8 * j + 3] == oc[8 * j + 3]);
            assert(c[8 * j + 4] == oc[8 * j + 4]);
            assert(c[8 * j + 5] == oc[8 * j + 5]);
            assert(c[8 * j + 6] == oc[8 * j + 6]);
            assert(c[8 * j + 7] == oc[8 * j + 7]);
        }
    }
}

/// A three-level Sv39 page table, owning the frames of its nodes.
pub struct PageTable {
    root_ppn: PhysPageNum,
    frames: Vec<FrameTracker>,
    /// Level and index prefix of each node: the root is `(2, 0)`; the node
    /// that slot `i` of a node `(l, p)` leads to is `(l - 1, p * 512 + i)`.
    nodes: Ghost<Seq<(int, int)>>,
}

impl PageTable {
    /// The page number of the root node.
    pub closed spec fn root(&self) -> PhysPageNum {
        self.root_ppn
    }

    /// Whether node frame `k` is page `p`.
    closed spec fn has_ppn(&self, k: int, p: u64) -> bool {
        0 <= k < self.frames@.len() && self.frames@[k].frame_ppn().0 == p
    }

    /// The page numbers of the frames the table owns.
    pub closed spec fn frame_set(&self) -> Set<u64> {
        Set::new(|p: u64| exists|k: int| self.has_ppn(k, p))
    }

    /// The node frame that is page `p`.
    closed spec fn node_index(&self, p: u64) -> Option<int> {
        if exists|k: int| self.has_ppn(k, p) {
            Some(choose|k: int| self.has_ppn(k, p))
        } else {
            None
        }
    }

    /// Entry `i` of node frame `k`.
    closed spec fn entry(&self, k: int, i: int) -> u64 {
        pte_at(self.frames@[k].contents(), i)
    }

    /// The node frame that slot `i` of node `k` leads to.
    closed spec fn step(&self, k: int, i: int) -> Option<int> {
        if pte_valid(self.entry(k, i)) {
            self.node_index(pte_ppn(self.entry(k, i)))
        } else {
            None
        }
    }

    /// The last-level node on the path of `vpn`.
    closed spec fn walk(&self, vpn: u64) -> Option<int> {
        match self.node_index(self.root_ppn.0) {
            None => None,
            Some(k2) => match self.step(k2, vpn_indexes(vpn).0 as int) {
                None => None,
                Some(k1) => self.step(k1, vpn_indexes(vpn).1 as int),
            },
        }
    }

    /// The valid leaf entry of `vpn`, if the walk from the root reaches one.
    pub closed spec fn lookup(&self, vpn: u64) -> Option<PageTableEntry> {
        match self.walk(vpn) {
            None => None,
            Some(k0) => {
                let e = self.entry(k0, vpn_indexes(vpn).2 as int);
                if pte_valid(e) {
                    Some(PageTableEntry { bits: e })
                } else {
                    None
                }
            },
        }
    }

    /// No two node frames are the same page.
    pub closed spec fn distinct_ppns(&self) -> bool {
        forall|k1: int, k2: int|
            0 <= k1 < self.frames@.len() && 0 <= k2 < self.frames@.len() && k1 != k2 ==> (
            #[trigger] self.frames@[k1]).frame_ppn() != (#[trigger] self.frames@[k2]).frame_ppn()
    }

    /// A valid slot of an interior node leads to a node one level down whose
    /// prefix extends the slot's.
    closed spec fn child_ok(&self, k: int, i: int) -> bool {
        self.nodes@[k].0 > 0 && pte_valid(self.entry(k, i)) ==> exists|k2: int|
            self.has_ppn(k2, pte_ppn(self.entry(k, i))) && #[trigger] self.nodes@[k2] == (
            self.nodes@[k].0 - 1,
            self.nodes@[k].1 * 512 + i,
        )
    }

    /// The table's invariant: the root is node frame 0, every frame holds one
    /// page, no page is owned twice, and the slots of interior nodes lead to
    /// nodes of the next level.
    pub closed spec fn wf(&self) -> bool {
        &&& self.frames@.len() == self.nodes@.len()
        &&& self.frames@.len() >= 1
        &&& self.frames@[0].frame_ppn() == self.root_ppn
        &&& self.nodes@[0] == (2int, 0int)
        &&& forall|k: int| 0 <= k < self.frames@.len() ==> (#[trigger] self.frames@[k]).wf()
        &&& forall|k: int|
            0 <= k < self.frames@.len() ==> 0 <= (#[trigger] self.nodes@[k]).0 <= 2
        &&& self.distinct_ppns()
        &&& forall|k: int, i: int|
            0 <= k < self.frames@.len() && 0 <= i < 512 ==> #[trigger] self.child_ok(k, i)
    }

    proof fn lemma_node_index(&self, k: int)
        requires
            self.distinct_ppns(),
            0 <= k < self.frames@.len(),
        ensures
            self.node_index(self.frames@[k].frame_ppn().0) == Some(k),
    {
        let p = self.frames@[k].frame_ppn().0;
        assert(self.has_ppn(k, p));
        let c = choose|j: int| self.has_ppn(j, p);
        if c != k {
            assert(self.frames@[c].frame_ppn() != self.frames@[k].frame_ppn());
        }
    }

    proof fn lemma_step(&self, k: int, i: int)
        requires
            self.wf(),
            0 <= k < self.frames@.len(),
            0 <= i < 512,
            self.nodes@[k].0 > 0,
            pte_valid(self.entry(k, i)),
        ensures
            self.step(k, i) matches Some(k2) && 0 <= k2 < self.frames@.len() && self.nodes@[k2] == (
            self.nodes@[k].0 - 1,
            self.nodes@[k].1 * 512 + i,
            ) && self.frames@[k2].frame_ppn().0 == pte_ppn(self.entry(k, i)),
    {
        assert(self.child_ok(k, i));
        let k2 = choose|k2: int|
            self.has_ppn(k2, pte_ppn(self.entry(k, i))) && #[trigger] self.nodes@[k2] == (
            self.nodes@[k].0 - 1,
            self.nodes@[k].1 * 512 + i,
            );
        self.lemma_node_index(k2);
    }

    /// On a well-formed table the walk of `vpn` ends at the last-level node
    /// whose prefix is the two upper indices of `vpn`.
    proof fn lemma_walk(&self, vpn: u64)
        requires
            self.wf(),
        ensures
            self.node_index(self.root_ppn.0) == Some(0int),
            self.walk(vpn) matches Some(k0) ==> 0 <= k0 < self.frames@.len() && self.nodes@[k0] == (
            0int,
            (vpn_indexes(vpn).0 as int) * 512 + vpn_indexes(vpn).1 as int,
            ),
    {
        self.lemma_node_index(0);
        let i0 = vpn_indexes(vpn).0 as int;
        let i1 = vpn_indexes(vpn).1 as int;
        assert(i0 < 512 && i1 < 512) by {
            let v = vpn;
            assert((v >> 18u64) & 511 < 512 && (v >> 9u64) & 511 < 512) by (bit_vector);
        }
        if pte_valid(self.entry(0, i0)) {
            self.lemma_step(0, i0);
            let k1 = self.step(0, i0).unwrap();
            if pte_valid(self.entry(k1, i1)) {
                self.lemma_step(k1, i1);
            }
        }
    }

    /// Two tables whose frames agree on the page numbers of `a`'s nodes, and
    /// on the slots that the walk of `vpn` reads, agree on that walk.
    proof fn lemma_same_walk(a: &PageTable, b: &PageTable, vpn: u64)
        requires
            a.wf(),
            b.distinct_ppns(),
            b.root_ppn == a.root_ppn,
            a.frames@.len() <= b.frames@.len(),
            forall|k: int|
                0 <= k < a.frames@.len() ==> (#[trigger] b.frames@[k]).frame_ppn()
                    == a.frames@[k].frame_ppn(),
            b.entry(0, vpn_indexes(vpn).0 as int) == a.entry(0, vpn_indexes(vpn).0 as int),
            a.step(0, vpn_indexes(vpn).0 as int) matches Some(k1) ==> b.entry(
                k1,
                vpn_indexes(vpn).1 as int,
            ) == a.entry(k1, vpn_indexes(vpn).1 as int),
        ensures
            b.walk(vpn) == a.walk(vpn),
            a.walk(vpn) matches Some(k0) ==> (b.entry(k0, vpn_indexes(vpn).2 as int) == a.entry(
                k0,
                vpn_indexes(vpn).2 as int,
            ) ==> b.lookup(vpn) == a.lookup(vpn)),
    {
        a.lemma_walk(vpn);
        a.lemma_node_index(0);
        b.lemma_node_index(0);
        let i0 = vpn_indexes(vpn).0 as int;
        let i1 = vpn_indexes(vpn).1 as int;
        assert(i0 < 512 && i1 < 512) by {
            let v = vpn;
            assert((v >> 18u64) & 511 < 512 && (v >> 9u64) & 511 < 512) by (bit_vector);
        }
        if pte_valid(a.entry(0, i0)) {
            a.lemma_step(0, i0);
            let k1 = a.step(0, i0).unwrap();
            b.lemma_node_index(k1);
            if pte_valid(a.entry(k1, i1)) {
                a.lemma_step(k1, i1);
                let k0 = a.step(k1, i1).unwrap();
                b.lemma_node_index(k0);
            }
        }
    }

    /// Index of the node frame that is page `ppn`.
    fn find_frame(&self, ppn: u64) -> (r: Option<usize>)
        requires
            self.distinct_ppns(),
        ensures
            r matches Some(k) ==> self.node_index(ppn) == Some(k as int),
            r is None ==> self.node_index(ppn) is None,
    {
        let mut k: usize = 0;
        while k < self.frames.len()
            invariant
                k <= self.frames@.len(),
                self.distinct_ppns(),
                forall|j: int| 0 <= j < k ==> !self.has_ppn(j, ppn),
            decreases self.frames@.len() - k,
        {
            if self.frames[k].ppn().0 == ppn {
                proof {
                    self.lemma_node_index(k as int);
                }
                return Some(k);
            }
            k = k + 1;
        }
        None
    }

    /// Follows slot `i` of node `k`.
    fn step_exec(&self, k: usize, i: usize) -> (r: Option<usize>)
        requires
            self.distinct_ppns(),
            0 <= k < self.frames@.len(),
            i < 512,
            self.frames@[k as int].wf(),
        ensures
            r matches Some(k2) ==> self.step(k as int, i as int) == Some(k2 as int),
            r is None ==> self.step(k as int, i as int) is None,
    {
        let e = PageTableEntry { bits: read_pte(&self.frames[k], i) };
        if !e.is_valid() {
            return None;
        }
        self.find_frame(e.ppn().0)
    }

    /// A table with a fresh, zeroed root and no mapping; `None` when no
    /// frame is left.
    pub fn new(allocator: &mut StackFrameAllocator) -> (r: Option<PageTable>)
        requires
            old(allocator).wf(),
        ensures
            final(allocator).wf(),
            final(allocator).range_end() == old(allocator).range_end(),
            r is None <==> old(allocator).available() == 0,
            r is None ==> final(allocator).in_use() == old(allocator).in_use(),
            r is Some ==> final(allocator).available() == old(allocator).available() - 1,
            r matches Some(pt) ==> {
                &&& pt.wf()
                &&& forall|v: u64| #[trigger] pt.lookup(v) is None
                &&& pt.frame_set() == set![pt.root().0]
                &&& !old(allocator).in_use().contains(pt.root().0)
                &&& final(allocator).in_use() == old(allocator).in_use().insert(pt.root().0)
            },
    {
        match frame_alloc(allocator) {
            None => None,
            Some(frame) => {
                let root_ppn = frame.ppn();
                let mut frames: Vec<FrameTracker> = Vec::new();
                frames.push(frame);
                let pt = PageTable { root_ppn, frames, nodes: Ghost(Seq::empty().push((2int, 0int))) };
                proof {
                    let c = pt.frames@[0].contents();
                    assert forall|i: int| 0 <= i < 512 implies pt.entry(0, i) == 0 by {
                        lemma_zero_entry(c, i);
                    }
                    assert forall|k: int, i: int|
                        0 <= k < pt.frames@.len() && 0 <= i < 512 implies #[trigger] pt.child_ok(
                        k,
                        i,
                    ) by {
                        assert(pt.entry(k, i) == 0);
                        assert(!pte_valid(0u64)) by (bit_vector);
                    }
                    assert(pt.wf());
                    assert forall|v: u64| #[trigger] pt.lookup(v) is None by {
                        pt.lemma_walk(v);
                        let i0 = vpn_indexes(v).0 as int;
                        assert(i0 < 512) by {
                            assert((v >> 18u64) & 511 < 512) by (bit_vector);
                        }
                        assert(pt.entry(0, i0) == 0);
                        assert(!pte_valid(0u64)) by (bit_vector);
                    }
                    assert(pt.frame_set() =~= set![root_ppn.0]) by {
                        assert(pt.has_ppn(0, root_ppn.0));
                    }
                }
                Some(pt)
            },
        }
    }

    /// A view of the table whose root is named by the low 44 bits of a `satp`
    /// value. It owns no frame, so no walk through it reaches a node.
    pub fn from_token(satp: u64) -> (r: PageTable)
        ensures
            r.root().0 == satp & PPN_MASK,
            r.frame_set() == Set::<u64>::empty(),
            r.distinct_ppns(),
            forall|v: u64| #[trigger] r.lookup(v) is None,
    {
        let r = PageTable {
            root_ppn: PhysPageNum(satp & PPN_MASK),
            frames: Vec::new(),
            nodes: Ghost(Seq::empty()),
        };
        assert(r.frame_set() =~= Set::<u64>::empty());
        r
    }

    /// The last-level node on the path of `vpn`, creating nothing.
    fn find_pte(&self, vpn: VirtPageNum) -> (r: Option<usize>)
        requires
            self.distinct_ppns(),
            forall|k: int| 0 <= k < self.frames@.len() ==> (#[trigger] self.frames@[k]).wf(),
        ensures
            r matches Some(k) ==> self.walk(vpn.0) == Some(k as int),
            r is None ==> self.walk(vpn.0) is None,
    {
        let idxs = vpn.indexes();
        let root = match self.find_frame(self.root_ppn.0) {
            Some(k) => k,
            None => return None,
        };
        let mid = match self.step_exec(root, idxs[0]) {
            Some(k) => k,
            None => return None,
        };
        self.step_exec(mid, idxs[1])
    }

    /// The valid leaf entry of `vpn`, if any.
    pub fn translate(&self, vpn: VirtPageNum) -> (r: Option<PageTableEntry>)
        requires
            self.wf() || self.frame_set() == Set::<u64>::empty(),
        ensures
            r == self.lookup(vpn.0),
    {
        proof {
            if !self.wf() {
                assert(self.frames@.len() == 0) by {
                    if self.frames@.len() > 0 {
                        assert(self.frame_set().contains(self.frames@[0].frame_ppn().0)) by {
                            assert(self.has_ppn(0, self.frames@[0].frame_ppn().0));
                        }
                    }
                }
            }
        }
        let idxs = vpn.indexes();
        match self.find_pte(vpn) {
            None => None,
            Some(k) => {
                let e = PageTableEntry { bits: read_pte(&self.frames[k], idxs[2]) };
                if e.is_valid() {
                    Some(e)
                } else {
                    None
                }
            },
        }
    }

    /// The frames `after` owns that `before` did not.
    pub open spec fn new_frames(before: Set<u64>, after: Set<u64>) -> Set<u64> {
        after.difference(before)
    }

    /// How a step that may take frames from `allocator` relates the table
    /// and the allocator before and after: the table's frames only grow, by
    /// frames that were free, and those are now in use.
    pub open spec fn frames_grown(
        before: &PageTable,
        after: &PageTable,
        alloc_before: &StackFrameAllocator,
        alloc_after: &StackFrameAllocator,
    ) -> bool {
        &&& before.frame_set().subset_of(after.frame_set())
        &&& alloc_before.in_use().disjoint(Self::new_frames(before.frame_set(), after.frame_set()))
        &&& alloc_after.in_use() == alloc_before.in_use().union(
            Self::new_frames(before.frame_set(), after.frame_set()),
        )
        &&& after.frame_set().subset_of(alloc_after.in_use())
        &&& alloc_after.range_end() == alloc_before.range_end()
        &&& alloc_before.available() - 2 <= alloc_after.available() <= alloc_before.available()
    }

    /// Follows slot `i` of interior node `k`, first giving the slot a fresh,
    /// zeroed node of the next level when it is not valid.
    fn step_create(&mut self, allocator: &mut StackFrameAllocator, k: usize, i: usize) -> (r: Result<
        usize,
        MemError,
    >)
        requires
            old(self).wf(),
            old(allocator).wf(),
            old(self).frame_set().subset_of(old(allocator).in_use()),
            k < old(self).frames@.len(),
            i < 512,
            old(self).nodes@[k as int].0 > 0,
        ensures
            final(self).wf(),
            final(allocator).wf(),
            Self::frames_grown(old(self), final(self), old(allocator), final(allocator)),
            final(allocator).available() >= old(allocator).available() - 1,
            final(self).root_ppn == old(self).root_ppn,
            old(self).frames@.len() <= final(self).frames@.len(),
            forall|j: int|
                0 <= j < old(self).frames@.len() ==> (#[trigger] final(self).frames@[j]).frame_ppn()
                    == old(self).frames@[j].frame_ppn() && final(self).nodes@[j] == old(
                    self,
                ).nodes@[j],
            forall|j: int, m: int|
                0 <= j < old(self).frames@.len() && 0 <= m < 512 && (j != k || m != i)
                    ==> #[trigger] final(self).entry(j, m) == old(self).entry(j, m),
            forall|v: u64| #[trigger] final(self).lookup(v) == old(self).lookup(v),
            r matches Ok(k2) ==> final(self).step(k as int, i as int) == Some(k2 as int) && k2
                < final(self).frames@.len() && final(self).nodes@[k2 as int] == (
                old(self).nodes@[k as int].0 - 1,
                old(self).nodes@[k as int].1 * 512 + i,
            ),
            r is Err ==> r == Err::<usize, MemError>(MemError::OutOfFrames) && old(
                allocator,
            ).available() == 0,
            old(allocator).available() > 0 ==> r is Ok,
            pte_valid(old(self).entry(k as int, i as int)) ==> final(self).frames@ == old(self).frames@,
            r matches Ok(k2) ==> (!pte_valid(old(self).entry(k as int, i as int)) ==> {
                &&& k2 == old(self).frames@.len()
                &&& final(self).frames@.len() == old(self).frames@.len() + 1
                &&& final(self).entry(k as int, i as int) == pte_bits(
                    final(self).frames@[k2 as int].frame_ppn().0,
                    PTE_V,
                )
                &&& !old(allocator).in_use().contains(final(self).frames@[k2 as int].frame_ppn().0)
                &&& final(self).frames@[k2 as int].contents() == Seq::new(PAGE_SIZE as nat, |b: int| 0u8)
            }),
    {
        let ghost s0 = *self;
        let e = PageTableEntry { bits: read_pte(&self.frames[k], i) };
        if e.is_valid() {
            proof {
                self.lemma_step(k as int, i as int);
                assert(Self::new_frames(s0.frame_set(), self.frame_set()) =~= Set::empty());
                assert(allocator.in_use().union(Set::empty()) =~= allocator.in_use());
            }
            let r = self.find_frame(e.ppn().0);
            return match r {
                Some(k2) => Ok(k2),
                None => Err(MemError::OutOfFrames),
            };
        }
        let frame = match frame_alloc(allocator) {
            Some(f) => f,
            None => {
                proof {
                    assert(Self::new_frames(s0.frame_set(), self.frame_set()) =~= Set::empty());
                    assert(old(allocator).in_use().union(Set::empty()) =~= old(allocator).in_use());
                }
                return Err(MemError::OutOfFrames);
            },
        };
        let new_ppn = frame.ppn();
        let n = self.frames.len();
        proof {
            assert(!s0.frame_set().contains(new_ppn.0));
            assert forall|j: int| 0 <= j < s0.frames@.len() implies s0.frames@[j].frame_ppn().0
                != new_ppn.0 by {
                assert(s0.has_ppn(j, s0.frames@[j].frame_ppn().0));
            }
        }
        self.frames.push(frame);
        let ghost label = (s0.nodes@[k as int].0 - 1, s0.nodes@[k as int].1 * 512 + i);
        self.nodes = Ghost(self.nodes@.push(label));
        let ghost s1 = *self;
        proof {
            let c = s1.frames@[n as int].contents();
            assert forall|m: int| 0 <= m < 512 implies s1.entry(n as int, m) == 0 by {
                lemma_zero_entry(c, m);
            }
            assert(!pte_valid(0u64)) by (bit_vector);
            assert forall|j: int| 0 <= j < s0.frames@.len() implies #[trigger] s1.frames@[j]
                == s0.frames@[j] by {}
            assert(s1.distinct_ppns());
            assert forall|j: int, m: int|
                0 <= j < s1.frames@.len() && 0 <= m < 512 implies #[trigger] s1.child_ok(j, m) by {
                if j < n {
                    assert(s1.entry(j, m) == s0.entry(j, m));
                    assert(s0.child_ok(j, m));
                    if s1.nodes@[j].0 > 0 && pte_valid(s1.entry(j, m)) {
                        let w = choose|w: int|
                            s0.has_ppn(w, pte_ppn(s0.entry(j, m))) && #[trigger] s0.nodes@[w] == (
                            s0.nodes@[j].0 - 1,
                            s0.nodes@[j].1 * 512 + m,
                            );
                        assert(s1.has_ppn(w, pte_ppn(s1.entry(j, m))) && s1.nodes@[w] == (
                            s1.nodes@[j].0 - 1,
                            s1.nodes@[j].1 * 512 + m,
                        ));
                    }
                } else {
                    assert(s1.entry(j, m) == 0);
                }
            }
            assert(s1.wf());
            assert forall|v: u64| #[trigger] s1.lookup(v) == s0.lookup(v) by {
                Self::lemma_same_walk(&s0, &s1, v);
                s0.lemma_walk(v);
            }
        }
        let pte = PageTableEntry::new(new_ppn, PTEFlags::from_bits(PTE_V));
        write_pte(&mut self.frames[k], i, pte.bits);
        proof {
            let s2 = *self;
            lemma_pte_fields(new_ppn.0, PTE_V);
            assert(1u8 & 1u8 != 0) by (bit_vector);
            assert(pte_ppn(s2.entry(k as int, i as int)) == new_ppn.0);
            assert(pte_valid(s2.entry(k as int, i as int)));
            assert forall|j: int| 0 <= j < s1.frames@.len() implies (#[trigger] s2.frames@[j]).frame_ppn()
                == s1.frames@[j].frame_ppn() && s2.frames@[j].wf() by {}
            assert(s2.distinct_ppns());
            assert forall|j: int, m: int|
                0 <= j < s2.frames@.len() && 0 <= m < 512 && (j != k || m != i) implies #[trigger] s2.entry(j, m) == s1.entry(j, m) by {
                if j != k {
                    assert(s2.frames@[j] == s1.frames@[j]);
                }
            }
            assert(s2.has_ppn(n as int, new_ppn.0));
            s2.lemma_node_index(n as int);
            assert(s2.step(k as int, i as int) == Some(n as int));
            assert forall|j: int, m: int|
                0 <= j < s2.frames@.len() && 0 <= m < 512 implies #[trigger] s2.child_ok(j, m) by {
                if j == k && m == i {
                    assert(s2.has_ppn(n as int, pte_ppn(s2.entry(j, m))));
                    assert(s2.nodes@[n as int] == (s2.nodes@[j].0 - 1, s2.nodes@[j].1 * 512 + m));
                } else {
                    assert(s2.entry(j, m) == s1.entry(j, m));
                    assert(s1.child_ok(j, m));
                    if s2.nodes@[j].0 > 0 && pte_valid(s2.entry(j, m)) {
                        let w = choose|w: int|
                            s1.has_ppn(w, pte_ppn(s1.entry(j, m))) && #[trigger] s1.nodes@[w] == (
                            s1.nodes@[j].0 - 1,
                            s1.nodes@[j].1 * 512 + m,
                            );
                        assert(s2.has_ppn(w, pte_ppn(s2.entry(j, m))));
                    }
                }
            }
            assert(s2.wf());
            assert forall|m: int| 0 <= m < 512 implies s2.entry(n as int, m) == 0 by {
                assert(s2.entry(n as int, m) == s1.entry(n as int, m));
            }
            assert forall|v: u64| #[trigger] s2.lookup(v) == s1.lookup(v) by {
                s1.lemma_walk(v);
                s2.lemma_walk(v);
                let i0 = vpn_indexes(v).0 as int;
                let i1 = vpn_indexes(v).1 as int;
                let i2 = vpn_indexes(v).2 as int;
                assert(i0 < 512 && i1 < 512 && i2 < 512) by {
                    assert((v >> 18u64) & 511 < 512 && (v >> 9u64) & 511 < 512 && v & 511 < 512)
                        by (bit_vector);
                }
                s1.lemma_node_index(0);
                s2.lemma_node_index(0);
                if k == 0 && i == i0 {
                    assert(s1.walk(v) is None);
                    assert(s2.step(0, i0) == Some(n as int));
                    assert(s2.entry(n as int, i1) == 0);
                } else if pte_valid(s1.entry(0, i0)) {
                    s1.lemma_step(0, i0);
                    let k1 = s1.step(0, i0).unwrap();
                    if k1 == k && i1 == i {
                        assert(s1.walk(v) is None);
                        assert(k != 0);
                        assert(s2.entry(0, i0) == s1.entry(0, i0));
                        s2.lemma_node_index(k1);
                        assert(s2.step(0, i0) == Some(k1));
                        assert(s2.walk(v) == Some(n as int));
                        assert(s2.entry(n as int, i2) == 0);
                    } else {
                        Self::lemma_same_walk(&s1, &s2, v);
                        if pte_valid(s1.entry(k1, i1)) {
                            s1.lemma_step(k1, i1);
                        }
                    }
                } else {
                    Self::lemma_same_walk(&s1, &s2, v);
                }
            }
            assert(s2.frame_set() =~= s0.frame_set().insert(new_ppn.0)) by {
                assert forall|p: u64| #[trigger] s2.frame_set().contains(p) == s0.frame_set().insert(new_ppn.0).contains(p) by {
                    if s2.frame_set().contains(p) {
                        let w = choose|w: int| s2.has_ppn(w, p);
                        if w < n {
                            assert(s0.has_ppn(w, p));
                        }
                    }
                    if s0.frame_set().contains(p) {
                        let w = choose|w: int| s0.has_ppn(w, p);
                        assert(s2.has_ppn(w, p));
                    }
                    if p == new_ppn.0 {
                        assert(s2.has_ppn(n as int, p));
                    }
                }
            }
            assert(Self::new_frames(s0.frame_set(), s2.frame_set()) =~= set![new_ppn.0]);
            assert(old(allocator).in_use().insert(new_ppn.0) =~= old(allocator).in_use().union(set![new_ppn.0]));
        }
        Ok(n)
    }

    /// Writing `w` into the leaf slot of `vpn` changes the lookup of exactly
    /// the page numbers whose indices are those of `vpn`.
    proof fn lemma_leaf_write(a: &PageTable, b: &PageTable, vpn: u64, w: u64)
        requires
            a.wf(),
            a.walk(vpn) is Some,
            b.root_ppn == a.root_ppn,
            b.frames@.len() == a.frames@.len(),
            b.nodes@ == a.nodes@,
            forall|j: int|
                0 <= j < a.frames@.len() ==> (#[trigger] b.frames@[j]).frame_ppn()
                    == a.frames@[j].frame_ppn() && b.frames@[j].wf(),
            forall|j: int, m: int|
                0 <= j < a.frames@.len() && 0 <= m < 512 && (j != a.walk(vpn).unwrap() || m
                    != vpn_indexes(vpn).2 as int) ==> #[trigger] b.entry(j, m) == a.entry(j, m),
            b.entry(a.walk(vpn).unwrap(), vpn_indexes(vpn).2 as int) == w,
        ensures
            b.wf(),
            b.frame_set() == a.frame_set(),
            forall|v: u64| #[trigger]
                b.lookup(v) == if vpn_indexes(v) == vpn_indexes(vpn) {
                    if pte_valid(w) {
                        Some(PageTableEntry { bits: w })
                    } else {
                        None
                    }
                } else {
                    a.lookup(v)
                },
    {
        let k0 = a.walk(vpn).unwrap();
        let i2 = vpn_indexes(vpn).2 as int;
        a.lemma_walk(vpn);
        assert(b.distinct_ppns());
        assert forall|j: int, m: int|
            0 <= j < b.frames@.len() && 0 <= m < 512 implies #[trigger] b.child_ok(j, m) by {
            if j != k0 || m != i2 {
                assert(a.child_ok(j, m));
                if b.nodes@[j].0 > 0 && pte_valid(b.entry(j, m)) {
                    let x = choose|x: int|
                        a.has_ppn(x, pte_ppn(a.entry(j, m))) && #[trigger] a.nodes@[x] == (
                        a.nodes@[j].0 - 1,
                        a.nodes@[j].1 * 512 + m,
                        );
                    assert(b.has_ppn(x, pte_ppn(b.entry(j, m))));
                }
            }
        }
        assert(b.wf());
        assert(b.frame_set() =~= a.frame_set()) by {
            assert forall|p: u64| #[trigger] b.frame_set().contains(p) == a.frame_set().contains(p) by {
                if b.frame_set().contains(p) {
                    let x = choose|x: int| b.has_ppn(x, p);
                    assert(a.has_ppn(x, p));
                }
                if a.frame_set().contains(p) {
                    let x = choose|x: int| a.has_ppn(x, p);
                    assert(b.has_ppn(x, p));
                }
            }
        }
        assert forall|v: u64| #[trigger]
            b.lookup(v) == if vpn_indexes(v) == vpn_indexes(vpn) {
                if pte_valid(w) {
                    Some(PageTableEntry { bits: w })
                } else {
                    None
                }
            } else {
                a.lookup(v)
            } by {
            a.lemma_walk(v);
            a.lemma_node_index(0);
            let i0 = vpn_indexes(v).0 as int;
            let i1 = vpn_indexes(v).1 as int;
            assert(i0 < 512 && i1 < 512) by {
                assert((v >> 18u64) & 511 < 512 && (v >> 9u64) & 511 < 512) by (bit_vector);
            }
            let i2v = vpn_indexes(v).2 as int;
            assert(i2v < 512) by {
                assert(v & 511 < 512) by (bit_vector);
            }
            assert(k0 != 0);
            assert(b.entry(0, i0) == a.entry(0, i0));
            if pte_valid(a.entry(0, i0)) {
                a.lemma_step(0, i0);
                let k1 = a.step(0, i0).unwrap();
                assert(k1 != k0);
                assert(b.entry(k1, i1) == a.entry(k1, i1));
            }
            Self::lemma_same_walk(a, b, v);
            if vpn_indexes(v) == vpn_indexes(vpn) {
                assert(a.walk(v) == a.walk(vpn));
                assert(b.walk(v) == Some(k0));
            } else {
                if let Some(kv) = a.walk(v) {
                    if kv == k0 {
                        assert(a.nodes@[k0] == (0int, (vpn_indexes(vpn).0 as int) * 512 + vpn_indexes(vpn).1 as int));
                        let j0 = vpn_indexes(vpn).0 as int;
                        let j1 = vpn_indexes(vpn).1 as int;
                        assert(j0 < 512 && j1 < 512) by {
                            let u = vpn;
                            assert((u >> 18u64) & 511 < 512 && (u >> 9u64) & 511 < 512) by (bit_vector);
                        }
                        assert(i0 == j0 && i1 == j1) by (nonlinear_arith)
                            requires
                                i0 * 512 + i1 == j0 * 512 + j1,
                                0 <= i0 < 512,
                                0 <= i1 < 512,
                                0 <= j0 < 512,
                                0 <= j1 < 512,
                        ;
                        assert(i2v != i2);
                    }
                    assert(b.entry(kv, i2v) == a.entry(kv, i2v));
                }
            }
        }
    }

    /// Slot `i` of node `k` kept its valid entry, or was invalid and now
    /// holds the entry with only `V` of a frame that was free.
    pub closed spec fn created_or_kept(
        before: &PageTable,
        after: &PageTable,
        alloc_before: &StackFrameAllocator,
        k: int,
        i: int,
    ) -> bool {
        if pte_valid(before.entry(k, i)) {
            after.entry(k, i) == before.entry(k, i)
        } else {
            Self::created_entry(after, alloc_before, k, i)
        }
    }

    /// The level-1 slot on the path of `vpn` kept its valid entry, or was
    /// missing or invalid and now holds the entry with only `V` of a frame
    /// that was free.
    pub closed spec fn level1_created_or_kept(
        before: &PageTable,
        after: &PageTable,
        alloc_before: &StackFrameAllocator,
        vpn: u64,
    ) -> bool {
        match after.step(0, vpn_indexes(vpn).0 as int) {
            Some(k1) => if k1 < before.frames@.len() {
                Self::created_or_kept(before, after, alloc_before, k1, vpn_indexes(vpn).1 as int)
            } else {
                Self::created_entry(after, alloc_before, k1, vpn_indexes(vpn).1 as int)
            },
            None => false,
        }
    }

    /// Slot `i` of node `k` holds the entry with only `V` of a frame that was
    /// free in `alloc_before`.
    pub closed spec fn created_entry(after: &PageTable, alloc_before: &StackFrameAllocator, k: int, i: int) -> bool {
        after.entry(k, i) == pte_bits(pte_ppn(after.entry(k, i)), PTE_V) && !alloc_before.in_use().contains(
            pte_ppn(after.entry(k, i)),
        )
    }

    /// The last-level node on the path of `vpn`, creating the interior
    /// nodes that are missing: each with only `V`, on a fresh zeroed frame.
    fn find_pte_create(&mut self, allocator: &mut StackFrameAllocator, vpn: VirtPageNum) -> (r:
        Result<usize, MemError>)
        requires
            old(self).wf(),
            old(allocator).wf(),
            old(self).frame_set().subset_of(old(allocator).in_use()),
        ensures
            final(self).wf(),
            final(allocator).wf(),
            Self::frames_grown(old(self), final(self), old(allocator), final(allocator)),
            final(self).root_ppn == old(self).root_ppn,
            forall|v: u64| #[trigger] final(self).lookup(v) == old(self).lookup(v),
            r matches Ok(k0) ==> final(self).walk(vpn.0) == Some(k0 as int),
            r is Ok ==> Self::created_or_kept(old(self), final(self), old(allocator), 0, vpn_indexes(vpn.0).0 as int),
            r is Ok ==> Self::level1_created_or_kept(old(self), final(self), old(allocator), vpn.0),
            r is Ok ==> forall|j: int, m: int|
                old(self).frames@.len() <= j < final(self).frames@.len() && 0 <= m < 512 && !(final(self).step(0, vpn_indexes(vpn.0).0 as int) == Some(j) && m == vpn_indexes(vpn.0).1)
                    ==> #[trigger] final(self).entry(j, m) == 0,
            forall|j: int, m: int|
                0 <= j < old(self).frames@.len() && 0 <= m < 512 && !(j == 0 && m == vpn_indexes(vpn.0).0)
                    && !(old(self).step(0, vpn_indexes(vpn.0).0 as int) == Some(j) && m
                    == vpn_indexes(vpn.0).1) ==> #[trigger] final(self).entry(j, m) == old(self).entry(j, m),
            r is Err ==> r == Err::<usize, MemError>(MemError::OutOfFrames) && old(
                allocator,
            ).available() < 2,
            old(allocator).available() >= 2 ==> r is Ok,
    {
        let ghost s0 = *self;
        let ghost a0 = *allocator;
        let idxs = vpn.indexes();
        proof {
            self.lemma_node_index(0);
        }
        let mid = match self.step_create(allocator, 0, idxs[0]) {
            Ok(k) => k,
            Err(e) => return Err(e),
        };
        let ghost s1 = *self;
        let ghost a1 = *allocator;
        proof {
            let i0 = idxs[0] as int;
            if pte_valid(s0.entry(0, i0)) {
                assert(s1.frames@ == s0.frames@);
                s0.lemma_step(0, i0);
                let k2 = s0.step(0, i0).unwrap();
                assert(s1.entry(0, i0) == s0.entry(0, i0));
                s1.lemma_node_index(k2);
                assert(s0.step(0, i0) == Some(mid as int));
            } else {
                assert(mid == s0.frames@.len());
            }
        }
        let leaf = match self.step_create(allocator, mid, idxs[1]) {
            Ok(k) => k,
            Err(e) => {
                proof {
                    assert forall|j: int, m: int|
                        0 <= j < s0.frames@.len() && 0 <= m < 512 && !(j == 0 && m == vpn_indexes(vpn.0).0)
                            && !(s0.step(0, vpn_indexes(vpn.0).0 as int) == Some(j) && m
                            == vpn_indexes(vpn.0).1) implies #[trigger] self.entry(j, m) == s0.entry(j, m) by {
                        assert(s1.entry(j, m) == s0.entry(j, m));
                    }
                    assert(Self::new_frames(s0.frame_set(), self.frame_set()) =~= Self::new_frames(
                        s0.frame_set(),
                        s1.frame_set(),
                    ).union(Self::new_frames(s1.frame_set(), self.frame_set())));
                    assert(allocator.in_use() =~= a0.in_use().union(
                        Self::new_frames(s0.frame_set(), self.frame_set()),
                    ));
                }
                return Err(e);
            },
        };
        proof {
            let s2 = *self;
            assert(Self::new_frames(s0.frame_set(), s2.frame_set()) =~= Self::new_frames(
                s0.frame_set(),
                s1.frame_set(),
            ).union(Self::new_frames(s1.frame_set(), s2.frame_set())));
            assert(allocator.in_use() =~= a0.in_use().union(
                Self::new_frames(s0.frame_set(), s2.frame_set()),
            ));
            assert(mid != 0);
            assert(s2.entry(0, idxs[0] as int) == s1.entry(0, idxs[0] as int));
            s2.lemma_node_index(0);
            s2.lemma_node_index(mid as int);
            assert(s2.step(0, idxs[0] as int) == Some(mid as int));
            let i0 = idxs[0] as int;
            let i1 = idxs[1] as int;
            assert(a0.in_use().subset_of(a1.in_use()));
            if mid as int >= s0.frames@.len() {
                lemma_zero_entry(s1.frames@[mid as int].contents(), i1);
                assert(!pte_valid(0u64)) by (bit_vector);
                assert(!pte_valid(s1.entry(mid as int, i1)));
            } else {
                assert(s1.frames@ == s0.frames@);
                assert(s1.entry(mid as int, i1) == s0.entry(mid as int, i1));
            }
            if !pte_valid(s1.entry(mid as int, i1)) {
                let e = s2.entry(mid as int, i1);
                assert(s2.step(mid as int, i1) == Some(leaf as int));
                assert(s2.has_ppn(leaf as int, pte_ppn(e)));
                assert(pte_ppn(e) == s2.frames@[leaf as int].frame_ppn().0);
                assert(Self::created_entry(&s2, &a0, mid as int, i1));
            } else {
                assert(s2.frames@ == s1.frames@);
            }
            assert(Self::level1_created_or_kept(&s0, &s2, &a0, vpn.0));
            assert forall|j: int, m: int|
                s0.frames@.len() <= j < s2.frames@.len() && 0 <= m < 512 && !(s2.step(0, i0) == Some(j) && m == i1)
                    implies #[trigger] s2.entry(j, m) == 0 by {
                if j < s1.frames@.len() {
                    assert(j == mid);
                    lemma_zero_entry(s1.frames@[j].contents(), m);
                    assert(s2.entry(j, m) == s1.entry(j, m));
                } else {
                    assert(j == leaf);
                    lemma_zero_entry(s2.frames@[j].contents(), m);
                }
            }
        }
        proof {
            assert forall|j: int, m: int|
                0 <= j < s0.frames@.len() && 0 <= m < 512 && !(j == 0 && m == vpn_indexes(vpn.0).0)
                    && !(s0.step(0, vpn_indexes(vpn.0).0 as int) == Some(j) && m
                    == vpn_indexes(vpn.0).1) implies #[trigger] self.entry(j, m) == s0.entry(j, m) by {
                assert(s1.entry(j, m) == s0.entry(j, m));
            }
        }
        Ok(leaf)
    }

    /// Maps `vpn` to `ppn` with `flags` plus `V`. Interior nodes that are
    /// missing are created; `Err(OutOfFrames)` when the allocator runs out
    /// first, in which case no lookup has changed.
    pub fn map(
        &mut self,
        allocator: &mut StackFrameAllocator,
        vpn: VirtPageNum,
        ppn: PhysPageNum,
        flags: PTEFlags,
    ) -> (r: Result<(), MemError>)
        requires
            old(self).wf(),
            old(allocator).wf(),
            old(self).frame_set().subset_of(old(allocator).in_use()),
            old(self).lookup(vpn.0) is None,
        ensures
            final(self).wf(),
            final(allocator).wf(),
            Self::frames_grown(old(self), final(self), old(allocator), final(allocator)),
            final(self).root() == old(self).root(),
            r is Ok ==> final(self).lookup(vpn.0) == Some(
                PageTableEntry { bits: pte_bits(ppn.0, flags.bits | PTE_V) },
            ),
            r is Ok ==> forall|v: u64| #[trigger]
                final(self).lookup(v) == if vpn_indexes(v) == vpn_indexes(vpn.0) {
                    Some(PageTableEntry { bits: pte_bits(ppn.0, flags.bits | PTE_V) })
                } else {
                    old(self).lookup(v)
                },
            r is Err ==> r == Err::<(), MemError>(MemError::OutOfFrames) && old(
                allocator,
            ).available() < 2 && forall|v: u64| #[trigger]
                final(self).lookup(v) == old(self).lookup(v),
            old(allocator).available() >= 2 ==> r is Ok,
    {
        let leaf = match self.find_pte_create(allocator, vpn) {
            Ok(k) => k,
            Err(e) => return Err(e),
        };
        let ghost s1 = *self;
        let idxs = vpn.indexes();
        let pte = PageTableEntry::new(ppn, flags.union(PTEFlags::from_bits(PTE_V)));
        write_pte(&mut self.frames[leaf], idxs[2], pte.bits);
        proof {
            let s2 = *self;
            let fb = flags.bits;
            let p = ppn.0;
            assert(pte_valid((p << 10u64) | ((fb | 1u8) as u64))) by (bit_vector);
            assert forall|j: int| 0 <= j < s1.frames@.len() implies (#[trigger] s2.frames@[j]).frame_ppn()
                == s1.frames@[j].frame_ppn() && s2.frames@[j].wf() by {}
            assert forall|j: int, m: int|
                0 <= j < s1.frames@.len() && 0 <= m < 512 && (j != leaf || m != idxs[2] as int) implies #[trigger] s2.entry(j, m) == s1.entry(j, m) by {
                if j != leaf {
                    assert(s2.frames@[j] == s1.frames@[j]);
                }
            }
            Self::lemma_leaf_write(&s1, &s2, vpn.0, pte.bits);
        }
        Ok(())
    }

    /// Removes the mapping of `vpn`, which must be mapped.
    pub fn unmap(&mut self, vpn: VirtPageNum)
        requires
            old(self).wf(),
            old(self).lookup(vpn.0) is Some,
        ensures
            final(self).wf(),
            final(self).frame_set() == old(self).frame_set(),
            final(self).root() == old(self).root(),
            final(self).lookup(vpn.0) is None,
            forall|v: u64| #[trigger]
                final(self).lookup(v) == if vpn_indexes(v) == vpn_indexes(vpn.0) {
                    None
                } else {
                    old(self).lookup(v)
                },
    {
        let ghost s1 = *self;
        let idxs = vpn.indexes();
        let leaf = match self.find_pte(vpn) {
            Some(k) => k,
            None => return ,
        };
        proof {
            s1.lemma_walk(vpn.0);
        }
        write_pte(&mut self.frames[leaf], idxs[2], PageTableEntry::empty().bits);
        proof {
            let s2 = *self;
            assert(!pte_valid(0u64)) by (bit_vector);
            assert forall|j: int| 0 <= j < s1.frames@.len() implies (#[trigger] s2.frames@[j]).frame_ppn()
                == s1.frames@[j].frame_ppn() && s2.frames@[j].wf() by {}
            assert forall|j: int, m: int|
                0 <= j < s1.frames@.len() && 0 <= m < 512 && (j != leaf || m != idxs[2] as int) implies #[trigger] s2.entry(j, m) == s1.entry(j, m) by {
                if j != leaf {
                    assert(s2.frames@[j] == s1.frames@[j]);
                }
            }
            Self::lemma_leaf_write(&s1, &s2, vpn.0, 0);
        }
    }

    /// Hands every frame of the table back to the allocator.
    pub fn release(self, allocator: &mut StackFrameAllocator)
        requires
            self.wf(),
            old(allocator).wf(),
            self.frame_set().subset_of(old(allocator).in_use()),
        ensures
            final(allocator).wf(),
            final(allocator).range_end() == old(allocator).range_end(),
            final(allocator).in_use() == old(allocator).in_use().difference(self.frame_set()),
    {
        proof {
            assert(frame_ppns(self.frames@) =~= self.frame_set()) by {
                assert forall|p: u64| #[trigger] frame_ppns(self.frames@).contains(p) == self.frame_set().contains(p) by {
                    if self.frame_set().contains(p) {
                        let k = choose|k: int| self.has_ppn(k, p);
                        assert(self.frames@[k].frame_ppn().0 == p);
                    }
                    if frame_ppns(self.frames@).contains(p) {
                        let k = choose|k: int| 0 <= k < self.frames@.len() && #[trigger] self.frames@[k].frame_ppn().0 == p;
                        assert(self.has_ppn(k, p));
                    }
                }
            }
        }
        release_frames(allocator, self.frames);
    }
}

/// Mapping a page that was unmapped and then unmapping it gives every page
/// its lookup from before: the mapping is seen while it stands, and then no
/// more.
pub proof fn lemma_map_unmap_round_trip(
    before: &PageTable,
    mapped: &PageTable,
    after: &PageTable,
    vpn: u64,
    e: PageTableEntry,
)
    requires
        before.lookup(vpn) is None,
        forall|v: u64| #[trigger]
            mapped.lookup(v) == if vpn_indexes(v) == vpn_indexes(vpn) {
                Some(e)
            } else {
                before.lookup(v)
            },
        forall|v: u64| #[trigger]
            after.lookup(v) == if vpn_indexes(v) == vpn_indexes(vpn) {
                None
            } else {
                mapped.lookup(v)
            },
    ensures
        mapped.lookup(vpn) == Some(e),
        after.lookup(vpn) is None,
        forall|v: u64| #[trigger] after.lookup(v) == before.lookup(v),
{
    assert(mapped.lookup(vpn) == Some(e));
    assert forall|v: u64| #[trigger] after.lookup(v) == before.lookup(v) by {
        if vpn_indexes(v) == vpn_indexes(vpn) {
            assert(before.lookup(v) == before.lookup(vpn));
        } else {
            assert(mapped.lookup(v) == before.lookup(v));
        }
    }
}

} // verus!
