//! Map areas and address spaces.
//!
//! A map area is a half-open range of virtual pages mapped either onto the
//! physical pages of the same numbers (`Identical`) or onto frames allocated
//! for it (`Framed`), with one set of permissions. An address space is a page
//! table and the areas mapped in it.
use vstd::prelude::*;

use crate::config::{PAGE_SIZE, USER_STACK_SIZE, TRAMPOLINE, TRAP_CONTEXT, MEMORY_END};
use crate::mm::elf::{ProgramSegment, elf_header_of, elf_program_header_of, program_header_in_image, read_elf_header, read_program_header};
use crate::mm::MemError;
use crate::mm::address::{PhysAddr, VirtAddr, VirtPageNum, PhysPageNum, VA_MASK, VPN_MASK, PPN_MASK, page_ceil, sign_extend_va, vpn_indexes, lemma_vpn_indexes_injective};
use crate::mm::frame_allocator::{FrameTracker, StackFrameAllocator, frame_alloc, frame_dealloc};
use std::collections::BTreeMap;
use crate::mm::page_table::{PageTable, PageTableEntry, PTEFlags, PTE_V, PTE_R, PTE_X, pte_bits, pte_ppn, lemma_pte_fields};

verus! {

broadcast use vstd::std_specs::btree::group_btree_axioms, vstd::laws_cmp::group_laws_cmp;

/// How the pages of an area find their frames.
#[derive(Clone, Copy, Debug, PartialEq, Eq, Structural)]
pub enum MapType {
    /// Each page is mapped onto the physical page of the same number.
    Identical,
    /// Each page is mapped onto a frame allocated for the area.
    Framed,
}

/// Readable.
pub const MAP_R: u8 = 2;
/// Writable.
pub const MAP_W: u8 = 4;
/// Executable.
pub const MAP_X: u8 = 8;
/// Accessible from user mode.
pub const MAP_U: u8 = 16;

/// The permissions of an area: a subset of `R W X U`, in the bit positions
/// those flags have in a page-table entry.
#[derive(Clone, Copy, Debug, PartialEq, Eq, Structural)]
pub struct MapPermission {
    pub bits: u8,
}

impl MapPermission {
    /// The permissions whose bits are set in `bits`, other bits dropped.
    pub fn from_bits_truncate(bits: u8) -> (r: MapPermission)
        ensures
            r.bits == bits & 30,
    {
        MapPermission { bits: bits & 30 }
    }
}

/// A half-open range of virtual pages.
#[derive(Clone, Copy, Debug, PartialEq, Eq, Structural)]
pub struct VPNRange {
    pub l: VirtPageNum,
    pub r: VirtPageNum,
}

impl VPNRange {
    /// The range `[start, end)`.
    pub fn new(start: VirtPageNum, end: VirtPageNum) -> (r: VPNRange)
        ensures
            r.l == start,
            r.r == end,
    {
        VPNRange { l: start, r: end }
    }

    /// The first page.
    pub fn get_start(&self) -> (r: VirtPageNum)
        ensures
            r == self.l,
    {
        self.l
    }

    /// The page after the last.
    pub fn get_end(&self) -> (r: VirtPageNum)
        ensures
            r == self.r,
    {
        self.r
    }
}

/// A contiguous range of virtual pages with one mapping type and one set of
/// permissions.
pub struct MapArea {
    vpn_range: VPNRange,
    /// For a `Framed` area, the frame of each mapped page, by page number.
    data_frames: BTreeMap<u64, FrameTracker>,
    map_type: MapType,
    map_perm: MapPermission,
}

/// A page of zeros.
pub open spec fn zero_page() -> Seq<u8> {
    Seq::new(PAGE_SIZE as nat, |i: int| 0u8)
}

impl MapArea {
    /// First page of the area.
    pub closed spec fn start(&self) -> u64 {
        self.vpn_range.l.0
    }

    /// The page after the area's last.
    pub closed spec fn end(&self) -> u64 {
        self.vpn_range.r.0
    }

    pub closed spec fn kind(&self) -> MapType {
        self.map_type
    }

    pub closed spec fn perm(&self) -> MapPermission {
        self.map_perm
    }

    /// The frames held by the area, by page number.
    pub closed spec fn frames(&self) -> Map<u64, FrameTracker> {
        self.data_frames@
    }

    /// Page numbers of the frames the area holds.
    pub open spec fn frame_set(&self) -> Set<u64> {
        Set::new(
            |p: u64|
                exists|v: u64| self.frames().contains_key(v) && #[trigger] self.frames()[v].frame_ppn().0 == p,
        )
    }

    /// Whether page `v` lies in the area.
    pub open spec fn contains(&self, v: u64) -> bool {
        self.start() <= v < self.end()
    }

    /// The physical page that page `v` of the area is mapped onto.
    pub open spec fn ppn_of(&self, v: u64) -> u64 {
        match self.kind() {
            MapType::Identical => v,
            MapType::Framed => self.frames()[v].frame_ppn().0,
        }
    }

    /// The leaf entry the area gives page `v`.
    pub open spec fn pte_of(&self, v: u64) -> PageTableEntry {
        PageTableEntry { bits: pte_bits(self.ppn_of(v), self.perm().bits | PTE_V) }
    }

    /// The area's invariant: its range is ordered and lies below the top
    /// page, it holds frames only when `Framed` and only for its own pages,
    /// and no page twice.
    pub open spec fn wf(&self) -> bool {
        &&& self.start() <= self.end() <= VPN_MASK
        &&& self.perm().bits & 1 == 0
        &&& self.kind() == MapType::Identical ==> self.frames() == Map::<u64, FrameTracker>::empty()
        &&& forall|v: u64|
            #[trigger] self.frames().contains_key(v) ==> self.contains(v) && self.frames()[v].wf()
                && self.frames()[v].frame_ppn().0 <= PPN_MASK
        &&& forall|v1: u64, v2: u64|
            self.frames().contains_key(v1) && self.frames().contains_key(v2) && v1 != v2 ==> (
            #[trigger] self.frames()[v1]).frame_ppn() != (#[trigger] self.frames()[v2]).frame_ppn()
    }

    /// Pages `[start, start + n)` of the area are mapped in `pt` as the area
    /// says, and, for a `Framed` area, it holds exactly their frames.
    pub open spec fn mapped_upto(&self, pt: &PageTable, n: int) -> bool {
        &&& self.kind() == MapType::Framed ==> forall|v: u64|
            #[trigger] self.frames().contains_key(v) <==> self.start() <= v < self.start() + n
        &&& forall|v: u64|
            self.start() <= v < self.start() + n ==> #[trigger] pt.lookup(v) == Some(self.pte_of(v))
    }

    /// Every page of the area is mapped in `pt`.
    pub open spec fn mapped_in(&self, pt: &PageTable) -> bool {
        self.mapped_upto(pt, self.end() - self.start())
    }

    /// An area over the pages that `[start_va, end_va)` touches, not yet
    /// mapped.
    pub fn new(start_va: VirtAddr, end_va: VirtAddr, map_type: MapType, map_perm: MapPermission) -> (r: MapArea)
        requires
            start_va.0 <= end_va.0,
            end_va.0 <= VA_MASK + 1 - PAGE_SIZE,
            map_perm.bits & 1 == 0,
        ensures
            r.wf(),
            r.start() == start_va.0 / PAGE_SIZE,
            r.end() == page_ceil(end_va.0 as int),
            r.kind() == map_type,
            r.perm() == map_perm,
            r.frames() == Map::<u64, FrameTracker>::empty(),
    {
        let start_vpn = start_va.floor();
        let end_vpn = end_va.ceil();
        MapArea {
            vpn_range: VPNRange::new(start_vpn, end_vpn),
            data_frames: BTreeMap::new(),
            map_type,
            map_perm,
        }
    }

    /// First page of the area.
    pub fn get_start_vpn(&self) -> (r: VirtPageNum)
        ensures
            r.0 == self.start(),
    {
        self.vpn_range.get_start()
    }

    /// The page after the area's last.
    pub fn get_end_vpn(&self) -> (r: VirtPageNum)
        ensures
            r.0 == self.end(),
    {
        self.vpn_range.get_end()
    }

    /// The area's mapping type.
    pub fn get_map_type(&self) -> (r: MapType)
        ensures
            r == self.kind(),
    {
        self.map_type
    }

    /// The area's permissions.
    pub fn get_map_perm(&self) -> (r: MapPermission)
        ensures
            r == self.perm(),
    {
        self.map_perm
    }

    /// Number of frames the area holds.
    pub fn frame_count(&self) -> (r: usize)
        ensures
            r == self.frames().len(),
    {
        self.data_frames.len()
    }

    /// The frame of page `vpn`, if the area holds one.
    pub fn frame(&self, vpn: u64) -> (r: Option<&FrameTracker>)
        ensures
            r matches Some(f) ==> self.frames().contains_key(vpn) && *f == self.frames()[vpn],
            r is None ==> !self.frames().contains_key(vpn),
    {
        self.data_frames.get(&vpn)
    }

    /// Maps page `vpn` of the area in `pt`; for a `Framed` area, onto a
    /// fresh zeroed frame that the area then holds. `Err(OutOfFrames)` when
    /// the allocator runs out, with no lookup changed and no frame kept.
    pub fn map_one(
        &mut self,
        page_table: &mut PageTable,
        allocator: &mut StackFrameAllocator,
        vpn: VirtPageNum,
    ) -> (r: Result<(), MemError>)
        requires
            old(self).wf(),
            old(page_table).wf(),
            old(allocator).wf(),
            owned_ok(old(page_table), old(self), old(allocator)),
            old(self).contains(vpn.0),
            old(page_table).lookup(vpn.0) is None,
            !old(self).frames().contains_key(vpn.0),
        ensures
            final(self).wf(),
            final(page_table).wf(),
            final(allocator).wf(),
            same_shape(old(self), final(self)),
            final(page_table).root() == old(page_table).root(),
            owned_ok(final(page_table), final(self), final(allocator)),
            owner_grows(old(page_table), final(page_table), old(self), final(self), old(allocator), final(allocator)),
            final(allocator).available() >= old(allocator).available() - 3,
            forall|v: u64|
                #[trigger] old(self).frames().contains_key(v) ==> final(self).frames().contains_key(v)
                    && final(self).frames()[v] == old(self).frames()[v],
            r is Ok ==> final(page_table).lookup(vpn.0) == Some(final(self).pte_of(vpn.0)),
            r is Ok ==> forall|v: u64|
                vpn_indexes(v) != vpn_indexes(vpn.0) ==> #[trigger] final(page_table).lookup(v)
                    == old(page_table).lookup(v),
            r is Ok && old(self).kind() == MapType::Framed ==> final(self).frames().dom()
                == old(self).frames().dom().insert(vpn.0) && final(self).frames()[vpn.0].contents()
                == zero_page(),
            r is Ok && old(self).kind() == MapType::Identical ==> final(self).frames() == old(self).frames(),
            r is Err ==> r == Err::<(), MemError>(MemError::OutOfFrames) && final(self).frames()
                == old(self).frames() && forall|v: u64| #[trigger]
                final(page_table).lookup(v) == old(page_table).lookup(v),
            old(allocator).available() >= 3 ==> r is Ok,
    {
        let ghost a0 = *allocator;
        let ghost pt0 = *page_table;
        let flags = PTEFlags::from_bits(self.map_perm.bits);
        match self.map_type {
            MapType::Identical => {
                let r = page_table.map(allocator, vpn, PhysPageNum(vpn.0), flags);
                proof {
                    assert(self.frame_set() =~= Set::empty());
                    assert(allocator.in_use() =~= a0.in_use().union(page_table.frame_set().difference(pt0.frame_set())).union(
                        self.frame_set().difference(old(self).frame_set())));
                }
                r
            },
            MapType::Framed => {
                let frame = match frame_alloc(allocator) {
                    Some(f) => f,
                    None => {
                        proof {
                            assert(allocator.in_use() =~= a0.in_use().union(page_table.frame_set().difference(pt0.frame_set())).union(
                                self.frame_set().difference(old(self).frame_set())));
                        }
                        return Err(MemError::OutOfFrames);
                    },
                };
                let ppn = frame.ppn();
                let ghost a1 = *allocator;
                match page_table.map(allocator, vpn, ppn, flags) {
                    Ok(()) => {
                        let ghost old_frames = self.frames();
                        self.data_frames.insert(vpn.0, frame);
                        proof {
                            assert(self.frames() == old_frames.insert(vpn.0, frame));
                            assert(!pt0.frame_set().contains(ppn.0));
                            assert(!page_table.frame_set().contains(ppn.0));
                            assert forall|v: u64| old_frames.contains_key(v) implies old_frames[v].frame_ppn().0 != ppn.0 by {
                                assert(old(self).frame_set().contains(old_frames[v].frame_ppn().0));
                            }
                            assert(self.frame_set() =~= old(self).frame_set().insert(ppn.0)) by {
                                assert forall|p: u64| #[trigger] self.frame_set().contains(p) == old(self).frame_set().insert(ppn.0).contains(p) by {
                                    if self.frame_set().contains(p) {
                                        let v = choose|v: u64| self.frames().contains_key(v) && #[trigger] self.frames()[v].frame_ppn().0 == p;
                                        if v != vpn.0 {
                                            assert(old_frames[v] == self.frames()[v]);
                                        }
                                    }
                                    if old(self).frame_set().contains(p) {
                                        let v = choose|v: u64| old_frames.contains_key(v) && #[trigger] old_frames[v].frame_ppn().0 == p;
                                        assert(self.frames()[v] == old_frames[v]);
                                    }
                                    if p == ppn.0 {
                                        assert(self.frames()[vpn.0].frame_ppn().0 == p);
                                    }
                                }
                            }
                            assert(self.frames().dom() =~= old_frames.dom().insert(vpn.0));
                            assert(self.ppn_of(vpn.0) == ppn.0);
                            assert(old(self).frame_set().contains(ppn.0) == false) by {
                                if old(self).frame_set().contains(ppn.0) {
                                    assert(a0.in_use().contains(ppn.0));
                                }
                            }
                            assert(self.frame_set().difference(old(self).frame_set()) =~= set![ppn.0]);
                            assert(allocator.in_use() =~= a0.in_use().union(page_table.frame_set().difference(pt0.frame_set())).union(
                                self.frame_set().difference(old(self).frame_set())));
                        }
                        Ok(())
                    },
                    Err(e) => {
                        proof {
                            assert(!pt0.frame_set().contains(ppn.0));
                            assert(allocator.in_use().contains(ppn.0));
                        }
                        frame_dealloc(allocator, frame);
                        proof {
                            assert(!page_table.frame_set().contains(ppn.0));
                            assert(self.frame_set().difference(old(self).frame_set()) =~= Set::empty());
                            assert(allocator.in_use() =~= a0.in_use().union(page_table.frame_set().difference(pt0.frame_set())).union(
                                self.frame_set().difference(old(self).frame_set())));
                        }
                        Err(e)
                    },
                }
            },
        }
    }

    /// Removes the mapping of page `vpn` of the area from `pt`; a `Framed`
    /// area hands the page's frame back to the allocator.
    pub fn unmap_one(
        &mut self,
        page_table: &mut PageTable,
        allocator: &mut StackFrameAllocator,
        vpn: VirtPageNum,
    )
        requires
            old(self).wf(),
            old(page_table).wf(),
            old(allocator).wf(),
            owned_ok(old(page_table), old(self), old(allocator)),
            old(self).contains(vpn.0),
            old(page_table).lookup(vpn.0) is Some,
        ensures
            final(self).wf(),
            final(page_table).wf(),
            final(allocator).wf(),
            same_shape(old(self), final(self)),
            final(page_table).root() == old(page_table).root(),
            final(page_table).frame_set() == old(page_table).frame_set(),
            owned_ok(final(page_table), final(self), final(allocator)),
            final(allocator).range_end() == old(allocator).range_end(),
            final(self).frame_set().subset_of(old(self).frame_set()),
            final(allocator).in_use() == old(allocator).in_use().difference(
                old(self).frame_set().difference(final(self).frame_set()),
            ),
            final(allocator).available() >= old(allocator).available(),
            final(self).frames() == old(self).frames().remove(vpn.0),
            final(allocator).next_free() == old(allocator).next_free(),
            old(self).frames().contains_key(vpn.0) ==> final(allocator).recycled_stack() == old(
                allocator,
            ).recycled_stack().push(old(self).frames()[vpn.0].frame_ppn().0),
            !old(self).frames().contains_key(vpn.0) ==> final(allocator).recycled_stack() == old(
                allocator,
            ).recycled_stack(),
            final(page_table).lookup(vpn.0) is None,
            forall|v: u64|
                vpn_indexes(v) != vpn_indexes(vpn.0) ==> #[trigger] final(page_table).lookup(v)
                    == old(page_table).lookup(v),
    {
        let ghost old_frames = self.frames();
        match self.data_frames.remove(&vpn.0) {
            Some(frame) => {
                let ghost p = frame.frame_ppn().0;
                proof {
                    assert(self.frames() == old_frames.remove(vpn.0));
                    lemma_remove_keeps_wf(old(self), self, vpn.0);
                    assert(old_frames[vpn.0] == frame);
                    assert(old(self).frame_set().contains(p));
                    assert(self.frame_set() =~= old(self).frame_set().remove(p)) by {
                        assert forall|q: u64| #[trigger] self.frame_set().contains(q) == old(self).frame_set().remove(p).contains(q) by {
                            if self.frame_set().contains(q) {
                                let v = choose|v: u64| self.frames().contains_key(v) && #[trigger] self.frames()[v].frame_ppn().0 == q;
                                assert(old_frames[v] == self.frames()[v]);
                                assert(old_frames[v].frame_ppn() != old_frames[vpn.0].frame_ppn());
                            }
                            if old(self).frame_set().contains(q) && q != p {
                                let v = choose|v: u64| old_frames.contains_key(v) && #[trigger] old_frames[v].frame_ppn().0 == q;
                                assert(v != vpn.0);
                                assert(self.frames()[v] == old_frames[v]);
                            }
                        }
                    }
                    assert(old(self).frame_set().difference(self.frame_set()) =~= set![p]);
                    assert(old(allocator).in_use().difference(set![p]) =~= old(allocator).in_use().remove(p));
                }
                frame_dealloc(allocator, frame);
            },
            None => {
                proof {
                    assert(self.frames() =~= old_frames.remove(vpn.0));
                    assert(self.frames() =~= old_frames);
                    assert(self.frame_set() =~= old(self).frame_set());
                    assert(old(self).frame_set().difference(self.frame_set()) =~= Set::empty());
                    assert(old(allocator).in_use().difference(Set::empty()) =~= old(allocator).in_use());
                }
            },
        }
        page_table.unmap(vpn);
    }

    /// Unmaps pages `[start, start + n)` of the area, last page first,
    /// handing every frame of a `Framed` area back.
    fn unmap_prefix(
        &mut self,
        page_table: &mut PageTable,
        allocator: &mut StackFrameAllocator,
        n: u64,
    )
        requires
            old(self).wf(),
            old(page_table).wf(),
            old(allocator).wf(),
            owned_ok(old(page_table), old(self), old(allocator)),
            n <= old(self).end() - old(self).start(),
            old(self).mapped_upto(old(page_table), n as int),
            old(self).kind() == MapType::Identical ==> old(self).frames() == Map::<u64, FrameTracker>::empty(),
        ensures
            final(self).wf(),
            final(page_table).wf(),
            final(allocator).wf(),
            same_shape(old(self), final(self)),
            final(self).frames() == Map::<u64, FrameTracker>::empty(),
            final(self).frame_set() == Set::<u64>::empty(),
            final(page_table).root() == old(page_table).root(),
            final(page_table).frame_set() == old(page_table).frame_set(),
            owned_ok(final(page_table), final(self), final(allocator)),
            final(allocator).range_end() == old(allocator).range_end(),
            final(allocator).in_use() == old(allocator).in_use().difference(old(self).frame_set()),
            final(allocator).available() >= old(allocator).available(),
            forall|v: u64|
                v <= VPN_MASK ==> #[trigger] final(page_table).lookup(v) == if old(self).start()
                    <= v < old(self).start() + n {
                    None
                } else {
                    old(page_table).lookup(v)
                },
    {
        let ghost s0 = *self;
        let ghost pt0 = *page_table;
        let ghost a0 = *allocator;
        let start = self.vpn_range.get_start().0;
        let mut j: u64 = start + n;
        while j > start
            invariant
                s0.wf(),
                start == s0.start(),
                start <= j <= start + n,
                n <= s0.end() - s0.start(),
                self.wf(),
                page_table.wf(),
                allocator.wf(),
                same_shape(&s0, self),
                page_table.root() == pt0.root(),
                page_table.frame_set() == pt0.frame_set(),
                owned_ok(page_table, self, allocator),
                allocator.range_end() == a0.range_end(),
                allocator.available() >= a0.available(),
                self.mapped_upto(page_table, j - start),
                s0.kind() == MapType::Identical ==> self.frames() == Map::<u64, FrameTracker>::empty(),
                forall|v: u64| #[trigger] self.frames().contains_key(v) ==> self.frames()[v] == s0.frames()[v],
                self.frame_set().subset_of(s0.frame_set()),
                allocator.in_use() == a0.in_use().difference(s0.frame_set().difference(self.frame_set())),
                forall|v: u64|
                    v <= VPN_MASK && !(start <= v < j) ==> #[trigger] page_table.lookup(v) == if start
                        <= v < start + n {
                        None
                    } else {
                        pt0.lookup(v)
                    },
            decreases j - start,
        {
            let ghost s1 = *self;
            let ghost pt1 = *page_table;
            let w = j - 1;
            assert(page_table.lookup(w) == Some(self.pte_of(w)));
            self.unmap_one(page_table, allocator, VirtPageNum(w));
            proof {
                assert forall|v: u64| start <= v < w implies #[trigger] page_table.lookup(v) == Some(self.pte_of(v)) by {
                    if vpn_indexes(v) == vpn_indexes(w) {
                        lemma_vpn_indexes_injective(v, w);
                    }
                    assert(pt1.lookup(v) == Some(s1.pte_of(v)));
                    if s0.kind() == MapType::Framed {
                        assert(s1.frames().contains_key(v));
                        assert(self.frames()[v] == s1.frames()[v]);
                    }
                }
                if s0.kind() == MapType::Framed {
                    assert forall|v: u64| #[trigger] self.frames().contains_key(v) <==> self.start() <= v < self.start() + (w - start) by {
                        assert(s1.frames().contains_key(v) <==> start <= v < j);
                    }
                }
                assert forall|v: u64|
                    v <= VPN_MASK && !(start <= v < w) implies #[trigger] page_table.lookup(v) == if start
                        <= v < start + n {
                        None
                    } else {
                        pt0.lookup(v)
                    } by {
                    if v != w {
                        if vpn_indexes(v) == vpn_indexes(w) {
                            lemma_vpn_indexes_injective(v, w);
                        }
                    }
                }
                assert forall|v: u64| #[trigger] self.frames().contains_key(v) implies self.frames()[v] == s0.frames()[v] by {
                    assert(s1.frames().contains_key(v));
                }
                assert(allocator.in_use() =~= a0.in_use().difference(s0.frame_set().difference(self.frame_set())));
            }
            j = w;
        }
        proof {
            if s0.kind() == MapType::Framed {
                assert(self.frames() =~= Map::<u64, FrameTracker>::empty()) by {
                    assert forall|v: u64| !self.frames().contains_key(v) by {
                        if self.frames().contains_key(v) {
                            assert(start <= v < start);
                        }
                    }
                }
            }
            assert(self.frame_set() =~= Set::<u64>::empty());
            assert(s0.frame_set().difference(Set::<u64>::empty()) =~= s0.frame_set());
        }
    }

    /// Maps every page of the area in `pt`. `Err(OutOfFrames)` when the
    /// allocator runs out; the pages mapped so far are then unmapped again
    /// and their frames handed back, so that no lookup has changed.
    pub fn map(&mut self, page_table: &mut PageTable, allocator: &mut StackFrameAllocator) -> (r:
        Result<(), MemError>)
        requires
            old(self).wf(),
            old(self).frames() == Map::<u64, FrameTracker>::empty(),
            old(page_table).wf(),
            old(allocator).wf(),
            owned_ok(old(page_table), old(self), old(allocator)),
            forall|v: u64| old(self).contains(v) ==> #[trigger] old(page_table).lookup(v) is None,
        ensures
            final(self).wf(),
            final(page_table).wf(),
            final(allocator).wf(),
            same_shape(old(self), final(self)),
            final(page_table).root() == old(page_table).root(),
            owned_ok(final(page_table), final(self), final(allocator)),
            owner_grows(old(page_table), final(page_table), old(self), final(self), old(allocator), final(allocator)),
            r is Ok ==> final(self).mapped_in(final(page_table)),
            r is Ok ==> forall|v: u64|
                #[trigger] final(self).frames().contains_key(v) ==> final(self).frames()[v].contents()
                    == zero_page(),
            r is Ok ==> forall|v: u64|
                v <= VPN_MASK && !old(self).contains(v) ==> #[trigger] final(page_table).lookup(v)
                    == old(page_table).lookup(v),
            r is Err ==> r == Err::<(), MemError>(MemError::OutOfFrames) && final(self).frames()
                == Map::<u64, FrameTracker>::empty() && forall|v: u64|
                v <= VPN_MASK ==> #[trigger] final(page_table).lookup(v) == old(page_table).lookup(v),
            old(allocator).available() >= 3 * (old(self).end() - old(self).start()) ==> r is Ok,
            r is Ok ==> final(allocator).available() >= old(allocator).available() - 3 * (old(
                self,
            ).end() - old(self).start()),
    {
        let ghost s0 = *self;
        let ghost pt0 = *page_table;
        let ghost a0 = *allocator;
        let start = self.vpn_range.get_start().0;
        let end = self.vpn_range.get_end().0;
        let mut cur: u64 = start;
        proof {
            assert(self.frame_set() =~= Set::<u64>::empty());
            assert(s0.frame_set() =~= Set::<u64>::empty());
            assert(a0.in_use() =~= a0.in_use().union(pt0.frame_set().difference(pt0.frame_set())).union(
                s0.frame_set().difference(s0.frame_set())));
        }
        while cur < end
            invariant
                s0 == *old(self),
                pt0 == *old(page_table),
                a0 == *old(allocator),
                start == s0.start(),
                end == s0.end(),
                start <= cur <= end,
                s0.frames() == Map::<u64, FrameTracker>::empty(),
                s0.frame_set() == Set::<u64>::empty(),
                self.wf(),
                page_table.wf(),
                allocator.wf(),
                same_shape(&s0, self),
                page_table.root() == pt0.root(),
                owned_ok(page_table, self, allocator),
                owner_grows(&pt0, page_table, &s0, self, &a0, allocator),
                self.mapped_upto(page_table, cur - start),
                forall|v: u64|
                    #[trigger] self.frames().contains_key(v) ==> self.frames()[v].contents() == zero_page(),
                s0.kind() == MapType::Identical ==> self.frames() == Map::<u64, FrameTracker>::empty(),
                allocator.available() >= a0.available() - 3 * (cur - start),
                forall|v: u64| s0.contains(v) ==> #[trigger] pt0.lookup(v) is None,
                forall|v: u64|
                    v <= VPN_MASK && !(start <= v < cur) ==> #[trigger] page_table.lookup(v) == pt0.lookup(v),
            decreases end - cur,
        {
            let ghost s1 = *self;
            let ghost pt1 = *page_table;
            let ghost a1 = *allocator;
            proof {
                if s0.kind() == MapType::Framed {
                    assert(!self.frames().contains_key(cur));
                }
            }
            match self.map_one(page_table, allocator, VirtPageNum(cur)) {
                Ok(()) => {},
                Err(e) => {
                    proof {
                        assert(grows(s0.frame_set(), self.frame_set(), a0.in_use()));
                    }
                    let ghost s2 = *self;
                    let ghost pt2 = *page_table;
                    let ghost a2 = *allocator;
                    self.unmap_prefix(page_table, allocator, cur - start);
                    proof {
                        assert(self.frame_set() =~= s0.frame_set());
                        assert(page_table.frame_set() == pt2.frame_set());
                        assert forall|x: u64| a0.in_use().contains(x) implies allocator.in_use().contains(x) by {
                            assert(a2.in_use().contains(x));
                            if s2.frame_set().contains(x) {
                                assert(s2.frame_set().difference(s0.frame_set()).contains(x));
                            }
                        }
                        assert forall|v: u64| v <= VPN_MASK implies #[trigger] page_table.lookup(v) == pt0.lookup(v) by {
                            if start <= v < cur {
                                assert(s0.contains(v));
                            }
                        }
                        assert forall|x: u64| #[trigger] allocator.in_use().contains(x) == a0.in_use().union(page_table.frame_set().difference(pt0.frame_set())).union(
                            self.frame_set().difference(s0.frame_set())).contains(x) by {
                            if s2.frame_set().contains(x) {
                                assert(!a0.in_use().contains(x));
                                assert(!pt2.frame_set().contains(x));
                            }
                        }
                        assert(allocator.in_use() =~= a0.in_use().union(page_table.frame_set().difference(pt0.frame_set())).union(
                            self.frame_set().difference(s0.frame_set())));
                    }
                    return Err(e);
                },
            }
            proof {
                assert(pt1.frame_set().subset_of(page_table.frame_set()));
                assert(grows(pt0.frame_set(), page_table.frame_set(), a0.in_use())) by {
                    assert forall|x: u64| page_table.frame_set().difference(pt0.frame_set()).contains(x) implies !a0.in_use().contains(x) by {
                        if pt1.frame_set().contains(x) {
                        } else {
                            assert(!a1.in_use().contains(x));
                        }
                    }
                }
                assert(grows(s0.frame_set(), self.frame_set(), a0.in_use())) by {
                    assert forall|x: u64| self.frame_set().difference(s0.frame_set()).contains(x) implies !a0.in_use().contains(x) by {
                        if s1.frame_set().contains(x) {
                        } else {
                            assert(!a1.in_use().contains(x));
                        }
                    }
                }
                assert(allocator.in_use() =~= a0.in_use().union(page_table.frame_set().difference(pt0.frame_set())).union(
                    self.frame_set().difference(s0.frame_set())));
                assert forall|v: u64| start <= v < cur + 1 implies #[trigger] page_table.lookup(v) == Some(self.pte_of(v)) by {
                    if v != cur {
                        if vpn_indexes(v) == vpn_indexes(cur) {
                            lemma_vpn_indexes_injective(v, cur);
                        }
                        assert(pt1.lookup(v) == Some(s1.pte_of(v)));
                        if s0.kind() == MapType::Framed {
                            assert(s1.frames().contains_key(v));
                        }
                    }
                }
                if s0.kind() == MapType::Framed {
                    assert forall|v: u64| #[trigger] self.frames().contains_key(v) implies self.frames()[v].contents() == zero_page() by {
                        if v != cur {
                            assert(self.frames().dom().contains(v));
                            assert(s1.frames().contains_key(v));
                        }
                    }
                    assert forall|v: u64| #[trigger] self.frames().contains_key(v) <==> start <= v < cur + 1 by {
                        assert(self.frames().dom().contains(v) == s1.frames().dom().insert(cur).contains(v));
                    }
                }
                assert forall|v: u64|
                    v <= VPN_MASK && !(start <= v < cur + 1) implies #[trigger] page_table.lookup(v) == pt0.lookup(v) by {
                    if vpn_indexes(v) == vpn_indexes(cur) {
                        lemma_vpn_indexes_injective(v, cur);
                    }
                }
            }
            cur = cur + 1;
        }
        Ok(())
    }

    /// Unmaps every page of the area, handing its frames back.
    pub fn unmap(&mut self, page_table: &mut PageTable, allocator: &mut StackFrameAllocator)
        requires
            old(self).wf(),
            old(page_table).wf(),
            old(allocator).wf(),
            owned_ok(old(page_table), old(self), old(allocator)),
            old(self).mapped_in(old(page_table)),
        ensures
            final(self).wf(),
            final(page_table).wf(),
            final(allocator).wf(),
            same_shape(old(self), final(self)),
            final(self).frames() == Map::<u64, FrameTracker>::empty(),
            final(page_table).root() == old(page_table).root(),
            final(page_table).frame_set() == old(page_table).frame_set(),
            owned_ok(final(page_table), final(self), final(allocator)),
            final(allocator).range_end() == old(allocator).range_end(),
            final(allocator).in_use() == old(allocator).in_use().difference(old(self).frame_set()),
            forall|v: u64|
                v <= VPN_MASK ==> #[trigger] final(page_table).lookup(v) == if old(self).contains(v) {
                    None
                } else {
                    old(page_table).lookup(v)
                },
    {
        let n = self.vpn_range.get_end().0 - self.vpn_range.get_start().0;
        self.unmap_prefix(page_table, allocator, n);
    }

    /// Hands every frame of the area back to the allocator.
    pub fn release(self, allocator: &mut StackFrameAllocator)
        requires
            self.wf(),
            old(allocator).wf(),
            self.frame_set().subset_of(old(allocator).in_use()),
        ensures
            final(allocator).wf(),
            final(allocator).range_end() == old(allocator).range_end(),
            final(allocator).in_use() == old(allocator).in_use().difference(self.frame_set()),
    {
        let ghost s0 = self;
        let ghost a0 = *allocator;
        let mut area = self;
        let end = area.vpn_range.get_end().0;
        let mut v: u64 = area.vpn_range.get_start().0;
        proof {
            assert(s0.frame_set().difference(area.frame_set()) =~= Set::<u64>::empty());
            assert(a0.in_use().difference(Set::<u64>::empty()) =~= a0.in_use());
        }
        while v < end
            invariant
                s0.wf(),
                end == s0.end(),
                s0.start() <= v <= end,
                area.wf(),
                same_shape(&s0, &area),
                forall|k: u64| #[trigger] area.frames().contains_key(k) <==> s0.frames().contains_key(k) && v <= k,
                forall|k: u64| #[trigger] area.frames().contains_key(k) ==> area.frames()[k] == s0.frames()[k],
                allocator.wf(),
                allocator.range_end() == a0.range_end(),
                s0.frame_set().subset_of(a0.in_use()),
                area.frame_set().subset_of(s0.frame_set()),
                allocator.in_use() == a0.in_use().difference(s0.frame_set().difference(area.frame_set())),
            decreases end - v,
        {
            let ghost before = area;
            match area.data_frames.remove(&v) {
                Some(frame) => {
                    let ghost p = frame.frame_ppn().0;
                    proof {
                        assert(area.frames() == before.frames().remove(v));
                        lemma_remove_keeps_wf(&before, &area, v);
                        assert(before.frames()[v] == frame);
                        assert(before.frame_set().contains(p));
                        assert(area.frame_set() =~= before.frame_set().remove(p)) by {
                            assert forall|q: u64| #[trigger] area.frame_set().contains(q) == before.frame_set().remove(p).contains(q) by {
                                if area.frame_set().contains(q) {
                                    let k = choose|k: u64| area.frames().contains_key(k) && #[trigger] area.frames()[k].frame_ppn().0 == q;
                                    assert(before.frames()[k].frame_ppn() != before.frames()[v].frame_ppn());
                                }
                                if before.frame_set().contains(q) && q != p {
                                    let k = choose|k: u64| before.frames().contains_key(k) && #[trigger] before.frames()[k].frame_ppn().0 == q;
                                    assert(k != v);
                                    assert(area.frames()[k] == before.frames()[k]);
                                }
                            }
                        }
                        assert(allocator.in_use().contains(p));
                    }
                    frame_dealloc(allocator, frame);
                    proof {
                        assert(allocator.in_use() =~= a0.in_use().difference(s0.frame_set().difference(area.frame_set())));
                    }
                },
                None => {
                    proof {
                        assert(area.frames() =~= before.frames().remove(v));
                        assert(area.frames() =~= before.frames());
                        assert(area.frame_set() =~= before.frame_set());
                    }
                },
            }
            v = v + 1;
        }
        proof {
            assert(area.frame_set() =~= Set::<u64>::empty()) by {
                assert forall|q: u64| !area.frame_set().contains(q) by {
                    if area.frame_set().contains(q) {
                        let k = choose|k: u64| area.frames().contains_key(k) && #[trigger] area.frames()[k].frame_ppn().0 == q;
                        assert(s0.frames().contains_key(k));
                    }
                }
            }
            assert(s0.frame_set().difference(Set::<u64>::empty()) =~= s0.frame_set());
        }
    }

    /// Copies `data` into the area's pages from its first page on, reaching
    /// each page's frame through its translation in `pt`: byte `k` of `data`
    /// lands at offset `k % PAGE_SIZE` of page `start + k / PAGE_SIZE`, and
    /// every other byte of the frames stays as it was.
    pub fn copy_data(&mut self, page_table: &PageTable, data: &[u8])
        requires
            old(self).wf(),
            old(self).kind() == MapType::Framed,
            page_table.wf(),
            old(self).mapped_in(page_table),
            data@.len() <= (old(self).end() - old(self).start()) * PAGE_SIZE,
        ensures
            final(self).wf(),
            same_shape(old(self), final(self)),
            final(self).frames().dom() == old(self).frames().dom(),
            final(self).frame_set() == old(self).frame_set(),
            final(self).mapped_in(page_table),
            forall|v: u64|
                #[trigger] final(self).frames().contains_key(v) ==> final(self).frames()[v].frame_ppn()
                    == old(self).frames()[v].frame_ppn(),
            forall|i: int, c: int|
                0 <= i < old(self).end() - old(self).start() && 0 <= c < PAGE_SIZE ==> #[trigger] final(self).frames()[(old(self).start() + i) as u64].contents()[c] == if i * PAGE_SIZE + c < data@.len() {
                    data@[i * PAGE_SIZE + c]
                } else {
                    old(self).frames()[(old(self).start() + i) as u64].contents()[c]
                },
    {
        let ghost s0 = *self;
        let len = data.len() as u64;
        let mut start: u64 = 0;
        let mut current_vpn = self.vpn_range.get_start();
        let ghost n = s0.end() - s0.start();
        let ghost base = s0.start();
        while start < len
            invariant
                s0 == *old(self),
                s0.wf(),
                s0.kind() == MapType::Framed,
                page_table.wf(),
                s0.mapped_in(page_table),
                n == s0.end() - s0.start(),
                base == s0.start(),
                len == data@.len(),
                len <= n * PAGE_SIZE,
                self.wf(),
                same_shape(&s0, self),
                self.frames().dom() == s0.frames().dom(),
                start as int == (current_vpn.0 - base) * PAGE_SIZE,
                base <= current_vpn.0,
                current_vpn.0 - base <= n,
                forall|v: u64|
                    #[trigger] self.frames().contains_key(v) ==> self.frames()[v].frame_ppn() == s0.frames()[v].frame_ppn(),
                forall|i: int, c: int|
                    0 <= i < n && 0 <= c < PAGE_SIZE ==> #[trigger] self.frames()[(base + i) as u64].contents()[c]
                        == if i < current_vpn.0 - base && i * PAGE_SIZE + c < len {
                        data@[i * PAGE_SIZE + c]
                    } else {
                        s0.frames()[(base + i) as u64].contents()[c]
                    },
            decreases n * PAGE_SIZE - start,
        {
            let ghost page = (current_vpn.0 - base) as int;
            let ghost s1 = *self;
            assert(page < n) by (nonlinear_arith)
                requires
                    start as int == page * 4096,
                    start < len,
                    len <= n * 4096,
                    page >= 0;
            assert(s0.contains(current_vpn.0));
            assert(s0.frames().contains_key(current_vpn.0));
            assert(page_table.lookup(current_vpn.0) == Some(s0.pte_of(current_vpn.0)));
            let pte = match page_table.translate(current_vpn) {
                Some(e) => e,
                None => return ,
            };
            let ppn = pte.ppn();
            proof {
                lemma_pte_fields(s0.ppn_of(current_vpn.0), s0.perm().bits | PTE_V);
                assert(ppn.0 == s0.frames()[current_vpn.0].frame_ppn().0);
            }
            let mut frame = match self.data_frames.remove(&current_vpn.0) {
                Some(f) => f,
                None => return ,
            };
            assert(frame == s1.frames()[current_vpn.0]);
            if frame.ppn() != ppn {
                self.data_frames.insert(current_vpn.0, frame);
                return ;
            }
            let remaining = len - start;
            let count: u64 = if remaining < PAGE_SIZE {
                remaining
            } else {
                PAGE_SIZE
            };
            let ghost f0 = frame;
            let mut b: u64 = 0;
            while b < count
                invariant
                    count <= PAGE_SIZE,
                    start + count <= len,
                    len == data@.len(),
                    b <= count,
                    f0.wf(),
                    frame.wf(),
                    frame.frame_ppn() == f0.frame_ppn(),
                    forall|c: int|
                        0 <= c < PAGE_SIZE ==> #[trigger] frame.contents()[c] == if c < b {
                            data@[start + c]
                        } else {
                            f0.contents()[c]
                        },
                decreases count - b,
            {
                assert(start + b < data@.len());
                let x = data[(start + b) as usize];
                frame.write_byte(b as usize, x);
                b = b + 1;
            }
            self.data_frames.insert(current_vpn.0, frame);
            proof {
                assert(self.frames() == s1.frames().remove(current_vpn.0).insert(current_vpn.0, frame));
                assert(self.frames().dom() =~= s1.frames().dom());
                assert forall|v: u64| #[trigger] self.frames().contains_key(v) implies (self.frames()[v]).wf() && self.frames()[v].frame_ppn().0 <= PPN_MASK
                    && self.contains(v) by {
                    assert(s1.frames().contains_key(v));
                }
                assert forall|v1: u64, v2: u64|
                    self.frames().contains_key(v1) && self.frames().contains_key(v2) && v1 != v2 implies (
                    #[trigger] self.frames()[v1]).frame_ppn() != (#[trigger] self.frames()[v2]).frame_ppn() by {
                    assert(s1.frames()[v1].frame_ppn() != s1.frames()[v2].frame_ppn());
                }
                assert forall|v: u64| #[trigger] self.frames().contains_key(v) implies self.frames()[v].frame_ppn() == s0.frames()[v].frame_ppn() by {
                    assert(s1.frames().contains_key(v));
                }
                assert forall|i: int, c: int|
                    0 <= i < n && 0 <= c < PAGE_SIZE implies #[trigger] self.frames()[(base + i) as u64].contents()[c]
                        == if i < page + 1 && i * PAGE_SIZE + c < len {
                        data@[i * PAGE_SIZE + c]
                    } else {
                        s0.frames()[(base + i) as u64].contents()[c]
                    } by {
                    if i != page {
                        assert((base + i) as u64 != current_vpn.0);
                        assert(self.frames()[(base + i) as u64] == s1.frames()[(base + i) as u64]);
                    } else {
                        assert((base + i) as u64 == current_vpn.0);
                        assert(start + c == i * PAGE_SIZE + c);
                    }
                }
            }
            current_vpn = VirtPageNum(current_vpn.0 + 1);
            start = start + PAGE_SIZE;
        }
        proof {
            let page = (current_vpn.0 - base) as int;
            assert forall|i: int, c: int|
                0 <= i < n && 0 <= c < PAGE_SIZE implies #[trigger] self.frames()[(base + i) as u64].contents()[c]
                    == if i * PAGE_SIZE + c < len {
                    data@[i * PAGE_SIZE + c]
                } else {
                    s0.frames()[(base + i) as u64].contents()[c]
                } by {
                if i >= page {
                    assert(i * PAGE_SIZE >= page * PAGE_SIZE);
                }
            }
            assert(self.frame_set() =~= s0.frame_set()) by {
                assert forall|p: u64| #[trigger] self.frame_set().contains(p) == s0.frame_set().contains(p) by {
                    if self.frame_set().contains(p) {
                        let v = choose|v: u64| self.frames().contains_key(v) && #[trigger] self.frames()[v].frame_ppn().0 == p;
                        assert(s0.frames()[v].frame_ppn().0 == p);
                    }
                    if s0.frame_set().contains(p) {
                        let v = choose|v: u64| s0.frames().contains_key(v) && #[trigger] s0.frames()[v].frame_ppn().0 == p;
                        assert(self.frames().dom().contains(v));
                        assert(self.frames()[v].frame_ppn().0 == p);
                    }
                }
            }
            assert forall|v: u64| #[trigger] self.frames().contains_key(v) <==> s0.start() <= v < s0.start() + (s0.end() - s0.start()) by {
                assert(self.frames().dom().contains(v) == s0.frames().dom().contains(v));
            }
            assert forall|v: u64| s0.start() <= v < s0.start() + (s0.end() - s0.start()) implies #[trigger] page_table.lookup(v) == Some(self.pte_of(v)) by {
                assert(s0.frames().contains_key(v));
                assert(self.frames()[v].frame_ppn() == s0.frames()[v].frame_ppn());
            }
        }
    }
}

/// Dropping a page's frame from a well-formed area leaves it well formed.
proof fn lemma_remove_keeps_wf(a: &MapArea, b: &MapArea, k: u64)
    requires
        a.wf(),
        same_shape(a, b),
        b.frames() == a.frames().remove(k),
    ensures
        b.wf(),
{
    assert forall|v: u64| #[trigger] b.frames().contains_key(v) implies b.contains(v) && b.frames()[v].wf()
        && b.frames()[v].frame_ppn().0 <= PPN_MASK by {
        assert(a.frames().contains_key(v));
    }
    assert forall|v1: u64, v2: u64|
        b.frames().contains_key(v1) && b.frames().contains_key(v2) && v1 != v2 implies (
        #[trigger] b.frames()[v1]).frame_ppn() != (#[trigger] b.frames()[v2]).frame_ppn() by {
        assert(a.frames()[v1].frame_ppn() != a.frames()[v2].frame_ppn());
    }
    if a.kind() == MapType::Identical {
        assert(b.frames() =~= Map::<u64, FrameTracker>::empty());
    }
}

/// The frames of `pt` and of `area` are in use and no frame is in both.
pub open spec fn owned_ok(pt: &PageTable, area: &MapArea, allocator: &StackFrameAllocator) -> bool {
    &&& pt.frame_set().subset_of(allocator.in_use())
    &&& area.frame_set().subset_of(allocator.in_use())
    &&& pt.frame_set().disjoint(area.frame_set())
}

/// `after` adds to `before` only frames that were not in use.
pub open spec fn grows(before: Set<u64>, after: Set<u64>, in_use: Set<u64>) -> bool {
    &&& before.subset_of(after)
    &&& after.difference(before).disjoint(in_use)
}

/// A step on a page table and an area keeps every frame that was in use in
/// use, gives each of them only frames that were free, and takes from the
/// allocator exactly the frames they gained.
pub open spec fn owner_grows(
    pt0: &PageTable,
    pt1: &PageTable,
    area0: &MapArea,
    area1: &MapArea,
    alloc0: &StackFrameAllocator,
    alloc1: &StackFrameAllocator,
) -> bool {
    &&& alloc0.in_use().subset_of(alloc1.in_use())
    &&& alloc1.range_end() == alloc0.range_end()
    &&& grows(pt0.frame_set(), pt1.frame_set(), alloc0.in_use())
    &&& grows(area0.frame_set(), area1.frame_set(), alloc0.in_use())
    &&& alloc1.in_use() == alloc0.in_use().union(pt1.frame_set().difference(pt0.frame_set())).union(
        area1.frame_set().difference(area0.frame_set()),
    )
}

/// Two views of one area: same range, type and permissions.
pub open spec fn same_shape(a: &MapArea, b: &MapArea) -> bool {
    &&& a.start() == b.start()
    &&& a.end() == b.end()
    &&& a.kind() == b.kind()
    &&& a.perm() == b.perm()
}

/// Whether two areas share no page.
pub open spec fn ranges_disjoint(a: &MapArea, b: &MapArea) -> bool {
    a.end() <= b.start() || b.end() <= a.start() || a.start() == a.end() || b.start() == b.end()
}

/// Whether the pages `[s, e)`, not empty, meet area `a`.
pub open spec fn range_meets(s: int, e: int, a: &MapArea) -> bool {
    s < e && a.start() < a.end() && s < a.end() && a.start() < e
}

/// An address space: a page table and the areas mapped in it.
pub struct MemorySet {
    page_table: PageTable,
    areas: Vec<MapArea>,
}

impl MemorySet {
    /// The page table.
    pub closed spec fn table(&self) -> PageTable {
        self.page_table
    }

    /// The areas, in the order they were added.
    pub closed spec fn area_seq(&self) -> Seq<MapArea> {
        self.areas@
    }

    /// The address space's invariant: its areas are well formed, pairwise
    /// disjoint and mapped in the page table, and apart from the top page,
    /// where the trampoline goes, the table maps nothing outside them.
    pub open spec fn wf(&self) -> bool {
        &&& self.table().wf()
        &&& forall|i: int|
            0 <= i < self.area_seq().len() ==> (#[trigger] self.area_seq()[i]).wf()
                && self.area_seq()[i].mapped_in(&self.table())
        &&& forall|i: int, j: int|
            0 <= i < self.area_seq().len() && 0 <= j < self.area_seq().len() && i != j
                ==> ranges_disjoint(&#[trigger] self.area_seq()[i], &#[trigger] self.area_seq()[j])
        &&& forall|v: u64|
            v < VPN_MASK && (forall|i: int|
                0 <= i < self.area_seq().len() ==> !(#[trigger] self.area_seq()[i]).contains(v))
                ==> #[trigger] self.table().lookup(v) is None
    }

    /// Every frame of the address space is in use in `allocator`, and no
    /// frame belongs to two owners.
    pub open spec fn owns_frames(&self, allocator: &StackFrameAllocator) -> bool {
        &&& self.table().frame_set().subset_of(allocator.in_use())
        &&& forall|i: int|
            0 <= i < self.area_seq().len() ==> (#[trigger] self.area_seq()[i]).frame_set().subset_of(
                allocator.in_use(),
            ) && self.area_seq()[i].frame_set().disjoint(self.table().frame_set())
        &&& forall|i: int, j: int|
            0 <= i < self.area_seq().len() && 0 <= j < self.area_seq().len() && i != j ==> (
            #[trigger] self.area_seq()[i]).frame_set().disjoint(
                (#[trigger] self.area_seq()[j]).frame_set(),
            )
    }

    /// An empty address space: a zeroed root and no area. `None` when no
    /// frame is left.
    pub fn new_bare(allocator: &mut StackFrameAllocator) -> (r: Option<MemorySet>)
        requires
            old(allocator).wf(),
        ensures
            final(allocator).wf(),
            final(allocator).range_end() == old(allocator).range_end(),
            old(allocator).in_use().subset_of(final(allocator).in_use()),
            r is None <==> old(allocator).available() == 0,
            r is Some ==> final(allocator).available() == old(allocator).available() - 1,
            r matches Some(ms) ==> {
                &&& ms.wf()
                &&& ms.owns_frames(final(allocator))
                &&& ms.area_seq().len() == 0
                &&& forall|v: u64| #[trigger] ms.table().lookup(v) is None
                &&& final(allocator).in_use() == old(allocator).in_use().union(ms.table().frame_set())
                &&& old(allocator).in_use().disjoint(ms.table().frame_set())
                &&& final(allocator).in_use() == old(allocator).in_use().union(ms.frames_owned())
                &&& old(allocator).in_use().disjoint(ms.frames_owned())
            },
    {
        match PageTable::new(allocator) {
            None => None,
            Some(page_table) => {
                let ms = MemorySet { page_table, areas: Vec::new() };
                proof {
                    lemma_owned_split(ms.table().frame_set(), ms.area_seq());
                    assert(owned_frames(Set::empty(), ms.area_seq()) =~= Set::<u64>::empty());
                    assert(ms.frames_owned() =~= ms.table().frame_set());
                    assert(old(allocator).in_use().insert(page_table.root().0) =~= old(allocator).in_use().union(set![page_table.root().0]));
                }
                Some(ms)
            },
        }
    }

    /// Maps the top page onto the trampoline's frame, readable and
    /// executable, as in every address space.
    pub fn map_trampoline(&mut self, allocator: &mut StackFrameAllocator, trampoline: PhysPageNum) -> (r: Result<(), MemError>)
        requires
            old(self).wf(),
            old(allocator).wf(),
            old(self).owns_frames(old(allocator)),
            old(self).table().lookup(VPN_MASK) is None,
        ensures
            final(self).wf(),
            final(allocator).wf(),
            final(self).owns_frames(final(allocator)),
            final(self).area_seq() == old(self).area_seq(),
            final(allocator).range_end() == old(allocator).range_end(),
            old(allocator).in_use().subset_of(final(allocator).in_use()),
            r is Ok ==> final(self).table().lookup(VPN_MASK) == Some(
                PageTableEntry { bits: pte_bits(trampoline.0, PTE_R | PTE_X | PTE_V) },
            ),
            forall|v: u64| v < VPN_MASK ==> #[trigger] final(self).table().lookup(v) == old(self).table().lookup(v),
            r is Err ==> r == Err::<(), MemError>(MemError::OutOfFrames) && old(allocator).available() < 2,
            old(allocator).available() >= 2 ==> r is Ok,
            final(allocator).available() >= old(allocator).available() - 2,
            takes_exactly(old(self), final(self), old(allocator), final(allocator)),
    {
        let ghost s0 = *self;
        let r = self.page_table.map(allocator, VirtPageNum(VPN_MASK), trampoline, PTEFlags::from_bits(PTE_R | PTE_X));
        proof {
            assert(self.area_seq() == s0.area_seq());
            assert forall|v: u64| v < VPN_MASK implies #[trigger] self.table().lookup(v) == s0.table().lookup(v) by {
                if vpn_indexes(v) == vpn_indexes(VPN_MASK) {
                    lemma_vpn_indexes_injective(v, VPN_MASK);
                }
            }
            assert forall|i: int| 0 <= i < self.area_seq().len() implies (#[trigger] self.area_seq()[i]).wf()
                && self.area_seq()[i].mapped_in(&self.table()) by {
                let a = self.area_seq()[i];
                assert(s0.area_seq()[i].mapped_in(&s0.table()));
                assert forall|v: u64| a.start() <= v < a.start() + (a.end() - a.start()) implies #[trigger] self.table().lookup(v) == Some(a.pte_of(v)) by {
                    assert(s0.table().lookup(v) == Some(a.pte_of(v)));
                }
            }
            assert forall|i: int| 0 <= i < self.area_seq().len() implies (#[trigger] self.area_seq()[i]).frame_set().subset_of(
                allocator.in_use()) && self.area_seq()[i].frame_set().disjoint(self.table().frame_set()) by {
                let a = s0.area_seq()[i];
                assert(a.frame_set().disjoint(s0.table().frame_set()));
                assert forall|x: u64| a.frame_set().contains(x) implies !self.table().frame_set().contains(x) by {
                    assert(old(allocator).in_use().contains(x));
                }
            }
            assert forall|v: u64|
                v < VPN_MASK && (forall|i: int|
                    0 <= i < self.area_seq().len() ==> !(#[trigger] self.area_seq()[i]).contains(v))
                    implies #[trigger] self.table().lookup(v) is None by {
                assert(s0.table().lookup(v) is None);
            }
            assert forall|i: int, j: int|
                0 <= i < self.area_seq().len() && 0 <= j < self.area_seq().len() && i != j
                    implies ranges_disjoint(&#[trigger] self.area_seq()[i], &#[trigger] self.area_seq()[j]) by {
                assert(ranges_disjoint(&s0.area_seq()[i], &s0.area_seq()[j]));
            }
            lemma_owned_split(s0.table().frame_set(), s0.area_seq());
            lemma_owned_split(self.table().frame_set(), self.area_seq());
            lemma_owned_in_use(&s0, old(allocator));
            assert(self.frames_owned().difference(s0.frames_owned()) =~= PageTable::new_frames(s0.table().frame_set(), self.table().frame_set()));
        }
        r
    }

    /// Number of areas.
    pub fn area_count(&self) -> (r: usize)
        ensures
            r == self.area_seq().len(),
    {
        self.areas.len()
    }

    /// Area `i`, in the order the areas were added.
    pub fn area(&self, i: usize) -> (r: &MapArea)
        requires
            i < self.area_seq().len(),
        ensures
            *r == self.area_seq()[i as int],
    {
        &self.areas[i]
    }

    /// The page table.
    pub fn page_table(&self) -> (r: &PageTable)
        ensures
            *r == self.table(),
    {
        &self.page_table
    }

    /// Whether two areas share no page.
    fn disjoint_from(a: &MapArea, b: &MapArea) -> (r: bool)
        ensures
            r == ranges_disjoint(a, b),
    {
        a.vpn_range.r.0 <= b.vpn_range.l.0 || b.vpn_range.r.0 <= a.vpn_range.l.0
            || a.vpn_range.l.0 == a.vpn_range.r.0 || b.vpn_range.l.0 == b.vpn_range.r.0
    }

    /// Adds an area: maps it and, when `data` is given, copies it into the
    /// area's fresh frames. `Err(Overlap)` exactly when the area shares a
    /// page with one already there; `Err(OutOfFrames)` when the allocator
    /// runs out. On an error no area is added and no lookup changes.
    pub fn push(&mut self, allocator: &mut StackFrameAllocator, map_area: MapArea, data: Option<&[u8]>) -> (r: Result<(), MemError>)
        requires
            old(self).wf(),
            old(allocator).wf(),
            old(self).owns_frames(old(allocator)),
            map_area.wf(),
            map_area.frames() == Map::<u64, FrameTracker>::empty(),
            data matches Some(d) ==> map_area.kind() == MapType::Framed && d@.len() <= (map_area.end()
                - map_area.start()) * PAGE_SIZE,
        ensures
            final(self).wf(),
            final(allocator).wf(),
            final(self).owns_frames(final(allocator)),
            takes_exactly(old(self), final(self), old(allocator), final(allocator)),
            final(allocator).range_end() == old(allocator).range_end(),
            old(allocator).in_use().subset_of(final(allocator).in_use()),
            (r == Err::<(), MemError>(MemError::Overlap)) <==> exists|i: int|
                0 <= i < old(self).area_seq().len() && !ranges_disjoint(
                    &map_area,
                    &#[trigger] old(self).area_seq()[i],
                ),
            r is Err ==> final(self).area_seq() == old(self).area_seq() && forall|v: u64|
                v <= VPN_MASK ==> #[trigger] final(self).table().lookup(v) == old(
                    self,
                ).table().lookup(v),
            r is Err ==> r == Err::<(), MemError>(MemError::Overlap) || (r == Err::<(), MemError>(
                MemError::OutOfFrames,
            ) && old(allocator).available() < 3 * (map_area.end() - map_area.start())),
            r is Ok ==> final(allocator).available() >= old(allocator).available() - 3 * (
            map_area.end() - map_area.start()),
            r is Ok ==> {
                &&& final(self).area_seq().len() == old(self).area_seq().len() + 1
                &&& final(self).area_seq().subrange(0, old(self).area_seq().len() as int) == old(
                    self,
                ).area_seq()
                &&& same_shape(&map_area, &final(self).area_seq().last())
                &&& forall|v: u64|
                    v <= VPN_MASK && !map_area.contains(v) ==> #[trigger] final(self).table().lookup(v)
                        == old(self).table().lookup(v)
                &&& map_area.kind() == MapType::Framed ==> forall|i: int, c: int|
                    0 <= i < map_area.end() - map_area.start() && 0 <= c < PAGE_SIZE
                        ==> #[trigger] final(self).area_seq().last().frames()[(map_area.start() + i) as u64].contents()[c]
                        == match data {
                        Some(d) => if i * PAGE_SIZE + c < d@.len() {
                            d@[i * PAGE_SIZE + c]
                        } else {
                            0u8
                        },
                        None => 0u8,
                    }
            },
    {
        let ghost s0 = *self;
        let ghost a0 = *allocator;
        let mut i: usize = 0;
        while i < self.areas.len()
            invariant
                s0 == *old(self),
                a0 == *old(allocator),
                *self == s0,
                *allocator == a0,
                s0.wf(),
                a0.wf(),
                s0.owns_frames(&a0),
                i <= self.areas@.len(),
                forall|j: int| 0 <= j < i ==> ranges_disjoint(&map_area, &#[trigger] self.areas@[j]),
            decreases self.areas@.len() - i,
        {
            if !Self::disjoint_from(&map_area, &self.areas[i]) {
                proof {
                    assert(self.frames_owned().difference(s0.frames_owned()) =~= Set::<u64>::empty());
                    assert(a0.in_use().union(Set::<u64>::empty()) =~= a0.in_use());
                }
                return Err(MemError::Overlap);
            }
            i = i + 1;
        }
        let mut area = map_area;
        proof {
            assert(area.frame_set() =~= Set::<u64>::empty());
            assert forall|v: u64| area.contains(v) implies #[trigger] self.table().lookup(v) is None by {
                assert forall|j: int| 0 <= j < self.area_seq().len() implies !(#[trigger] self.area_seq()[j]).contains(v) by {
                    assert(ranges_disjoint(&map_area, &self.areas@[j]));
                }
            }
        }
        match area.map(&mut self.page_table, allocator) {
            Ok(()) => {},
            Err(e) => {
                proof {
                    assert(self.area_seq() == s0.area_seq());
                    assert forall|j: int| 0 <= j < self.area_seq().len() implies (#[trigger] self.area_seq()[j]).wf()
                        && self.area_seq()[j].mapped_in(&self.table()) by {
                        let a = s0.area_seq()[j];
                        assert(a.mapped_in(&s0.table()));
                        assert forall|v: u64| a.start() <= v < a.start() + (a.end() - a.start()) implies #[trigger] self.table().lookup(v) == Some(a.pte_of(v)) by {
                            assert(s0.table().lookup(v) == Some(a.pte_of(v)));
                        }
                    }
                    assert forall|v: u64|
                        v < VPN_MASK && (forall|j: int|
                            0 <= j < self.area_seq().len() ==> !(#[trigger] self.area_seq()[j]).contains(v))
                            implies #[trigger] self.table().lookup(v) is None by {
                        assert(s0.table().lookup(v) is None);
                    }
                    assert forall|j: int, k: int|
                        0 <= j < self.area_seq().len() && 0 <= k < self.area_seq().len() && j != k
                            implies ranges_disjoint(&#[trigger] self.area_seq()[j], &#[trigger] self.area_seq()[k]) by {
                        assert(ranges_disjoint(&s0.area_seq()[j], &s0.area_seq()[k]));
                    }
                    assert forall|j: int| 0 <= j < self.area_seq().len() implies (#[trigger] self.area_seq()[j]).frame_set().subset_of(
                        allocator.in_use()) && self.area_seq()[j].frame_set().disjoint(self.table().frame_set()) by {
                        let a = s0.area_seq()[j];
                        assert(a.frame_set().disjoint(s0.table().frame_set()));
                        assert forall|x: u64| a.frame_set().contains(x) implies !self.table().frame_set().contains(x) by {
                            assert(a0.in_use().contains(x));
                        }
                    }
                    assert forall|j: int, k: int|
                        0 <= j < self.area_seq().len() && 0 <= k < self.area_seq().len() && j != k implies (
                        #[trigger] self.area_seq()[j]).frame_set().disjoint((#[trigger] self.area_seq()[k]).frame_set()) by {
                        assert(s0.area_seq()[j].frame_set().disjoint(s0.area_seq()[k].frame_set()));
                    }
                }
                proof {
                    lemma_owned_split(s0.table().frame_set(), s0.area_seq());
                    lemma_owned_split(self.table().frame_set(), self.area_seq());
                    lemma_owned_in_use(&s0, &a0);
                    assert(area.frame_set() =~= Set::<u64>::empty());
                    assert(self.frames_owned().difference(s0.frames_owned()) =~= self.table().frame_set().difference(s0.table().frame_set()));
                    assert(allocator.in_use() =~= a0.in_use().union(self.frames_owned().difference(s0.frames_owned())));
                }
                return Err(e);
            },
        }
        let ghost area_mapped = area;
        match data {
            Some(d) => area.copy_data(&self.page_table, d),
            None => {},
        }
        self.areas.push(area);
        proof {
            let n = s0.area_seq().len();
            let pt = self.table();
            assert(self.area_seq().subrange(0, n as int) =~= s0.area_seq());
            assert(self.area_seq()[n as int] == area);
            assert forall|j: int| 0 <= j < n implies #[trigger] self.area_seq()[j] == s0.area_seq()[j] by {}
            assert forall|j: int| 0 <= j < self.area_seq().len() implies (#[trigger] self.area_seq()[j]).wf()
                && self.area_seq()[j].mapped_in(&pt) by {
                if j < n {
                    let a = s0.area_seq()[j];
                    assert(a.mapped_in(&s0.table()));
                    assert forall|v: u64| a.start() <= v < a.start() + (a.end() - a.start()) implies #[trigger] pt.lookup(v) == Some(a.pte_of(v)) by {
                        assert(!map_area.contains(v)) by {
                            assert(ranges_disjoint(&map_area, &s0.areas@[j]));
                        }
                        assert(s0.table().lookup(v) == Some(a.pte_of(v)));
                    }
                }
            }
            assert forall|v: u64|
                v < VPN_MASK && (forall|j: int|
                    0 <= j < self.area_seq().len() ==> !(#[trigger] self.area_seq()[j]).contains(v))
                    implies #[trigger] pt.lookup(v) is None by {
                assert(!self.area_seq()[n as int].contains(v));
                assert forall|j: int| 0 <= j < s0.area_seq().len() implies !(#[trigger] s0.area_seq()[j]).contains(v) by {
                    assert(self.area_seq()[j] == s0.area_seq()[j]);
                }
                assert(s0.table().lookup(v) is None);
            }
            assert forall|j: int, k: int|
                0 <= j < self.area_seq().len() && 0 <= k < self.area_seq().len() && j != k
                    implies ranges_disjoint(&#[trigger] self.area_seq()[j], &#[trigger] self.area_seq()[k]) by {
                if j < n && k < n {
                    assert(ranges_disjoint(&s0.area_seq()[j], &s0.area_seq()[k]));
                } else if j < n {
                    assert(ranges_disjoint(&map_area, &s0.areas@[j]));
                } else {
                    assert(ranges_disjoint(&map_area, &s0.areas@[k]));
                }
            }
            assert forall|j: int| 0 <= j < self.area_seq().len() implies (#[trigger] self.area_seq()[j]).frame_set().subset_of(
                allocator.in_use()) && self.area_seq()[j].frame_set().disjoint(pt.frame_set()) by {
                if j < n {
                    let a = s0.area_seq()[j];
                    assert(a.frame_set().disjoint(s0.table().frame_set()));
                    assert forall|x: u64| a.frame_set().contains(x) implies !pt.frame_set().contains(x) by {
                        assert(a0.in_use().contains(x));
                    }
                }
            }
            assert forall|j: int, k: int|
                0 <= j < self.area_seq().len() && 0 <= k < self.area_seq().len() && j != k implies (
                #[trigger] self.area_seq()[j]).frame_set().disjoint((#[trigger] self.area_seq()[k]).frame_set()) by {
                if j < n && k < n {
                    assert(s0.area_seq()[j].frame_set().disjoint(s0.area_seq()[k].frame_set()));
                } else if j < n {
                    assert forall|x: u64| self.area_seq()[j].frame_set().contains(x) implies !area.frame_set().contains(x) by {
                        assert(a0.in_use().contains(x));
                    }
                } else {
                    assert forall|x: u64| self.area_seq()[k].frame_set().contains(x) implies !area.frame_set().contains(x) by {
                        assert(a0.in_use().contains(x));
                    }
                }
            }
            if map_area.kind() == MapType::Framed {
                assert forall|i: int, c: int|
                    0 <= i < map_area.end() - map_area.start() && 0 <= c < PAGE_SIZE
                        implies #[trigger] area.frames()[(map_area.start() + i) as u64].contents()[c]
                        == match data {
                        Some(d) => if i * PAGE_SIZE + c < d@.len() {
                            d@[i * PAGE_SIZE + c]
                        } else {
                            0u8
                        },
                        None => 0u8,
                    } by {
                    let v = (map_area.start() + i) as u64;
                    assert(area_mapped.frames().contains_key(v));
                    assert(area_mapped.frames()[v].contents() == zero_page());
                }
            }
        }
        proof {
            lemma_owned_split(s0.table().frame_set(), s0.area_seq());
            lemma_owned_split(self.table().frame_set(), self.area_seq());
            lemma_owned_push(s0.area_seq(), area);
            assert(self.area_seq() =~= s0.area_seq().push(area));
            lemma_owned_in_use(&s0, &a0);
            assert(area.frame_set() == area_mapped.frame_set());
            assert(area_mapped.frame_set().disjoint(a0.in_use())) by {
                assert(map_area.frame_set() =~= Set::<u64>::empty());
            }
            assert(self.frames_owned().difference(s0.frames_owned()) =~= self.table().frame_set().difference(s0.table().frame_set()).union(area.frame_set()));
            assert(allocator.in_use() =~= a0.in_use().union(self.frames_owned().difference(s0.frames_owned())));
        }
        Ok(())
    }
}

/// Highest end address an area may have: the start of the top page.
pub const VA_AREA_LIMIT: u64 = 0x7f_ffff_f000;

/// The permissions a loadable segment is mapped with: its `R W X` flags and
/// always `U`.
pub open spec fn segment_perm(s: ProgramSegment) -> u8 {
    MAP_U | (if s.readable { MAP_R } else { 0u8 }) | (if s.writable { MAP_W } else { 0u8 }) | (
    if s.executable {
        MAP_X
    } else {
        0u8
    })
}

/// First page of a segment's area.
pub open spec fn segment_start(s: ProgramSegment) -> int {
    (s.vaddr as int) / (PAGE_SIZE as int)
}

/// The page after a segment's area.
pub open spec fn segment_end(s: ProgramSegment) -> int {
    page_ceil(s.vaddr + s.mem_size)
}

/// A loadable segment that can be mapped: it lies below the top page, its
/// file bytes lie in the image and fit the pages of its area.
pub open spec fn segment_ok(s: ProgramSegment, len: nat) -> bool {
    &&& s.vaddr + s.mem_size <= VA_AREA_LIMIT
    &&& s.offset + s.file_size <= len
    &&& s.file_size <= (segment_end(s) - segment_start(s)) * PAGE_SIZE
}

/// Program header `k` of the image.
pub open spec fn header_seg(data: Seq<u8>, k: int) -> ProgramSegment {
    elf_program_header_of(data, elf_header_of(data).unwrap(), k as u16)
}

/// Number of program headers of the image.
pub open spec fn header_count(data: Seq<u8>) -> nat {
    elf_header_of(data).unwrap().ph_count as nat
}

/// The loadable segments among the first `k` program headers, in order.
pub open spec fn load_segments(data: Seq<u8>, k: nat) -> Seq<ProgramSegment>
    decreases k,
{
    if k == 0 {
        Seq::empty()
    } else {
        let prev = load_segments(data, (k - 1) as nat);
        let s = header_seg(data, k - 1);
        if s.load {
            prev.push(s)
        } else {
            prev
        }
    }
}

/// Pages of the areas of the loadable segments among the first `k` headers.
pub open spec fn load_pages(data: Seq<u8>, k: nat) -> int
    decreases k,
{
    if k == 0 {
        0
    } else {
        let s = header_seg(data, k - 1);
        load_pages(data, (k - 1) as nat) + if s.load {
            segment_end(s) - segment_start(s)
        } else {
            0
        }
    }
}

/// The highest end page of the loadable segments among the first `k`
/// headers, 0 when there is none.
pub open spec fn highest_end_vpn(data: Seq<u8>, k: nat) -> int
    decreases k,
{
    if k == 0 {
        0
    } else {
        let prev = highest_end_vpn(data, (k - 1) as nat);
        let s = header_seg(data, k - 1);
        if s.load && segment_end(s) > prev {
            segment_end(s)
        } else {
            prev
        }
    }
}

/// Bottom of the user stack: one guard page above the segments.
pub open spec fn user_stack_bottom(max_end: int) -> int {
    sign_extend_va((max_end as u64) << 12u64) + PAGE_SIZE
}

/// Whether the stack above `max_end` fits below the top of the address space.
pub open spec fn stack_ok(max_end: int) -> bool {
    let bottom = user_stack_bottom(max_end);
    &&& bottom + USER_STACK_SIZE <= u64::MAX
    &&& (bottom as u64) & VA_MASK <= ((bottom + USER_STACK_SIZE) as u64) & VA_MASK
    &&& ((bottom + USER_STACK_SIZE) as u64) & VA_MASK <= VA_AREA_LIMIT
}

/// First page of the stack above `max_end`.
pub open spec fn stack_start(max_end: int) -> int {
    (((user_stack_bottom(max_end) as u64) & VA_MASK) as int) / (PAGE_SIZE as int)
}

/// The page after the stack above `max_end`.
pub open spec fn stack_end(max_end: int) -> int {
    page_ceil((((user_stack_bottom(max_end) + USER_STACK_SIZE) as u64) & VA_MASK) as int)
}

/// Whether the page ranges `[s1, e1)` and `[s2, e2)`, both not empty, meet.
pub open spec fn ranges_meet(s1: int, e1: int, s2: int, e2: int) -> bool {
    s1 < e1 && s2 < e2 && s1 < e2 && s2 < e1
}

/// An image this loader accepts: a 64-bit little-endian ELF header,
/// program headers inside the image, loadable segments that fit, and room
/// for the stack.
pub open spec fn elf_ok(data: Seq<u8>) -> bool {
    &&& elf_header_of(data) is Some
    &&& forall|k: int| 0 <= k < header_count(data) ==> #[trigger] header_ok(data, k)
    &&& stack_ok(highest_end_vpn(data, header_count(data)))
}

/// Program header `k` lies inside the image and, when loadable, fits.
pub open spec fn header_ok(data: Seq<u8>, k: int) -> bool {
    &&& program_header_in_image(data, elf_header_of(data).unwrap(), k as u16)
    &&& header_seg(data, k).load ==> segment_ok(header_seg(data, k), data.len())
}

/// The areas of an image meet nowhere: no two loadable segments, no
/// segment and the stack or the trap-context page, nor those two.
pub open spec fn elf_layout_disjoint(data: Seq<u8>) -> bool {
    let n = header_count(data);
    let me = highest_end_vpn(data, n);
    &&& forall|k1: int, k2: int|
        0 <= k1 < k2 < n && (#[trigger] header_seg(data, k1)).load && (#[trigger] header_seg(
            data,
            k2,
        )).load ==> !ranges_meet(
            segment_start(header_seg(data, k1)),
            segment_end(header_seg(data, k1)),
            segment_start(header_seg(data, k2)),
            segment_end(header_seg(data, k2)),
        )
    &&& forall|k: int|
        0 <= k < n && (#[trigger] header_seg(data, k)).load ==> !ranges_meet(
            segment_start(header_seg(data, k)),
            segment_end(header_seg(data, k)),
            stack_start(me),
            stack_end(me),
        ) && !ranges_meet(
            segment_start(header_seg(data, k)),
            segment_end(header_seg(data, k)),
            TRAP_CONTEXT_VPN as int,
            VPN_MASK as int,
        )
    &&& !ranges_meet(stack_start(me), stack_end(me), TRAP_CONTEXT_VPN as int, VPN_MASK as int)
}

/// Frames that loading an image takes at most: the root, the trampoline's
/// two interior nodes, and three per page of its areas.
pub open spec fn elf_frames_needed(data: Seq<u8>) -> int {
    let n = header_count(data);
    let me = highest_end_vpn(data, n);
    3 + 3 * (load_pages(data, n) + (stack_end(me) - stack_start(me)) + 1)
}

proof fn lemma_segment_pages_nonneg(s: ProgramSegment)
    ensures
        segment_end(s) >= segment_start(s),
{
    let a = s.vaddr as int;
    let b = (s.vaddr + s.mem_size) as int;
    assert(a / 4096 <= b / 4096) by (nonlinear_arith)
        requires
            0 <= a <= b,
    ;
}

proof fn lemma_load_pages_grow(data: Seq<u8>, i: nat, n: nat)
    requires
        i <= n,
    ensures
        load_pages(data, i) <= load_pages(data, n),
    decreases n - i,
{
    if i < n {
        lemma_load_pages_grow(data, i, (n - 1) as nat);
        lemma_segment_pages_nonneg(header_seg(data, n - 1));
    }
}

proof fn lemma_highest_end(data: Seq<u8>, n: nat)
    ensures
        highest_end_vpn(data, n) >= 0,
        forall|k: int| 0 <= k < n && (#[trigger] header_seg(data, k)).load ==> segment_end(header_seg(data, k)) <= highest_end_vpn(data, n),
    decreases n,
{
    if n > 0 {
        lemma_highest_end(data, (n - 1) as nat);
    }
}

/// Segment `a` of the first `i` headers' loadable segments is one of them.
proof fn lemma_load_segment_source(data: Seq<u8>, i: nat, a: int)
    requires
        0 <= a < load_segments(data, i).len(),
    ensures
        exists|k: int| 0 <= k < i && (#[trigger] header_seg(data, k)).load && load_segments(data, i)[a] == header_seg(data, k),
    decreases i,
{
    let prev = load_segments(data, (i - 1) as nat);
    if a < prev.len() {
        lemma_load_segment_source(data, (i - 1) as nat, a);
        let k = choose|k: int| 0 <= k < i - 1 && (#[trigger] header_seg(data, k)).load && prev[a] == header_seg(data, k);
        assert(load_segments(data, i)[a] == prev[a]);
    } else {
        assert(header_seg(data, i - 1).load);
    }
}

/// The area of a loadable segment: its range, `Framed`, its permissions,
/// and contents that are its file bytes followed by zeros.
pub open spec fn area_of_segment(a: MapArea, s: ProgramSegment, data: Seq<u8>) -> bool {
    &&& a.start() == segment_start(s)
    &&& a.end() == segment_end(s)
    &&& a.kind() == MapType::Framed
    &&& a.perm().bits == segment_perm(s)
    &&& forall|i: int, c: int|
        0 <= i < a.end() - a.start() && 0 <= c < PAGE_SIZE ==> #[trigger] a.frames()[(a.start() + i) as u64].contents()[c]
            == if i * PAGE_SIZE + c < s.file_size {
            data[s.offset + i * PAGE_SIZE + c]
        } else {
            0u8
        }
}

/// Whether a loadable segment can be mapped.
fn segment_check(s: ProgramSegment, len: usize) -> (r: bool)
    ensures
        r == segment_ok(s, len as nat),
{
    if s.vaddr > VA_AREA_LIMIT || s.mem_size > VA_AREA_LIMIT - s.vaddr {
        return false;
    }
    if s.offset > len as u64 || s.file_size > len as u64 - s.offset {
        return false;
    }
    let start = s.vaddr / PAGE_SIZE;
    let end_addr = s.vaddr + s.mem_size;
    let end = if end_addr % PAGE_SIZE == 0 {
        end_addr / PAGE_SIZE
    } else {
        end_addr / PAGE_SIZE + 1
    };
    s.file_size <= (end - start) * PAGE_SIZE
}

impl MemorySet {
    /// The address space of an application image: the trampoline, one
    /// `Framed` area per loadable segment holding its file bytes, a guard
    /// page above the highest segment, the user stack and the trap-context
    /// page. Returns it with the top of the user stack and the entry point.
    /// `Err(InvalidElf)` exactly on the images the loader does not accept;
    /// on an accepted image whose areas meet nowhere, with enough free
    /// frames, the result is `Ok`.
    #[verifier::rlimit(60)]
    pub fn from_elf(allocator: &mut StackFrameAllocator, elf_data: &[u8], trampoline: PhysPageNum) -> (r: Result<(MemorySet, u64, u64), MemError>)
        requires
            old(allocator).wf(),
        ensures
            final(allocator).wf(),
            final(allocator).range_end() == old(allocator).range_end(),
            old(allocator).in_use().subset_of(final(allocator).in_use()),
            !elf_ok(elf_data@) ==> r is Err,
            r == Err::<(MemorySet, u64, u64), MemError>(MemError::InvalidElf) ==> !elf_ok(elf_data@),
            elf_ok(elf_data@) && elf_layout_disjoint(elf_data@) && old(allocator).available()
                >= elf_frames_needed(elf_data@) ==> r is Ok,
            r matches Ok((ms, sp, entry)) ==> {
                let data = elf_data@;
                let h = elf_header_of(data).unwrap();
                let segs = load_segments(data, header_count(data));
                let me = highest_end_vpn(data, header_count(data));
                let bottom = user_stack_bottom(me);
                let n = segs.len() as int;
                &&& elf_ok(data)
                &&& ms.wf()
                &&& ms.owns_frames(final(allocator))
                &&& final(allocator).in_use() == old(allocator).in_use().union(ms.frames_owned())
                &&& old(allocator).in_use().disjoint(ms.frames_owned())
                &&& entry == h.entry
                &&& sp == bottom + USER_STACK_SIZE
                &&& ms.area_seq().len() == n + 2
                &&& forall|a: int| 0 <= a < n ==> area_of_segment(#[trigger] ms.area_seq()[a], segs[a], data)
                &&& ms.area_seq()[n].start() == stack_start(me)
                &&& ms.area_seq()[n].end() == stack_end(me)
                &&& ms.area_seq()[n].kind() == MapType::Framed
                &&& ms.area_seq()[n].perm().bits == MAP_R | MAP_W | MAP_U
                &&& ms.area_seq()[n + 1].start() == TRAP_CONTEXT_VPN
                &&& ms.area_seq()[n + 1].end() == VPN_MASK
                &&& ms.area_seq()[n + 1].kind() == MapType::Framed
                &&& ms.area_seq()[n + 1].perm().bits == MAP_R | MAP_W
                &&& ms.table().lookup(VPN_MASK) == Some(
                    PageTableEntry { bits: pte_bits(trampoline.0, PTE_R | PTE_X | PTE_V) },
                )
            },
    {
        let ghost data = elf_data@;
        let ghost a0 = *allocator;
        let ghost good = elf_ok(data) && elf_layout_disjoint(data) && a0.available() >= elf_frames_needed(data);
        let len = elf_data.len();
        let header = match read_elf_header(elf_data) {
            Some(h) => h,
            None => return Err(MemError::InvalidElf),
        };
        let ghost n = header.ph_count as nat;
        let ghost me_all = highest_end_vpn(data, n);
        proof {
            lemma_load_pages_grow(data, 0, n);
            lemma_highest_end(data, n);
            if good {
                assert(stack_ok(me_all));
                assert(stack_end(me_all) >= stack_start(me_all)) by {
                    let lo = ((user_stack_bottom(me_all) as u64) & VA_MASK) as int;
                    let hi = (((user_stack_bottom(me_all) + USER_STACK_SIZE) as u64) & VA_MASK) as int;
                    assert(lo / 4096 <= hi / 4096) by (nonlinear_arith)
                        requires
                            0 <= lo <= hi,
                    ;
                }
            }
        }
        let mut memory_set = match MemorySet::new_bare(allocator) {
            Some(ms) => ms,
            None => return Err(MemError::OutOfFrames),
        };
        let ghost ms_bare = memory_set;
        let ghost a_bare = *allocator;
        match memory_set.map_trampoline(allocator, trampoline) {
            Ok(()) => {},
            Err(e) => return Err(e),
        }
        proof {
            lemma_take_more(&ms_bare, &memory_set, &a0, &a_bare, allocator);
        }
        let mut max_end: u64 = 0;
        let mut i: u16 = 0;
        while i < header.ph_count
            invariant
                a0 == *old(allocator),
                data == elf_data@,
                len == data.len(),
                elf_header_of(data) == Some(header),
                n == header.ph_count,
                me_all == highest_end_vpn(data, n),
                i <= header.ph_count,
                good == (elf_ok(data) && elf_layout_disjoint(data) && a0.available() >= elf_frames_needed(data)),
                good ==> stack_end(me_all) >= stack_start(me_all),
                good ==> allocator.available() >= a0.available() - 3 - 3 * load_pages(data, i as nat),
                allocator.wf(),
                allocator.range_end() == a0.range_end(),
                a0.in_use().subset_of(allocator.in_use()),
                memory_set.wf(),
                memory_set.owns_frames(allocator),
                allocator.in_use() == a0.in_use().union(memory_set.frames_owned()),
                a0.in_use().disjoint(memory_set.frames_owned()),
                memory_set.table().lookup(VPN_MASK) == Some(
                    PageTableEntry { bits: pte_bits(trampoline.0, PTE_R | PTE_X | PTE_V) },
                ),
                forall|k: int| 0 <= k < i ==> #[trigger] header_ok(data, k),
                memory_set.area_seq().len() == load_segments(data, i as nat).len(),
                forall|a: int|
                    0 <= a < memory_set.area_seq().len() ==> area_of_segment(
                        #[trigger] memory_set.area_seq()[a],
                        load_segments(data, i as nat)[a],
                        data,
                    ),
                max_end as int == highest_end_vpn(data, i as nat),
            decreases header.ph_count - i,
        {
            proof {
                if elf_ok(data) {
                    assert(header_ok(data, i as int));
                }
            }
            let ph = match read_program_header(elf_data, header, i) {
                Some(ph) => ph,
                None => return Err(MemError::InvalidElf),
            };
            assert(ph == header_seg(data, i as int));
            assert(program_header_in_image(data, header, i));
            let ghost before = memory_set;
            let ghost a_before = *allocator;
            if ph.load {
                if !segment_check(ph, len) {
                    return Err(MemError::InvalidElf);
                }
                let r: u8 = if ph.readable { MAP_R } else { 0u8 };
                let w: u8 = if ph.writable { MAP_W } else { 0u8 };
                let x: u8 = if ph.executable { MAP_X } else { 0u8 };
                let bits: u8 = MAP_U | r | w | x;
                proof {
                    assert(bits == segment_perm(ph));
                    assert((r == 2u8 || r == 0u8) && (w == 4u8 || w == 0u8) && (x == 8u8 || x == 0u8) ==> (16u8 | r | w | x) & 1 == 0) by (bit_vector);
                    let va = ph.vaddr;
                    let ve = (ph.vaddr + ph.mem_size) as u64;
                    assert(va <= 0x7f_ffff_f000 ==> va & 0x7f_ffff_ffff == va) by (bit_vector);
                    assert(ve <= 0x7f_ffff_f000 ==> ve & 0x7f_ffff_ffff == ve) by (bit_vector);
                }
                let perm = MapPermission { bits };
                let start_va = VirtAddr::from(ph.vaddr);
                let end_va = VirtAddr::from(ph.vaddr + ph.mem_size);
                let area = MapArea::new(start_va, end_va, MapType::Framed, perm);
                let area_end = area.vpn_range.get_end().0;
                if area_end > max_end {
                    max_end = area_end;
                }
                let file_data = vstd::slice::slice_subrange(elf_data, ph.offset as usize, (ph.offset + ph.file_size) as usize);
                proof {
                    if good {
                        lemma_load_pages_grow(data, (i + 1) as nat, n);
                        assert forall|a: int| 0 <= a < before.area_seq().len() implies ranges_disjoint(&area, &#[trigger] before.area_seq()[a]) by {
                            lemma_load_segment_source(data, i as nat, a);
                            let k = choose|k: int| 0 <= k < i && (#[trigger] header_seg(data, k)).load && load_segments(data, i as nat)[a] == header_seg(data, k);
                            assert(!ranges_meet(segment_start(header_seg(data, k)), segment_end(header_seg(data, k)),
                                segment_start(header_seg(data, i as int)), segment_end(header_seg(data, i as int))));
                        }
                    }
                }
                match memory_set.push(allocator, area, Some(file_data)) {
                    Ok(()) => {},
                    Err(e) => return Err(e),
                }
                proof {
                    lemma_take_more(&before, &memory_set, &a0, &a_before, allocator);
                    let segs = load_segments(data, (i + 1) as nat);
                    assert(segs == load_segments(data, i as nat).push(ph));
                    let nb = before.area_seq().len();
                    assert forall|a: int| 0 <= a < memory_set.area_seq().len() implies area_of_segment(
                        #[trigger] memory_set.area_seq()[a], segs[a], data) by {
                        if a < nb {
                            assert(memory_set.area_seq()[a] == memory_set.area_seq().subrange(0, nb as int)[a]);
                            assert(before.area_seq()[a] == memory_set.area_seq()[a]);
                        } else {
                            let last = memory_set.area_seq()[a];
                            assert(last == memory_set.area_seq().last());
                            assert forall|k: int, c: int|
                                0 <= k < last.end() - last.start() && 0 <= c < PAGE_SIZE implies #[trigger] last.frames()[(last.start() + k) as u64].contents()[c]
                                    == if k * PAGE_SIZE + c < ph.file_size {
                                    data[ph.offset + k * PAGE_SIZE + c]
                                } else {
                                    0u8
                                } by {
                                if k * PAGE_SIZE + c < ph.file_size {
                                    assert(file_data@[k * PAGE_SIZE + c] == data[ph.offset + k * PAGE_SIZE + c]);
                                }
                            }
                        }
                    }
                }
            } else {
                proof {
                    assert(load_segments(data, (i + 1) as nat) == load_segments(data, i as nat));
                }
            }
            assert(header_ok(data, i as int));
            i = i + 1;
        }
        let max_end_va = VirtAddr::from(VirtPageNum(max_end));
        let bottom_word = u64::from(max_end_va);
        if bottom_word > u64::MAX - PAGE_SIZE - USER_STACK_SIZE {
            return Err(MemError::InvalidElf);
        }
        let user_stack_bottom = bottom_word + PAGE_SIZE;
        let user_stack_top = user_stack_bottom + USER_STACK_SIZE;
        let bottom_va = VirtAddr::from(user_stack_bottom);
        let top_va = VirtAddr::from(user_stack_top);
        if bottom_va.0 > top_va.0 || top_va.0 > VA_AREA_LIMIT {
            return Err(MemError::InvalidElf);
        }
        proof {
            assert(elf_ok(data));
        }
        let ghost before_stack = memory_set;
        assert((2u8 | 4u8 | 16u8) & 1 == 0 && (2u8 | 4u8) & 1 == 0) by (bit_vector);
        let stack = MapArea::new(bottom_va, top_va, MapType::Framed, MapPermission { bits: MAP_R | MAP_W | MAP_U });
        proof {
            if good {
                assert forall|a: int| 0 <= a < before_stack.area_seq().len() implies ranges_disjoint(&stack, &#[trigger] before_stack.area_seq()[a]) by {
                    lemma_load_segment_source(data, n, a);
                    let k = choose|k: int| 0 <= k < n && (#[trigger] header_seg(data, k)).load && load_segments(data, n)[a] == header_seg(data, k);
                }
            }
        }
        let ghost a_stack = *allocator;
        match memory_set.push(allocator, stack, None) {
            Ok(()) => {},
            Err(e) => return Err(e),
        }
        let ghost before_trap = memory_set;
        let ghost a_trap = *allocator;
        proof {
            lemma_take_more(&before_stack, &memory_set, &a0, &a_stack, allocator);
        }
        proof {
            assert(0xffff_ffff_ffff_e000u64 & 0x7f_ffff_ffffu64 == 0x7f_ffff_e000u64) by (bit_vector);
            assert(0xffff_ffff_ffff_f000u64 & 0x7f_ffff_ffffu64 == 0x7f_ffff_f000u64) by (bit_vector);
        }
        let trap_area = MapArea::new(
            VirtAddr::from(TRAP_CONTEXT),
            VirtAddr::from(TRAMPOLINE),
            MapType::Framed,
            MapPermission { bits: MAP_R | MAP_W },
        );
        proof {
            if good {
                let nb = before_stack.area_seq().len() as int;
                assert forall|a: int| 0 <= a < before_trap.area_seq().len() implies ranges_disjoint(&trap_area, &#[trigger] before_trap.area_seq()[a]) by {
                    if a < nb {
                        assert(before_trap.area_seq()[a] == before_trap.area_seq().subrange(0, nb)[a]);
                        lemma_load_segment_source(data, n, a);
                        let k = choose|k: int| 0 <= k < n && (#[trigger] header_seg(data, k)).load && load_segments(data, n)[a] == header_seg(data, k);
                    }
                }
            }
        }
        match memory_set.push(allocator, trap_area, None) {
            Ok(()) => {},
            Err(e) => return Err(e),
        }
        proof {
            lemma_take_more(&before_trap, &memory_set, &a0, &a_trap, allocator);
            let nb = before_stack.area_seq().len() as int;
            assert forall|a: int| 0 <= a < nb implies area_of_segment(#[trigger] memory_set.area_seq()[a], load_segments(data, n)[a], data) by {
                assert(before_trap.area_seq()[a] == before_trap.area_seq().subrange(0, nb)[a]);
                assert(memory_set.area_seq()[a] == memory_set.area_seq().subrange(0, nb + 1)[a]);
            }
            assert(memory_set.area_seq()[nb] == memory_set.area_seq().subrange(0, nb + 1)[nb]);
            assert(memory_set.area_seq()[nb] == before_trap.area_seq()[nb]);
        }
        Ok((memory_set, user_stack_top, header.entry))
    }
}

/// First page of the trap-context area.
pub const TRAP_CONTEXT_VPN: u64 = 0x7ff_fffe;

/// Where the linker placed the kernel's sections, as physical addresses.
#[derive(Clone, Copy, Debug, PartialEq, Eq, Structural)]
pub struct KernelLayout {
    pub stext: u64,
    pub etext: u64,
    pub srodata: u64,
    pub erodata: u64,
    pub sdata: u64,
    pub edata: u64,
    pub sbss_with_stack: u64,
    pub ebss: u64,
    pub ekernel: u64,
    pub strampoline: u64,
}

/// Whether `[start, end)`, each cut to 39 bits, is an ordered range below
/// the top page.
pub open spec fn range_ok(start: u64, end: u64) -> bool {
    start & VA_MASK <= end & VA_MASK <= VA_AREA_LIMIT
}

/// Whether every section of the kernel, and the memory after it, can be
/// mapped.
pub open spec fn layout_ok(l: KernelLayout) -> bool {
    &&& range_ok(l.stext, l.etext)
    &&& range_ok(l.srodata, l.erodata)
    &&& range_ok(l.sdata, l.edata)
    &&& range_ok(l.sbss_with_stack, l.ebss)
    &&& range_ok(l.ekernel, MEMORY_END)
}

/// First page of a section starting at `start`.
pub open spec fn section_start(start: u64) -> int {
    ((start & VA_MASK) as int) / (PAGE_SIZE as int)
}

/// The page after a section ending at `end`.
pub open spec fn section_end(end: u64) -> int {
    page_ceil((end & VA_MASK) as int)
}

/// The kernel's sections in mapping order, with their permissions.
pub open spec fn kernel_sections(l: KernelLayout) -> Seq<(u64, u64, u8)> {
    seq![
        (l.stext, l.etext, MAP_R | MAP_X),
        (l.srodata, l.erodata, MAP_R),
        (l.sdata, l.edata, MAP_R | MAP_W),
        (l.sbss_with_stack, l.ebss, MAP_R | MAP_W),
        (l.ekernel, MEMORY_END, MAP_R | MAP_W),
    ]
}

/// Pages of the first `k` sections.
pub open spec fn section_pages(l: KernelLayout, k: int) -> int
    decreases k,
{
    if k <= 0 {
        0
    } else {
        let s = kernel_sections(l)[k - 1];
        section_pages(l, k - 1) + (section_end(s.1) - section_start(s.0))
    }
}

/// Sections `i` and `j` meet nowhere.
pub open spec fn section_disjoint_pair(l: KernelLayout, i: int, j: int) -> bool {
    let a = kernel_sections(l)[i];
    let b = kernel_sections(l)[j];
    !ranges_meet(section_start(a.0), section_end(a.1), section_start(b.0), section_end(b.1))
}

/// No two sections of the kernel meet.
pub open spec fn kernel_sections_disjoint(l: KernelLayout) -> bool {
    forall|i: int, j: int| 0 <= i < j < 5 ==> #[trigger] section_disjoint_pair(l, i, j)
}

/// Frames that building the kernel's address space takes at most: the
/// root, the trampoline's two interior nodes, and three per page.
pub open spec fn kernel_frames_needed(l: KernelLayout) -> int {
    3 + 3 * section_pages(l, 5)
}

proof fn lemma_section_pages_grow(l: KernelLayout, k: int)
    requires
        0 <= k <= 5,
        layout_ok(l),
    ensures
        section_pages(l, k) <= section_pages(l, 5),
        section_pages(l, k) >= 0,
    decreases 5 - k,
{
    lemma_section_pages_nonneg(l, k);
    if k < 5 {
        lemma_section_pages_grow(l, k + 1);
        let s = kernel_sections(l)[k];
        let lo = (s.0 & VA_MASK) as int;
        let hi = (s.1 & VA_MASK) as int;
        assert(range_ok(s.0, s.1));
        assert(lo / 4096 <= hi / 4096) by (nonlinear_arith)
            requires
                0 <= lo <= hi,
        ;
    } else {
        lemma_section_pages_nonneg(l, 5);
    }
}

proof fn lemma_section_pages_nonneg(l: KernelLayout, k: int)
    requires
        0 <= k <= 5,
        layout_ok(l),
    ensures
        section_pages(l, k) >= 0,
    decreases k,
{
    if k > 0 {
        lemma_section_pages_nonneg(l, k - 1);
        let s = kernel_sections(l)[k - 1];
        let lo = (s.0 & VA_MASK) as int;
        let hi = (s.1 & VA_MASK) as int;
        assert(range_ok(s.0, s.1));
        assert(lo / 4096 <= hi / 4096) by (nonlinear_arith)
            requires
                0 <= lo <= hi,
        ;
    }
}

/// Area `a` is the identical mapping of `[start, end)` with `perm`.
pub open spec fn identical_area(a: MapArea, start: u64, end: u64, perm: u8) -> bool {
    &&& a.start() == (start & VA_MASK) / PAGE_SIZE
    &&& a.end() == page_ceil((end & VA_MASK) as int)
    &&& a.kind() == MapType::Identical
    &&& a.perm().bits == perm
}

impl MemorySet {
    /// Adds the identical mapping of `[start, end)` with `perm`.
    fn push_identical(&mut self, allocator: &mut StackFrameAllocator, start: u64, end: u64, perm: u8) -> (r: Result<(), MemError>)
        requires
            old(self).wf(),
            old(allocator).wf(),
            old(self).owns_frames(old(allocator)),
            perm & 1 == 0,
        ensures
            final(self).wf(),
            final(allocator).wf(),
            final(self).owns_frames(final(allocator)),
            final(allocator).range_end() == old(allocator).range_end(),
            old(allocator).in_use().subset_of(final(allocator).in_use()),
            r == Err::<(), MemError>(MemError::InvalidRange) <==> !range_ok(start, end),
            takes_exactly(old(self), final(self), old(allocator), final(allocator)),
            r is Ok ==> final(self).area_seq().len() == old(self).area_seq().len() + 1
                && final(self).area_seq().subrange(0, old(self).area_seq().len() as int) == old(self).area_seq()
                && identical_area(final(self).area_seq().last(), start, end, perm)
                && forall|v: u64| v < VPN_MASK && !final(self).area_seq().last().contains(v) ==> #[trigger] final(self).table().lookup(v) == old(self).table().lookup(v),
            r is Ok ==> final(allocator).available() >= old(allocator).available() - 3 * (
            section_end(end) - section_start(start)),
            range_ok(start, end) && old(allocator).available() >= 3 * (section_end(end)
                - section_start(start)) && (forall|a: int|
                0 <= a < old(self).area_seq().len() ==> !ranges_meet(
                    section_start(start),
                    section_end(end),
                    (#[trigger] old(self).area_seq()[a]).start() as int,
                    old(self).area_seq()[a].end() as int,
                )) ==> r is Ok,
            r is Err ==> final(self).area_seq() == old(self).area_seq(),
            final(self).table().lookup(VPN_MASK) == old(self).table().lookup(VPN_MASK),
    {
        let start_va = VirtAddr::from(start);
        let end_va = VirtAddr::from(end);
        if start_va.0 > end_va.0 || end_va.0 > VA_AREA_LIMIT {
            proof {
                assert(self.frames_owned().difference(self.frames_owned()) =~= Set::<u64>::empty());
                assert(allocator.in_use().union(Set::<u64>::empty()) =~= allocator.in_use());
            }
            return Err(MemError::InvalidRange);
        }
        let area = MapArea::new(start_va, end_va, MapType::Identical, MapPermission { bits: perm });
        self.push(allocator, area, None)
    }

    /// The kernel's address space: the trampoline, and identical mappings of
    /// `.text` (`R X`), `.rodata` (`R`), `.data` (`R W`), `.bss` (`R W`) and
    /// the physical memory from the kernel's end to `MEMORY_END` (`R W`).
    /// `Err(InvalidRange)` exactly when a section cannot be mapped; with
    /// sections that meet nowhere and enough free frames, the result is `Ok`.
    pub fn new_kernel(allocator: &mut StackFrameAllocator, layout: KernelLayout) -> (r: Result<MemorySet, MemError>)
        requires
            old(allocator).wf(),
        ensures
            final(allocator).wf(),
            final(allocator).range_end() == old(allocator).range_end(),
            old(allocator).in_use().subset_of(final(allocator).in_use()),
            !layout_ok(layout) ==> r is Err,
            r == Err::<MemorySet, MemError>(MemError::InvalidRange) ==> !layout_ok(layout),
            layout_ok(layout) && kernel_sections_disjoint(layout) && old(allocator).available()
                >= kernel_frames_needed(layout) ==> r is Ok,
            r matches Ok(ms) ==> {
                &&& layout_ok(layout)
                &&& ms.wf()
                &&& ms.owns_frames(final(allocator))
                &&& final(allocator).in_use() == old(allocator).in_use().union(ms.frames_owned())
                &&& old(allocator).in_use().disjoint(ms.frames_owned())
                &&& ms.area_seq().len() == 5
                &&& identical_area(ms.area_seq()[0], layout.stext, layout.etext, MAP_R | MAP_X)
                &&& identical_area(ms.area_seq()[1], layout.srodata, layout.erodata, MAP_R)
                &&& identical_area(ms.area_seq()[2], layout.sdata, layout.edata, MAP_R | MAP_W)
                &&& identical_area(ms.area_seq()[3], layout.sbss_with_stack, layout.ebss, MAP_R | MAP_W)
                &&& identical_area(ms.area_seq()[4], layout.ekernel, MEMORY_END, MAP_R | MAP_W)
                &&& ms.table().lookup(VPN_MASK) == Some(
                    PageTableEntry { bits: pte_bits(layout.strampoline / PAGE_SIZE, PTE_R | PTE_X | PTE_V) },
                )
            },
    {
        let ghost a0 = *allocator;
        let ghost secs = kernel_sections(layout);
        let ghost good = layout_ok(layout) && kernel_sections_disjoint(layout) && a0.available() >= kernel_frames_needed(layout);
        proof {
            if good {
                lemma_section_pages_grow(layout, 0);
            }
        }
        let mut ms = match MemorySet::new_bare(allocator) {
            Some(ms) => ms,
            None => return Err(MemError::OutOfFrames),
        };
        let trampoline = PhysAddr(layout.strampoline).floor();
        let ghost ms_bare = ms;
        let ghost a_bare = *allocator;
        match ms.map_trampoline(allocator, trampoline) {
            Ok(()) => {},
            Err(e) => return Err(e),
        }
        proof {
            lemma_take_more(&ms_bare, &ms, &a0, &a_bare, allocator);
        }
        assert((2u8 | 8u8) & 1 == 0 && 2u8 & 1 == 0 && (2u8 | 4u8) & 1 == 0) by (bit_vector);
        let sections: [(u64, u64, u8); 5] = [
            (layout.stext, layout.etext, MAP_R | MAP_X),
            (layout.srodata, layout.erodata, MAP_R),
            (layout.sdata, layout.edata, MAP_R | MAP_W),
            (layout.sbss_with_stack, layout.ebss, MAP_R | MAP_W),
            (layout.ekernel, MEMORY_END, MAP_R | MAP_W),
        ];
        assert(sections@ =~= secs);
        assert(secs[0].2 & 1 == 0 && secs[1].2 & 1 == 0 && secs[2].2 & 1 == 0 && secs[3].2 & 1 == 0
            && secs[4].2 & 1 == 0);
        let mut k: usize = 0;
        while k < 5
            invariant
                a0 == *old(allocator),
                secs == kernel_sections(layout),
                sections@ == secs,
                forall|j: int| 0 <= j < 5 ==> #[trigger] secs[j].2 & 1 == 0,
                k <= 5,
                good == (layout_ok(layout) && kernel_sections_disjoint(layout) && a0.available() >= kernel_frames_needed(layout)),
                good ==> allocator.available() >= a0.available() - 3 - 3 * section_pages(layout, k as int),
                allocator.wf(),
                allocator.range_end() == a0.range_end(),
                a0.in_use().subset_of(allocator.in_use()),
                ms.wf(),
                ms.owns_frames(allocator),
                allocator.in_use() == a0.in_use().union(ms.frames_owned()),
                a0.in_use().disjoint(ms.frames_owned()),
                ms.table().lookup(VPN_MASK) == Some(
                    PageTableEntry { bits: pte_bits(layout.strampoline / PAGE_SIZE, PTE_R | PTE_X | PTE_V) },
                ),
                ms.area_seq().len() == k,
                forall|j: int| 0 <= j < k ==> identical_area(#[trigger] ms.area_seq()[j], secs[j].0, secs[j].1, secs[j].2)
                    && range_ok(secs[j].0, secs[j].1),
            decreases 5 - k,
        {
            let (start, end, perm) = sections[k];
            let ghost before = ms;
            let ghost a_before = *allocator;
            proof {
                assert(secs[k as int].2 & 1 == 0);
                if good {
                    lemma_section_pages_grow(layout, k as int + 1);
                    assert forall|a: int| 0 <= a < before.area_seq().len() implies !ranges_meet(
                        section_start(start), section_end(end),
                        (#[trigger] before.area_seq()[a]).start() as int, before.area_seq()[a].end() as int) by {
                        assert(section_disjoint_pair(layout, a, k as int));
                    }
                }
            }
            match ms.push_identical(allocator, start, end, perm) {
                Ok(()) => {},
                Err(e) => {
                    proof {
                        if e == MemError::InvalidRange {
                            assert(!range_ok(secs[k as int].0, secs[k as int].1));
                        }
                    }
                    return Err(e);
                },
            }
            proof {
                lemma_take_more(&before, &ms, &a0, &a_before, allocator);
                assert forall|j: int| 0 <= j < k + 1 implies identical_area(#[trigger] ms.area_seq()[j], secs[j].0, secs[j].1, secs[j].2)
                    && range_ok(secs[j].0, secs[j].1) by {
                    if j < k {
                        assert(ms.area_seq()[j] == ms.area_seq().subrange(0, k as int)[j]);
                    }
                }
            }
            k = k + 1;
        }
        proof {
            assert(identical_area(ms.area_seq()[0], secs[0].0, secs[0].1, secs[0].2));
            assert(identical_area(ms.area_seq()[1], secs[1].0, secs[1].1, secs[1].2));
            assert(identical_area(ms.area_seq()[2], secs[2].0, secs[2].1, secs[2].2));
            assert(identical_area(ms.area_seq()[3], secs[3].0, secs[3].1, secs[3].2));
            assert(identical_area(ms.area_seq()[4], secs[4].0, secs[4].1, secs[4].2));
            assert(layout_ok(layout));
        }
        Ok(ms)
    }

    /// Adds a `Framed` area over `[start_va, end_va)` with `permission`.
    pub fn insert_framed_area(
        &mut self,
        allocator: &mut StackFrameAllocator,
        start_va: VirtAddr,
        end_va: VirtAddr,
        permission: MapPermission,
    ) -> (r: Result<(), MemError>)
        requires
            old(self).wf(),
            old(allocator).wf(),
            old(self).owns_frames(old(allocator)),
            start_va.0 <= end_va.0 <= VA_AREA_LIMIT,
            permission.bits & 1 == 0,
        ensures
            final(self).wf(),
            final(allocator).wf(),
            final(self).owns_frames(final(allocator)),
            old(allocator).in_use().subset_of(final(allocator).in_use()),
            takes_exactly(old(self), final(self), old(allocator), final(allocator)),
            r is Err ==> final(self).area_seq() == old(self).area_seq(),
            r is Ok ==> final(self).area_seq().len() == old(self).area_seq().len() + 1
                && final(self).area_seq().subrange(0, old(self).area_seq().len() as int) == old(self).area_seq()
                && final(self).area_seq().last().start() == start_va.0 / PAGE_SIZE
                && final(self).area_seq().last().end() == page_ceil(end_va.0 as int)
                && final(self).area_seq().last().kind() == MapType::Framed
                && final(self).area_seq().last().perm() == permission,
            r is Err ==> r == Err::<(), MemError>(MemError::Overlap) || (r == Err::<(), MemError>(
                MemError::OutOfFrames,
            ) && old(allocator).available() < 3 * (page_ceil(end_va.0 as int) - start_va.0
                / PAGE_SIZE)),
            r is Ok ==> final(allocator).available() >= old(allocator).available() - 3 * (page_ceil(
                end_va.0 as int,
            ) - start_va.0 / PAGE_SIZE),
            r is Ok ==> forall|v: u64|
                v <= VPN_MASK && !(start_va.0 / PAGE_SIZE <= v < page_ceil(end_va.0 as int))
                    ==> #[trigger] final(self).table().lookup(v) == old(self).table().lookup(v),
            (r == Err::<(), MemError>(MemError::Overlap)) <==> exists|i: int|
                0 <= i < old(self).area_seq().len() && range_meets(
                    (start_va.0 / PAGE_SIZE) as int,
                    page_ceil(end_va.0 as int),
                    &#[trigger] old(self).area_seq()[i],
                ),
    {
        let area = MapArea::new(start_va, end_va, MapType::Framed, permission);
        proof {
            assert forall|i: int| 0 <= i < self.area_seq().len() implies range_meets(
                (start_va.0 / PAGE_SIZE) as int, page_ceil(end_va.0 as int), &#[trigger] self.area_seq()[i])
                == !ranges_disjoint(&area, &self.area_seq()[i]) by {}
        }
        self.push(allocator, area, None)
    }

    /// The leaf entry of `vpn` in the address space's page table.
    pub fn translate(&self, vpn: VirtPageNum) -> (r: Option<PageTableEntry>)
        requires
            self.wf(),
        ensures
            r == self.table().lookup(vpn.0),
    {
        self.page_table.translate(vpn)
    }
}

/// Any two areas of a well-formed address space share no page.
pub proof fn lemma_areas_disjoint(ms: &MemorySet, i: int, j: int, v: u64)
    requires
        ms.wf(),
        0 <= i < ms.area_seq().len(),
        0 <= j < ms.area_seq().len(),
        i != j,
    ensures
        !(ms.area_seq()[i].contains(v) && ms.area_seq()[j].contains(v)),
{
    assert(ranges_disjoint(&ms.area_seq()[i], &ms.area_seq()[j]));
}

/// Every page of a `Framed` area of a well-formed address space translates
/// to a valid entry, onto the area's frame for that page.
pub proof fn lemma_framed_pages_translate(ms: &MemorySet, i: int, v: u64)
    requires
        ms.wf(),
        0 <= i < ms.area_seq().len(),
        ms.area_seq()[i].kind() == MapType::Framed,
        ms.area_seq()[i].contains(v),
    ensures
        ms.table().lookup(v) matches Some(e) && e.bits & 1 != 0 && pte_ppn(e.bits)
            == ms.area_seq()[i].frames()[v].frame_ppn().0,
{
    let a = ms.area_seq()[i];
    assert(a.mapped_in(&ms.table()));
    assert(a.frames().contains_key(v));
    assert(ms.table().lookup(v) == Some(a.pte_of(v)));
    lemma_pte_fields(a.ppn_of(v), a.perm().bits | PTE_V);
    let b = a.perm().bits;
    assert((b | 1u8) & 1 == 1) by (bit_vector);
}

/// Every frame an address space owns: those of its page table and those of
/// its areas.
pub open spec fn owned_frames(pt: Set<u64>, areas: Seq<MapArea>) -> Set<u64> {
    Set::new(|p: u64| pt.contains(p) || exists|i: int| 0 <= i < areas.len() && (#[trigger] areas[i]).frame_set().contains(p))
}

impl MemorySet {
    /// Every frame the address space owns.
    pub open spec fn frames_owned(&self) -> Set<u64> {
        owned_frames(self.table().frame_set(), self.area_seq())
    }

    /// Gives the address space up, handing every frame it owns back to the
    /// allocator: those of its areas and those of its page table.
    pub fn release(self, allocator: &mut StackFrameAllocator)
        requires
            self.wf(),
            old(allocator).wf(),
            self.owns_frames(old(allocator)),
        ensures
            final(allocator).wf(),
            final(allocator).range_end() == old(allocator).range_end(),
            final(allocator).in_use() == old(allocator).in_use().difference(self.frames_owned()),
    {
        let ghost a0 = *allocator;
        let ghost orig = self.areas@;
        let ghost pt_set = self.page_table.frame_set();
        proof {
            assert forall|i: int| 0 <= i < orig.len() implies (#[trigger] orig[i]).wf()
                && orig[i].frame_set().subset_of(a0.in_use()) && orig[i].frame_set().disjoint(pt_set) by {
                assert(self.area_seq()[i] == orig[i]);
            }
            assert forall|i: int, j: int|
                0 <= i < orig.len() && 0 <= j < orig.len() && i != j implies (#[trigger] orig[i]).frame_set().disjoint(
                    (#[trigger] orig[j]).frame_set()) by {
                assert(self.area_seq()[i] == orig[i] && self.area_seq()[j] == orig[j]);
            }
        }
        let MemorySet { page_table, mut areas } = self;
        proof {
            assert(owned_frames(Set::empty(), orig.subrange(orig.len() as int, orig.len() as int)) =~= Set::<u64>::empty());
            assert(a0.in_use().difference(Set::<u64>::empty()) =~= a0.in_use());
        }
        while areas.len() > 0
            invariant
                areas@ == orig.subrange(0, areas@.len() as int),
                areas@.len() <= orig.len(),
                forall|i: int| 0 <= i < orig.len() ==> (#[trigger] orig[i]).wf(),
                forall|i: int| 0 <= i < orig.len() ==> (#[trigger] orig[i]).frame_set().subset_of(a0.in_use())
                    && orig[i].frame_set().disjoint(pt_set),
                forall|i: int, j: int|
                    0 <= i < orig.len() && 0 <= j < orig.len() && i != j ==> (#[trigger] orig[i]).frame_set().disjoint(
                        (#[trigger] orig[j]).frame_set()),
                allocator.wf(),
                allocator.range_end() == a0.range_end(),
                page_table.wf(),
                page_table.frame_set() == pt_set,
                pt_set.subset_of(a0.in_use()),
                allocator.in_use() == a0.in_use().difference(owned_frames(Set::empty(), orig.subrange(areas@.len() as int, orig.len() as int))),
            decreases areas@.len(),
        {
            let ghost k = areas@.len() as int;
            let area = match areas.pop() {
                Some(a) => a,
                None => return ,
            };
            proof {
                assert(area == orig[k - 1]);
                let tail = orig.subrange(k, orig.len() as int);
                assert forall|x: u64| area.frame_set().contains(x) implies allocator.in_use().contains(x) by {
                    if owned_frames(Set::empty(), tail).contains(x) {
                        let i = choose|i: int| 0 <= i < tail.len() && (#[trigger] tail[i]).frame_set().contains(x);
                        assert(tail[i] == orig[k + i]);
                        assert(orig[k - 1].frame_set().disjoint(orig[k + i].frame_set()));
                    }
                }
            }
            area.release(allocator);
            proof {
                let tail = orig.subrange(k, orig.len() as int);
                let tail2 = orig.subrange(k - 1, orig.len() as int);
                assert(areas@ =~= orig.subrange(0, k - 1));
                assert(owned_frames(Set::empty(), tail2) =~= owned_frames(Set::empty(), tail).union(area.frame_set())) by {
                    assert forall|p: u64| #[trigger] owned_frames(Set::empty(), tail2).contains(p) == owned_frames(Set::empty(), tail).union(area.frame_set()).contains(p) by {
                        if owned_frames(Set::empty(), tail2).contains(p) {
                            let i = choose|i: int| 0 <= i < tail2.len() && (#[trigger] tail2[i]).frame_set().contains(p);
                            if i > 0 {
                                assert(tail[i - 1] == tail2[i]);
                            }
                        }
                        if owned_frames(Set::empty(), tail).contains(p) {
                            let i = choose|i: int| 0 <= i < tail.len() && (#[trigger] tail[i]).frame_set().contains(p);
                            assert(tail2[i + 1] == tail[i]);
                        }
                        if area.frame_set().contains(p) {
                            assert(tail2[0] == area);
                        }
                    }
                }
                assert(allocator.in_use() =~= a0.in_use().difference(owned_frames(Set::empty(), tail2)));
            }
        }
        proof {
            assert(orig.subrange(0, orig.len() as int) =~= orig);
            assert forall|x: u64| pt_set.contains(x) implies allocator.in_use().contains(x) by {
                if owned_frames(Set::empty(), orig).contains(x) {
                    let i = choose|i: int| 0 <= i < orig.len() && (#[trigger] orig[i]).frame_set().contains(x);
                }
            }
        }
        page_table.release(allocator);
        proof {
            assert(allocator.in_use() =~= a0.in_use().difference(owned_frames(pt_set, orig)));
        }
    }
}

/// `ms1` owns every frame `ms0` owned, and the allocator handed out, from
/// `a0` to `a1`, exactly the frames `ms1` gained, all of them free before.
pub open spec fn takes_exactly(
    ms0: &MemorySet,
    ms1: &MemorySet,
    a0: &StackFrameAllocator,
    a1: &StackFrameAllocator,
) -> bool {
    &&& ms0.frames_owned().subset_of(ms1.frames_owned())
    &&& ms1.frames_owned().difference(ms0.frames_owned()).disjoint(a0.in_use())
    &&& a1.in_use() == a0.in_use().union(ms1.frames_owned().difference(ms0.frames_owned()))
}

proof fn lemma_owned_split(p: Set<u64>, s: Seq<MapArea>)
    ensures
        owned_frames(p, s) == p.union(owned_frames(Set::empty(), s)),
{
    assert(owned_frames(p, s) =~= p.union(owned_frames(Set::empty(), s)));
}

proof fn lemma_owned_push(s: Seq<MapArea>, a: MapArea)
    ensures
        owned_frames(Set::empty(), s.push(a)) == owned_frames(Set::empty(), s).union(a.frame_set()),
{
    let t = s.push(a);
    assert forall|x: u64| #[trigger] owned_frames(Set::empty(), t).contains(x) == owned_frames(Set::empty(), s).union(a.frame_set()).contains(x) by {
        if owned_frames(Set::empty(), t).contains(x) {
            let i = choose|i: int| 0 <= i < t.len() && (#[trigger] t[i]).frame_set().contains(x);
            if i < s.len() {
                assert(s[i] == t[i]);
            }
        }
        if owned_frames(Set::empty(), s).contains(x) {
            let i = choose|i: int| 0 <= i < s.len() && (#[trigger] s[i]).frame_set().contains(x);
            assert(t[i] == s[i]);
        }
        if a.frame_set().contains(x) {
            assert(t[s.len() as int] == a);
        }
    }
    assert(owned_frames(Set::empty(), t) =~= owned_frames(Set::empty(), s).union(a.frame_set()));
}

/// The frames of an address space that owns its frames in an allocator are
/// in use there.
proof fn lemma_owned_in_use(ms: &MemorySet, a: &StackFrameAllocator)
    requires
        ms.owns_frames(a),
    ensures
        ms.frames_owned().subset_of(a.in_use()),
{
    assert forall|x: u64| ms.frames_owned().contains(x) implies a.in_use().contains(x) by {
        if !ms.table().frame_set().contains(x) {
            let i = choose|i: int| 0 <= i < ms.area_seq().len() && (#[trigger] ms.area_seq()[i]).frame_set().contains(x);
        }
    }
}

/// An address space built from `a_start` by steps that each take exactly the
/// frames they add keeps owning exactly the frames taken since `a_start`.
pub proof fn lemma_take_more(
    ms1: &MemorySet,
    ms2: &MemorySet,
    a_start: &StackFrameAllocator,
    a1: &StackFrameAllocator,
    a2: &StackFrameAllocator,
)
    requires
        a1.in_use() == a_start.in_use().union(ms1.frames_owned()),
        a_start.in_use().disjoint(ms1.frames_owned()),
        takes_exactly(ms1, ms2, a1, a2),
    ensures
        a2.in_use() == a_start.in_use().union(ms2.frames_owned()),
        a_start.in_use().disjoint(ms2.frames_owned()),
{
    assert(a2.in_use() =~= a_start.in_use().union(ms2.frames_owned()));
    assert forall|x: u64| a_start.in_use().contains(x) implies !ms2.frames_owned().contains(x) by {
        assert(a1.in_use().contains(x));
        if ms2.frames_owned().contains(x) && !ms1.frames_owned().contains(x) {
            assert(ms2.frames_owned().difference(ms1.frames_owned()).contains(x));
        }
    }
}

/// An address space that took exactly its own frames from an allocator, once
/// released, leaves the allocator's frames in use as they were before it was
/// built.
pub proof fn lemma_build_release_round_trip(
    ms: &MemorySet,
    before: &StackFrameAllocator,
    built: &StackFrameAllocator,
    released: &StackFrameAllocator,
)
    requires
        built.in_use() == before.in_use().union(ms.frames_owned()),
        before.in_use().disjoint(ms.frames_owned()),
        released.in_use() == built.in_use().difference(ms.frames_owned()),
    ensures
        released.in_use() == before.in_use(),
{
    assert(released.in_use() =~= before.in_use());
}

} // verus!
