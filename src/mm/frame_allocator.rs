//! The physical frame allocator and the frame handles it gives out.
//!
//! The allocator hands out page numbers from a forward range and reuses the
//! ones handed back, most recently returned first. A `FrameTracker` is the
//! one handle of an allocated frame: it owns the frame's 4 KiB of contents,
//! which start zeroed.
use vstd::prelude::*;

use crate::config::{MEMORY_END, PAGE_SIZE};
use crate::mm::address::{PhysAddr, PhysPageNum, PA_MASK, PPN_MASK, page_ceil};

verus! {

/// A stack allocator of physical frames over the page numbers `[current, end)`.
pub struct StackFrameAllocator {
    current: u64,
    end: u64,
    recycled: Vec<u64>,
}

impl StackFrameAllocator {
    /// Next page number of the forward range.
    pub closed spec fn next_free(&self) -> u64 {
        self.current
    }

    /// End of the forward range.
    pub closed spec fn range_end(&self) -> u64 {
        self.end
    }

    /// The page numbers handed back and not yet handed out again, the most
    /// recently returned last.
    pub closed spec fn recycled_stack(&self) -> Seq<u64> {
        self.recycled@
    }

    /// The page numbers that are in use: all those below the forward range,
    /// except those on the recycled stack.
    pub open spec fn in_use(&self) -> Set<u64> {
        Set::new(|p: u64| p < self.next_free() && !self.recycled_stack().contains(p))
    }

    /// Number of frames that `alloc` can still hand out.
    pub open spec fn available(&self) -> int {
        self.range_end() - self.next_free() + self.recycled_stack().len()
    }

    /// The allocator's invariant: the recycled stack holds distinct page
    /// numbers below the forward range, and that range is neither inverted
    /// nor beyond the 44 bits of a physical page number.
    pub open spec fn wf(&self) -> bool {
        &&& self.next_free() <= self.range_end()
        &&& self.range_end() <= PPN_MASK + 1
        &&& self.recycled_stack().no_duplicates()
        &&& forall|i: int|
            0 <= i < self.recycled_stack().len() ==> #[trigger] self.recycled_stack()[i]
                < self.next_free()
    }

    /// An allocator with an empty range.
    pub fn new() -> (r: Self)
        ensures
            r.wf(),
            r.next_free() == 0,
            r.range_end() == 0,
            r.recycled_stack().len() == 0,
    {
        StackFrameAllocator { current: 0, end: 0, recycled: Vec::new() }
    }

    /// Sets the forward range to `[l, r)`.
    pub fn init(&mut self, l: PhysPageNum, r: PhysPageNum)
        requires
            l.0 <= r.0,
            r.0 <= PPN_MASK + 1,
            old(self).recycled_stack().len() == 0,
        ensures
            final(self).wf(),
            final(self).next_free() == l.0,
            final(self).range_end() == r.0,
            final(self).recycled_stack().len() == 0,
    {
        self.current = l.0;
        self.end = r.0;
    }

    /// Number of frames that `allocate` can still hand out, saturated at
    /// the largest `u64`.
    pub fn available_frames(&self) -> (r: u64)
        requires
            self.wf(),
        ensures
            self.available() <= u64::MAX ==> r == self.available(),
    {
        (self.end - self.current).saturating_add(self.recycled.len() as u64)
    }

    /// Hands out a frame: the top of the recycled stack when there is one,
    /// otherwise the next page of the forward range; `None` when both are
    /// exhausted.
    pub fn allocate(&mut self) -> (r: Option<PhysPageNum>)
        requires
            old(self).wf(),
        ensures
            final(self).wf(),
            final(self).range_end() == old(self).range_end(),
            r is None <==> old(self).available() == 0,
            r is None ==> final(self).next_free() == old(self).next_free()
                && final(self).recycled_stack() == old(self).recycled_stack(),
            old(self).recycled_stack().len() > 0 ==> r == Some(
                PhysPageNum(old(self).recycled_stack().last()),
            ) && final(self).recycled_stack() == old(self).recycled_stack().drop_last()
                && final(self).next_free() == old(self).next_free(),
            old(self).recycled_stack().len() == 0 && old(self).available() > 0 ==> r == Some(
                PhysPageNum(old(self).next_free()),
            ) && final(self).next_free() == old(self).next_free() + 1
                && final(self).recycled_stack() == old(self).recycled_stack(),
            r matches Some(p) ==> !old(self).in_use().contains(p.0) && final(self).in_use()
                == old(self).in_use().insert(p.0),
            r is Some ==> final(self).available() == old(self).available() - 1,
            r matches Some(p) ==> p.0 < old(self).range_end(),
    {
        if let Some(ppn) = self.recycled.pop() {
            proof {
                let o = old(self).recycled@;
                assert(self.recycled@ == o.drop_last());
                assert(o[o.len() - 1] == ppn);
                assert(self.recycled@.no_duplicates()) by {
                    assert forall|i: int, j: int|
                        0 <= i < j < self.recycled@.len() implies self.recycled@[i]
                        != self.recycled@[j] by {
                        assert(self.recycled@[i] == o[i] && self.recycled@[j] == o[j]);
                    }
                }
                assert forall|i: int| 0 <= i < self.recycled@.len() implies #[trigger] self.recycled@[i]
                    < self.current by {
                    assert(self.recycled@[i] == o[i]);
                }
                assert(!o.drop_last().contains(ppn)) by {
                    if o.drop_last().contains(ppn) {
                        let i = choose|i: int| 0 <= i < o.drop_last().len() && o.drop_last()[i] == ppn;
                        assert(o[i] == o[o.len() - 1]);
                    }
                }
                assert(self.in_use() =~= old(self).in_use().insert(ppn)) by {
                    assert forall|p: u64| #[trigger] self.in_use().contains(p) == old(self).in_use().insert(ppn).contains(p) by {
                        if p != ppn {
                            if o.contains(p) {
                                let i = choose|i: int| 0 <= i < o.len() && o[i] == p;
                                assert(i < o.len() - 1);
                                assert(o.drop_last()[i] == p);
                            }
                            if o.drop_last().contains(p) {
                                let i = choose|i: int| 0 <= i < o.drop_last().len() && o.drop_last()[i] == p;
                                assert(o[i] == p);
                            }
                        } else {
                            assert(o.contains(ppn)) by { assert(o[o.len() - 1] == ppn); }
                            assert(ppn < self.current) by { assert(o[o.len() - 1] < self.current); }
                        }
                    }
                }
            }
            Some(PhysPageNum(ppn))
        } else if self.current == self.end {
            assert(self.recycled@ =~= old(self).recycled@);
            None
        } else {
            let ppn = self.current;
            self.current = self.current + 1;
            proof {
                assert(!old(self).recycled@.contains(ppn));
                assert(self.in_use() =~= old(self).in_use().insert(ppn));
            }
            Some(PhysPageNum(ppn))
        }
    }

    /// Takes back a frame that is in use.
    pub fn dealloc(&mut self, ppn: PhysPageNum)
        requires
            old(self).wf(),
            old(self).in_use().contains(ppn.0),
        ensures
            final(self).wf(),
            final(self).next_free() == old(self).next_free(),
            final(self).range_end() == old(self).range_end(),
            final(self).recycled_stack() == old(self).recycled_stack().push(ppn.0),
            final(self).in_use() == old(self).in_use().remove(ppn.0),
            final(self).available() == old(self).available() + 1,
    {
        self.recycled.push(ppn.0);
        proof {
            let o = old(self).recycled@;
            let n = self.recycled@;
            assert(n == o.push(ppn.0));
            assert forall|i: int, j: int| 0 <= i < j < n.len() implies n[i] != n[j] by {
                if j == n.len() - 1 {
                    assert(n[i] == o[i]);
                    assert(o.contains(o[i]));
                }
            }
            assert forall|i: int| 0 <= i < n.len() implies #[trigger] n[i] < self.current by {
                if i < o.len() {
                    assert(n[i] == o[i]);
                }
            }
            assert(self.in_use() =~= old(self).in_use().remove(ppn.0)) by {
                assert forall|p: u64| #[trigger] self.in_use().contains(p) == old(self).in_use().remove(ppn.0).contains(p) by {
                    if p != ppn.0 {
                        if n.contains(p) {
                            let i = choose|i: int| 0 <= i < n.len() && n[i] == p;
                            assert(i < o.len());
                            assert(o[i] == p);
                        }
                        if o.contains(p) {
                            let i = choose|i: int| 0 <= i < o.len() && o[i] == p;
                            assert(n[i] == p);
                        }
                    } else {
                        assert(n[n.len() - 1] == p);
                    }
                }
            }
        }
    }
}

/// The handle of an allocated frame, owning the frame's contents.
pub struct FrameTracker {
    ppn: PhysPageNum,
    bytes: Vec<u8>,
}

impl FrameTracker {
    /// The frame's page number.
    pub closed spec fn frame_ppn(&self) -> PhysPageNum {
        self.ppn
    }

    /// The frame's page number.
    pub fn ppn(&self) -> (r: PhysPageNum)
        ensures
            r == self.frame_ppn(),
    {
        self.ppn
    }

    /// The frame's contents.
    pub closed spec fn contents(&self) -> Seq<u8> {
        self.bytes@
    }

    /// A frame holds exactly one page.
    pub open spec fn wf(&self) -> bool {
        self.contents().len() == PAGE_SIZE
    }

    /// Wraps a freshly allocated frame, zeroing it.
    fn new(ppn: PhysPageNum) -> (r: Self)
        ensures
            r.wf(),
            r.frame_ppn() == ppn,
            r.contents() == Seq::new(PAGE_SIZE as nat, |i: int| 0u8),
    {
        let bytes: Vec<u8> = vec![0u8; PAGE_SIZE as usize];
        proof {
            assert forall|i: int| 0 <= i < bytes@.len() implies bytes@[i] == 0u8 by {
                assert(cloned(0u8, bytes@[i]));
            }
            assert(bytes@ =~= Seq::new(PAGE_SIZE as nat, |i: int| 0u8));
        }
        FrameTracker { ppn, bytes }
    }

    /// The frame's contents.
    pub fn get_bytes_array(&self) -> (r: &[u8])
        ensures
            r@ == self.contents(),
    {
        self.bytes.as_slice()
    }

    /// Reads byte `i` of the frame.
    pub fn read_byte(&self, i: usize) -> (r: u8)
        requires
            i < self.contents().len(),
        ensures
            r == self.contents()[i as int],
    {
        self.bytes[i]
    }

    /// Writes byte `i` of the frame.
    pub fn write_byte(&mut self, i: usize, b: u8)
        requires
            i < old(self).contents().len(),
        ensures
            final(self).frame_ppn() == old(self).frame_ppn(),
            final(self).contents() == old(self).contents().update(i as int, b),
    {
        self.bytes.set(i, b);
    }
}

/// Allocates a frame and hands it out zeroed; `None` when the allocator is
/// exhausted.
pub fn frame_alloc(allocator: &mut StackFrameAllocator) -> (r: Option<FrameTracker>)
    requires
        old(allocator).wf(),
    ensures
        final(allocator).wf(),
        final(allocator).range_end() == old(allocator).range_end(),
        r is None <==> old(allocator).available() == 0,
        r is None ==> final(allocator).in_use() == old(allocator).in_use()
            && final(allocator).available() == 0,
        r matches Some(f) ==> {
            &&& f.wf()
            &&& f.contents() == Seq::new(PAGE_SIZE as nat, |i: int| 0u8)
            &&& !old(allocator).in_use().contains(f.frame_ppn().0)
            &&& final(allocator).in_use() == old(allocator).in_use().insert(f.frame_ppn().0)
            &&& final(allocator).available() == old(allocator).available() - 1
            &&& f.frame_ppn().0 <= PPN_MASK
        },
{
    match allocator.allocate() {
        Some(ppn) => Some(FrameTracker::new(ppn)),
        None => None,
    }
}

/// Hands a frame back to the allocator.
pub fn frame_dealloc(allocator: &mut StackFrameAllocator, frame: FrameTracker)
    requires
        old(allocator).wf(),
        old(allocator).in_use().contains(frame.frame_ppn().0),
    ensures
        final(allocator).wf(),
        final(allocator).range_end() == old(allocator).range_end(),
        final(allocator).in_use() == old(allocator).in_use().remove(frame.frame_ppn().0),
        final(allocator).available() == old(allocator).available() + 1,
        final(allocator).next_free() == old(allocator).next_free(),
        final(allocator).recycled_stack() == old(allocator).recycled_stack().push(frame.frame_ppn().0),
{
    allocator.dealloc(frame.ppn);
}

/// Gives the allocator the frames from the first page after the kernel's
/// end, `ekernel`, up to the end of memory.
pub fn init_frame_allocator(allocator: &mut StackFrameAllocator, ekernel: u64)
    requires
        old(allocator).recycled_stack().len() == 0,
        page_ceil((ekernel & PA_MASK) as int) <= MEMORY_END / PAGE_SIZE,
    ensures
        final(allocator).wf(),
        final(allocator).next_free() == page_ceil((ekernel & PA_MASK) as int),
        final(allocator).range_end() == MEMORY_END / PAGE_SIZE,
        final(allocator).recycled_stack().len() == 0,
{
    let l = PhysAddr::from(ekernel).ceil();
    let r = PhysAddr::from(MEMORY_END).floor();
    proof {
        assert(0x80800000u64 & 0x00ff_ffff_ffff_ffffu64 == 0x80800000u64) by (bit_vector);
    }
    allocator.init(l, r);
}

/// Page numbers of a sequence of frames.
pub open spec fn frame_ppns(s: Seq<FrameTracker>) -> Set<u64> {
    Set::new(|p: u64| exists|i: int| 0 <= i < s.len() && #[trigger] s[i].frame_ppn().0 == p)
}

/// Whether no two frames of `s` are the same page.
pub open spec fn distinct_frames(s: Seq<FrameTracker>) -> bool {
    forall|i: int, j: int|
        0 <= i < s.len() && 0 <= j < s.len() && i != j ==> (#[trigger] s[i]).frame_ppn() != (
        #[trigger] s[j]).frame_ppn()
}

/// Hands every frame of `frames` back to the allocator.
pub fn release_frames(allocator: &mut StackFrameAllocator, frames: Vec<FrameTracker>)
    requires
        old(allocator).wf(),
        distinct_frames(frames@),
        frame_ppns(frames@).subset_of(old(allocator).in_use()),
    ensures
        final(allocator).wf(),
        final(allocator).range_end() == old(allocator).range_end(),
        final(allocator).in_use() == old(allocator).in_use().difference(frame_ppns(frames@)),
{
    let ghost orig = frames@;
    let ghost a0 = *allocator;
    let mut frames = frames;
    proof {
        assert(frame_ppns(orig.subrange(orig.len() as int, orig.len() as int)) =~= Set::<u64>::empty());
        assert(a0.in_use().difference(Set::<u64>::empty()) =~= a0.in_use());
    }
    while frames.len() > 0
        invariant
            distinct_frames(orig),
            frame_ppns(orig).subset_of(a0.in_use()),
            frames@ == orig.subrange(0, frames@.len() as int),
            frames@.len() <= orig.len(),
            allocator.wf(),
            allocator.range_end() == a0.range_end(),
            allocator.in_use() == a0.in_use().difference(frame_ppns(orig.subrange(frames@.len() as int, orig.len() as int))),
        decreases frames@.len(),
    {
        let ghost k = frames@.len() as int;
        let f = match frames.pop() {
            Some(f) => f,
            None => return ,
        };
        proof {
            assert(f == orig[k - 1]);
            assert(frame_ppns(orig).contains(f.frame_ppn().0)) by {
                assert(orig[k - 1].frame_ppn().0 == f.frame_ppn().0);
            }
            let tail = orig.subrange(k, orig.len() as int);
            assert(!frame_ppns(tail).contains(f.frame_ppn().0)) by {
                if frame_ppns(tail).contains(f.frame_ppn().0) {
                    let i = choose|i: int| 0 <= i < tail.len() && #[trigger] tail[i].frame_ppn().0 == f.frame_ppn().0;
                    assert(orig[k + i].frame_ppn() != orig[k - 1].frame_ppn());
                }
            }
        }
        frame_dealloc(allocator, f);
        proof {
            let tail = orig.subrange(k, orig.len() as int);
            let tail2 = orig.subrange(k - 1, orig.len() as int);
            assert(frames@ =~= orig.subrange(0, k - 1));
            assert(frame_ppns(tail2) =~= frame_ppns(tail).insert(f.frame_ppn().0)) by {
                assert forall|p: u64| #[trigger] frame_ppns(tail2).contains(p) == frame_ppns(tail).insert(f.frame_ppn().0).contains(p) by {
                    if frame_ppns(tail2).contains(p) {
                        let i = choose|i: int| 0 <= i < tail2.len() && #[trigger] tail2[i].frame_ppn().0 == p;
                        if i > 0 {
                            assert(tail[i - 1] == tail2[i]);
                        }
                    }
                    if frame_ppns(tail).contains(p) {
                        let i = choose|i: int| 0 <= i < tail.len() && #[trigger] tail[i].frame_ppn().0 == p;
                        assert(tail2[i + 1] == tail[i]);
                    }
                    if p == f.frame_ppn().0 {
                        assert(tail2[0] == f);
                    }
                }
            }
            assert(allocator.in_use() =~= a0.in_use().difference(frame_ppns(tail2)));
        }
    }
    proof {
        assert(orig.subrange(0, orig.len() as int) =~= orig);
    }
}

/// A frame that `allocate` hands out and `dealloc` takes back leaves the set
/// of frames in use as it was before.
pub proof fn lemma_alloc_dealloc_keeps_in_use(
    before: &StackFrameAllocator,
    allocated: &StackFrameAllocator,
    after: &StackFrameAllocator,
    p: u64,
)
    requires
        !before.in_use().contains(p),
        allocated.in_use() == before.in_use().insert(p),
        after.in_use() == allocated.in_use().remove(p),
    ensures
        after.in_use() == before.in_use(),
{
    assert(before.in_use().insert(p).remove(p) =~= before.in_use());
}

/// No page number on the recycled stack of a well-formed allocator is in use.
pub proof fn lemma_recycled_not_in_use(a: &StackFrameAllocator, i: int)
    requires
        a.wf(),
        0 <= i < a.recycled_stack().len(),
    ensures
        !a.in_use().contains(a.recycled_stack()[i]),
        a.recycled_stack()[i] < a.next_free(),
{
    assert(a.recycled_stack().contains(a.recycled_stack()[i]));
}

} // verus!
