//! The physical-frame allocator: a bump pointer over a fixed range plus a
//! stack of recycled frames, and the RAII frame handle.

use vstd::prelude::*;

use crate::address::PhysPageNum;
use crate::page_table::PhysMem;
use crate::page_table::empty_table;

verus! {

/// Ownership handle for one allocated physical frame; creating it zeroes
/// the frame.
pub struct FrameTracker {
    /// The frame's page number.
    pub ppn: PhysPageNum,
}

impl FrameTracker {
    /// Take ownership of frame `ppn`, clearing its contents first.
    pub fn new<M: PhysMem>(ppn: PhysPageNum, mem: &mut M) -> (r: FrameTracker)
        requires
            old(mem).inv(),
            old(mem).mem().contains_key(ppn.0 as int),
        ensures
            final(mem).inv(),
            final(mem).mem() == old(mem).mem().insert(ppn.0 as int, empty_table()),
            r.ppn == ppn,
    {
        mem.clear_frame(ppn);
        FrameTracker { ppn }
    }
}

/// Stack-shaped physical frame allocator: frames `[current, end)` are
/// still untouched, `recycled` holds frames handed back for reuse.
pub struct StackFrameAllocator {
    current: usize,
    end: usize,
    recycled: Vec<usize>,
}

impl StackFrameAllocator {
    /// The bump pointer (specification only).
    pub closed spec fn spec_current(&self) -> int {
        self.current as int
    }

    /// The end of the range (specification only).
    pub closed spec fn spec_end(&self) -> int {
        self.end as int
    }

    /// The recycled frames (specification only).
    pub closed spec fn spec_recycled(&self) -> Seq<usize> {
        self.recycled@
    }

    /// Could this allocator still hand out frame `p`?
    pub open spec fn spec_possible(&self, p: int) -> bool {
        (0 <= p <= usize::MAX as int && self.spec_recycled().contains(p as usize))
            || self.spec_current() <= p < self.spec_end()
    }

    /// How many frames are still available.
    pub open spec fn spec_avail(&self) -> int {
        self.spec_recycled().len() + self.spec_end() - self.spec_current()
    }

    /// Recycled frames lie below the bump pointer and are pairwise
    /// distinct.
    pub closed spec fn wf(&self) -> bool {
        &&& self.current <= self.end
        &&& forall|i: int|
            0 <= i < self.recycled@.len() ==> (#[trigger] self.recycled@[i]) < self.current
        &&& forall|i: int, j: int|
            0 <= i < j < self.recycled@.len() ==> self.recycled@[i] != self.recycled@[j]
    }

    /// An empty allocator; `init` gives it its range.
    pub fn new() -> (r: StackFrameAllocator)
        ensures
            r.wf(),
            r.spec_avail() == 0,
            forall|p: int| !r.spec_possible(p),
    {
        let r = StackFrameAllocator { current: 0, end: 0, recycled: Vec::new() };
        proof {
            assert forall|p: int| !r.spec_possible(p) by {
                if r.spec_recycled().contains(p as usize) {
                    let i = choose|i: int|
                        0 <= i < r.spec_recycled().len() && r.spec_recycled()[i] == p as usize;
                }
            }
        }
        r
    }

    /// Hand the allocator the frame range `[l, r)`.
    pub fn init(&mut self, l: PhysPageNum, r: PhysPageNum)
        requires
            old(self).spec_recycled().len() == 0,
            l.0 <= r.0,
        ensures
            final(self).wf(),
            final(self).spec_avail() == r.0 as int - l.0 as int,
            forall|p: int| final(self).spec_possible(p) == (l.0 as int <= p < r.0 as int),
    {
        self.current = l.0;
        self.end = r.0;
        proof {
            assert forall|p: int|
                self.spec_possible(p) == (l.0 as int <= p < r.0 as int) by {
                if self.spec_recycled().contains(p as usize) {
                    let i = choose|i: int|
                        0 <= i < self.spec_recycled().len() && self.spec_recycled()[i]
                            == p as usize;
                }
            }
        }
    }

    /// Take one frame: a recycled one if any, else the bump pointer.
    pub fn alloc_frame(&mut self) -> (r: Option<PhysPageNum>)
        requires
            old(self).wf(),
        ensures
            final(self).wf(),
            match r {
                Some(p) => {
                    &&& old(self).spec_possible(p.0 as int)
                    &&& final(self).spec_avail() == old(self).spec_avail() - 1
                    &&& forall|q: int|
                        final(self).spec_possible(q) ==> old(self).spec_possible(q) && q
                            != p.0 as int
                },
                None => {
                    &&& final(self).spec_current() == old(self).spec_current()
                    &&& final(self).spec_end() == old(self).spec_end()
                    &&& final(self).spec_recycled() == old(self).spec_recycled()
                    &&& old(self).spec_avail() == 0
                    &&& forall|q: int| !old(self).spec_possible(q)
                },
            },
    {
        let popped = self.recycled.pop();
        match popped {
            Some(ppn) => {
                proof {
                    assert(old(self).spec_recycled()[old(self).spec_recycled().len() - 1] == ppn);
                    assert(old(self).spec_possible(ppn as int));
                    assert forall|q: int|
                        self.spec_possible(q) implies old(self).spec_possible(q) && q
                        != ppn as int by {
                        if self.spec_recycled().contains(q as usize) {
                            let i = choose|i: int|
                                0 <= i < self.spec_recycled().len() && self.spec_recycled()[i]
                                    == q as usize;
                            assert(old(self).spec_recycled()[i] == q as usize);
                        }
                    }
                }
                Some(PhysPageNum(ppn))
            },
            None => {
                if self.current == self.end {
                    proof {
                        assert forall|q: int| !old(self).spec_possible(q) by {
                            if old(self).spec_recycled().contains(q as usize) {
                                let i = choose|i: int|
                                    0 <= i < old(self).spec_recycled().len() && old(
                                        self,
                                    ).spec_recycled()[i] == q as usize;
                            }
                        }
                    }
                    None
                } else {
                    self.current += 1;
                    Some(PhysPageNum(self.current - 1))
                }
            },
        }
    }

    /// Give frame `ppn` back. Freeing a frame that was never handed out,
    /// or freeing one twice, is a caller error and excluded here.
    pub fn dealloc(&mut self, ppn: PhysPageNum)
        requires
            old(self).wf(),
            (ppn.0 as int) < old(self).spec_current(),
            !old(self).spec_recycled().contains(ppn.0),
            old(self).spec_recycled().len() < usize::MAX as int,
        ensures
            final(self).wf(),
            final(self).spec_avail() == old(self).spec_avail() + 1,
            forall|q: int|
                final(self).spec_possible(q) == (old(self).spec_possible(q) || q == ppn.0 as int),
    {
        self.recycled.push(ppn.0);
        proof {
            assert forall|q: int|
                self.spec_possible(q) == (old(self).spec_possible(q) || q == ppn.0 as int) by {
                if self.spec_recycled().contains(q as usize) {
                    let i = choose|i: int|
                        0 <= i < self.spec_recycled().len() && self.spec_recycled()[i]
                            == q as usize;
                    if i < old(self).spec_recycled().len() {
                        assert(old(self).spec_recycled()[i] == q as usize);
                    }
                }
                if old(self).spec_possible(q) {
                    if old(self).spec_recycled().contains(q as usize) {
                        let i = choose|i: int|
                            0 <= i < old(self).spec_recycled().len() && old(self).spec_recycled()[i]
                                == q as usize;
                        assert(self.spec_recycled()[i] == q as usize);
                    }
                }
                if q == ppn.0 as int {
                    assert(self.spec_recycled()[self.spec_recycled().len() - 1] == ppn.0);
                }
            }
        }
    }
}

/// Allocate one frame from `alloc_` and take ownership of it, clearing
/// its contents.
pub fn frame_alloc<M: PhysMem>(alloc_: &mut StackFrameAllocator, mem: &mut M) -> (r: Option<
    FrameTracker,
>)
    requires
        old(alloc_).wf(),
        old(mem).inv(),
        forall|p: int|
            old(alloc_).spec_possible(p) ==> old(mem).mem().contains_key(p),
    ensures
        final(alloc_).wf(),
        final(mem).inv(),
        match r {
            Some(f) => {
                &&& old(alloc_).spec_possible(f.ppn.0 as int)
                &&& final(alloc_).spec_avail() == old(alloc_).spec_avail() - 1
                &&& forall|q: int|
                    final(alloc_).spec_possible(q) ==> old(alloc_).spec_possible(q) && q
                        != f.ppn.0 as int
                &&& final(mem).mem() == old(mem).mem().insert(f.ppn.0 as int, empty_table())
            },
            None => {
                &&& final(alloc_).spec_current() == old(alloc_).spec_current()
                &&& final(alloc_).spec_end() == old(alloc_).spec_end()
                &&& final(alloc_).spec_recycled() == old(alloc_).spec_recycled()
                &&& final(mem).mem() == old(mem).mem()
                &&& old(alloc_).spec_avail() == 0
            },
        },
{
    let got = alloc_.alloc_frame();
    match got {
        Some(ppn) => Some(FrameTracker::new(ppn, mem)),
        None => None,
    }
}

/// Give the frame behind a spent tracker back to the allocator.
pub fn frame_dealloc(alloc_: &mut StackFrameAllocator, tracker: FrameTracker)
    requires
        old(alloc_).wf(),
        (tracker.ppn.0 as int) < old(alloc_).spec_current(),
        !old(alloc_).spec_recycled().contains(tracker.ppn.0),
        old(alloc_).spec_recycled().len() < usize::MAX as int,
    ensures
        final(alloc_).wf(),
        final(alloc_).spec_avail() == old(alloc_).spec_avail() + 1,
        forall|q: int|
            final(alloc_).spec_possible(q) == (old(alloc_).spec_possible(q) || q
                == tracker.ppn.0 as int),
{
    alloc_.dealloc(tracker.ppn);
}

} // verus!
