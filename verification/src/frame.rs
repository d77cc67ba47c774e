//! Physical frame allocation and exclusive frame ownership.
//!
//! A frame allocator owns one contiguous physical region and hands out and
//! reclaims single frames. Its central law: a page handed out by
//! `allocate_frame` is never handed out again until it has been passed to
//! `deallocate_frame` exactly once in between. The `taken` set of the
//! `FrameAllocator` trait records the pages currently out, and every
//! operation's contract is stated over it.
use vstd::prelude::*;

use crate::addr::PhysPageNum;

verus! {

/// The allocator has run out of frames.
#[derive(Copy, Clone, PartialEq, Eq, Structural, Debug)]
pub struct FrameAllocError;

/// A requested frame layout cannot be satisfied.
#[derive(Copy, Clone, PartialEq, Eq, Structural, Debug)]
pub struct FrameLayoutError;

/// A source of physical frames. One instance serves every core attached
/// to the same physical region; passing it by exclusive reference stands
/// for the caller's short critical section around each call.
pub trait FrameAllocator: Sized {
    /// The allocator's state is meaningful.
    spec fn inv(&self) -> bool;

    /// The pages currently handed out and not yet returned.
    spec fn taken(&self) -> Set<int>;

    /// Whether the next allocation will succeed.
    spec fn can_allocate(&self) -> bool;

    /// Hand out a page that is not currently out; fail exactly when the
    /// pool is exhausted, changing nothing.
    fn allocate_frame(&mut self) -> (r: Result<PhysPageNum, FrameAllocError>)
        requires
            old(self).inv(),
        ensures
            final(self).inv(),
            match r {
                Ok(p) => old(self).can_allocate() && !old(self).taken().contains(p.0 as int)
                    && final(self).taken() == old(self).taken().insert(p.0 as int),
                Err(_) => !old(self).can_allocate() && final(self).taken() == old(self).taken()
                    && final(self).can_allocate() == old(self).can_allocate(),
            },
    ;

    /// Take back a page that is currently out.
    fn deallocate_frame(&mut self, ppn: PhysPageNum)
        requires
            old(self).inv(),
            old(self).taken().contains(ppn.0 as int),
        ensures
            final(self).inv(),
            final(self).taken() == old(self).taken().remove(ppn.0 as int),
    ;
}

/// A stack-discipline frame allocator over one contiguous physical
/// region: a watermark advances through the untouched part of the region,
/// and returned pages wait on a recycled stack, which is preferred.
#[derive(Debug)]
pub struct StackFrameAllocator {
    pub current: PhysPageNum,
    pub end: PhysPageNum,
    pub recycled: Vec<PhysPageNum>,
}

impl StackFrameAllocator {
    /// Whether `p` is on the recycled stack.
    pub open spec fn in_recycled(self, p: int) -> bool {
        exists|i: int| 0 <= i < self.recycled@.len() && self.recycled@[i].0 == p
    }

    /// The watermark has not passed the end, no recycled page lies in the
    /// untouched region, and no page is recycled twice.
    pub open spec fn wf(self) -> bool {
        &&& self.current.0 <= self.end.0
        &&& forall|i: int|
            0 <= i < self.recycled@.len() ==> !(self.current.0 <= (
            #[trigger] self.recycled@[i]).0 < self.end.0)
        &&& forall|i: int, j: int|
            0 <= i < j < self.recycled@.len() ==> self.recycled@[i] != self.recycled@[j]
    }

    /// The pages considered handed out: everything that is neither in the
    /// untouched region nor on the recycled stack.
    pub open spec fn spec_taken(self) -> Set<int> {
        Set::new(|p: int| !(self.current.0 <= p < self.end.0) && !self.in_recycled(p))
    }

    /// A fresh allocator over the physical pages `[start, end)`.
    pub fn new(start: PhysPageNum, end: PhysPageNum) -> (r: StackFrameAllocator)
        requires
            start.0 <= end.0,
        ensures
            r.wf(),
            r.current == start,
            r.end == end,
            r.recycled@ =~= Seq::<PhysPageNum>::empty(),
            forall|p: int| r.spec_taken().contains(p) <==> !(start.0 <= p < end.0),
    {
        StackFrameAllocator { current: start, end, recycled: Vec::new() }
    }

    /// The next unused page: a previously recycled page if one exists,
    /// else the watermark, which then advances; out of memory when the
    /// watermark has reached the region's end and nothing is recycled.
    pub fn allocate_frame(&mut self) -> (r: Result<PhysPageNum, FrameAllocError>)
        requires
            old(self).wf(),
        ensures
            final(self).wf(),
            final(self).end == old(self).end,
            old(self).recycled@.len() > 0 ==> r == Ok::<PhysPageNum, FrameAllocError>(
                old(self).recycled@.last(),
            ) && final(self).recycled@ =~= old(self).recycled@.drop_last() && final(self).current
                == old(self).current,
            old(self).recycled@.len() == 0 && old(self).current.0 == old(self).end.0 ==> r == Err::<
                PhysPageNum,
                FrameAllocError,
            >(FrameAllocError) && final(self).current == old(self).current
                && final(self).recycled@ =~= old(self).recycled@,
            old(self).recycled@.len() == 0 && old(self).current.0 < old(self).end.0 ==> r == Ok::<
                PhysPageNum,
                FrameAllocError,
            >(old(self).current) && final(self).current.0 == old(self).current.0 + 1
                && final(self).recycled@ =~= old(self).recycled@,
    {
        if let Some(ppn) = self.recycled.pop() {
            Ok(ppn)
        } else {
            if self.current == self.end {
                Err(FrameAllocError)
            } else {
                let ans = self.current;
                self.current = self.current.next_page();
                Ok(ans)
            }
        }
    }

    /// Return `ppn` to the allocator. Deallocating a page that is still
    /// in the untouched region, or that is already recycled, is a caller
    /// contract violation and is excluded here; `try_deallocate_frame`
    /// performs that check at run time.
    pub fn deallocate_frame(&mut self, ppn: PhysPageNum)
        requires
            old(self).wf(),
            !(old(self).current.0 <= ppn.0 < old(self).end.0),
            !old(self).in_recycled(ppn.0 as int),
        ensures
            final(self).wf(),
            final(self).current == old(self).current,
            final(self).end == old(self).end,
            final(self).recycled@ =~= old(self).recycled@.push(ppn),
    {
        self.recycled.push(ppn);
    }

    /// Whether `ppn` is on the recycled stack.
    fn recycled_contains(&self, ppn: PhysPageNum) -> (r: bool)
        ensures
            r == self.in_recycled(ppn.0 as int),
    {
        let n = self.recycled.len();
        let mut k: usize = 0;
        while k < n
            invariant
                k <= n,
                n == self.recycled@.len(),
                forall|i: int| 0 <= i < k ==> self.recycled@[i].0 != ppn.0,
            decreases n - k,
        {
            if self.recycled[k].0 == ppn.0 {
                return true;
            }
            k = k + 1;
        }
        false
    }

    /// The run-time form of the deallocation contract: recycle `ppn` and
    /// report true, or report false and change nothing when `ppn` is
    /// still in the untouched region or already recycled — such a page
    /// has not been allocated, and taking it back must never silently
    /// succeed. The check is as strong as the allocator's state allows:
    /// the state is the watermark, the end bound and the recycled stack,
    /// so a page below the region's original start cannot be told apart
    /// from an allocated one.
    pub fn try_deallocate_frame(&mut self, ppn: PhysPageNum) -> (r: bool)
        requires
            old(self).wf(),
        ensures
            final(self).wf(),
            r == (!(old(self).current.0 <= ppn.0 < old(self).end.0) && !old(self).in_recycled(
                ppn.0 as int,
            )),
            r ==> final(self).recycled@ =~= old(self).recycled@.push(ppn) && final(self).current
                == old(self).current && final(self).end == old(self).end,
            !r ==> final(self).current == old(self).current && final(self).end == old(self).end
                && final(self).recycled@ =~= old(self).recycled@,
    {
        if ppn.is_within_range(self.current, self.end) || self.recycled_contains(ppn) {
            false
        } else {
            self.deallocate_frame(ppn);
            true
        }
    }
}

impl FrameAllocator for StackFrameAllocator {
    open spec fn inv(&self) -> bool {
        self.wf()
    }

    open spec fn taken(&self) -> Set<int> {
        self.spec_taken()
    }

    open spec fn can_allocate(&self) -> bool {
        self.recycled@.len() > 0 || self.current.0 < self.end.0
    }

    fn allocate_frame(&mut self) -> (r: Result<PhysPageNum, FrameAllocError>) {
        let ghost prev = *self;
        let r = StackFrameAllocator::allocate_frame(self);
        proof {
            if prev.recycled@.len() > 0 {
                let p = prev.recycled@.last();
                assert(prev.in_recycled(p.0 as int)) by {
                    assert(prev.recycled@[prev.recycled@.len() - 1].0 == p.0);
                }
                assert forall|q: int|
                    self.spec_taken().contains(q) == prev.spec_taken().insert(
                        p.0 as int,
                    ).contains(q) by {
                    if q == p.0 as int {
                        if self.in_recycled(q) {
                            let i = choose|i: int|
                                0 <= i < self.recycled@.len() && self.recycled@[i].0 == q;
                            assert(prev.recycled@[i] == prev.recycled@[prev.recycled@.len() - 1]);
                            assert(false);
                        }
                    } else {
                        if prev.in_recycled(q) {
                            let i = choose|i: int|
                                0 <= i < prev.recycled@.len() && prev.recycled@[i].0 == q;
                            assert(i != prev.recycled@.len() - 1);
                            assert(self.recycled@[i].0 == q);
                            assert(self.in_recycled(q));
                        }
                        if self.in_recycled(q) {
                            let i = choose|i: int|
                                0 <= i < self.recycled@.len() && self.recycled@[i].0 == q;
                            assert(prev.recycled@[i].0 == q);
                            assert(prev.in_recycled(q));
                        }
                    }
                }
                assert(self.spec_taken() =~= prev.spec_taken().insert(p.0 as int));
            } else if prev.current.0 < prev.end.0 {
                let c = prev.current.0 as int;
                assert(!prev.in_recycled(c)) by {
                    if prev.in_recycled(c) {
                        let i = choose|i: int|
                            0 <= i < prev.recycled@.len() && prev.recycled@[i].0 == c;
                        assert(!(prev.current.0 <= prev.recycled@[i].0 < prev.end.0));
                        assert(false);
                    }
                }
                assert forall|q: int|
                    self.spec_taken().contains(q) == prev.spec_taken().insert(c).contains(q) by {
                    if prev.in_recycled(q) {
                        let i = choose|i: int|
                            0 <= i < prev.recycled@.len() && prev.recycled@[i].0 == q;
                        assert(self.recycled@[i].0 == q);
                        assert(self.in_recycled(q));
                    }
                    if self.in_recycled(q) {
                        let i = choose|i: int|
                            0 <= i < self.recycled@.len() && self.recycled@[i].0 == q;
                        assert(prev.recycled@[i].0 == q);
                        assert(prev.in_recycled(q));
                    }
                }
                assert(self.spec_taken() =~= prev.spec_taken().insert(c));
            } else {
                assert(self.spec_taken() =~= prev.spec_taken());
            }
        }
        r
    }

    fn deallocate_frame(&mut self, ppn: PhysPageNum) {
        let ghost prev = *self;
        StackFrameAllocator::deallocate_frame(self, ppn);
        proof {
            let p = ppn.0 as int;
            assert forall|q: int|
                self.spec_taken().contains(q) == prev.spec_taken().remove(p).contains(q) by {
                if q == p {
                    assert(self.recycled@[self.recycled@.len() - 1].0 == q);
                    assert(self.in_recycled(q));
                } else {
                    if prev.in_recycled(q) {
                        let i = choose|i: int|
                            0 <= i < prev.recycled@.len() && prev.recycled@[i].0 == q;
                        assert(self.recycled@[i].0 == q);
                        assert(self.in_recycled(q));
                    }
                    if self.in_recycled(q) {
                        let i = choose|i: int|
                            0 <= i < self.recycled@.len() && self.recycled@[i].0 == q;
                        assert(i != self.recycled@.len() - 1);
                        assert(prev.recycled@[i].0 == q);
                        assert(prev.in_recycled(q));
                    }
                }
            }
            assert(self.spec_taken() =~= prev.spec_taken().remove(p));
        }
    }
}

/// Exclusive ownership of one allocated physical frame. Exactly one
/// `FrameBox` exists per live frame; releasing it is the only path by
/// which the frame re-enters the free pool.
#[derive(Debug)]
pub struct FrameBox {
    pub ppn: PhysPageNum,
}

impl FrameBox {
    /// Allocate one frame from `frame_alloc` and bind it; on failure the
    /// allocator's error is propagated and no frame is created.
    pub fn try_new_in<A: FrameAllocator>(frame_alloc: &mut A) -> (r: Result<
        FrameBox,
        FrameAllocError,
    >)
        requires
            old(frame_alloc).inv(),
        ensures
            final(frame_alloc).inv(),
            match r {
                Ok(b) => old(frame_alloc).can_allocate() && !old(frame_alloc).taken().contains(
                    b.ppn.0 as int,
                ) && final(frame_alloc).taken() == old(frame_alloc).taken().insert(b.ppn.0 as int),
                Err(_) => !old(frame_alloc).can_allocate() && final(frame_alloc).taken() == old(
                    frame_alloc,
                ).taken() && final(frame_alloc).can_allocate() == old(frame_alloc).can_allocate(),
            },
    {
        match frame_alloc.allocate_frame() {
            Ok(ppn) => Ok(FrameBox { ppn }),
            Err(e) => Err(e),
        }
    }

    /// The page number of the owned frame.
    pub fn phys_page_num(&self) -> (r: PhysPageNum)
        ensures
            r == self.ppn,
    {
        self.ppn
    }

    /// Return the owned frame to its allocator; consuming the box makes
    /// this the frame's single release.
    pub fn release<A: FrameAllocator>(self, frame_alloc: &mut A)
        requires
            old(frame_alloc).inv(),
            old(frame_alloc).taken().contains(self.ppn.0 as int),
        ensures
            final(frame_alloc).inv(),
            final(frame_alloc).taken() == old(frame_alloc).taken().remove(self.ppn.0 as int),
    {
        frame_alloc.deallocate_frame(self.ppn);
    }
}

} // verus!
