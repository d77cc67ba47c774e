//! Address-space-identifier allocation.
//!
//! An ASID is the hardware tag that lets the translation cache keep
//! entries of several address spaces at once. Tag 0 is the reserved
//! default and the architecture requires it to exist, so the first
//! allocation always succeeds. One allocator lives on each processor
//! core. The real maximum tag is probed from hardware at startup and
//! handed in to `new`; a machine without the tag field probes maximum 0,
//! and then only the single default tag can ever be allocated.
use vstd::prelude::*;

verus! {

/// A hardware address-space tag.
#[derive(Copy, Clone, PartialEq, Eq, Structural, Debug)]
pub struct AddressSpaceId(pub u16);

impl AddressSpaceId {
    /// The tag after this one, or `None` when no tag below `max_asid`
    /// remains.
    pub fn next_asid(&self, max_asid: AddressSpaceId) -> (r: Option<AddressSpaceId>)
        ensures
            self.0 >= max_asid.0 ==> r is None,
            self.0 < max_asid.0 ==> r == Some(AddressSpaceId((self.0 + 1) as u16)),
    {
        if self.0 >= max_asid.0 {
            None
        } else {
            Some(AddressSpaceId(self.0 + 1))
        }
    }
}

/// The tag space is exhausted.
#[derive(Copy, Clone, PartialEq, Eq, Structural, Debug)]
pub struct AsidAllocError;

/// A stack-discipline allocator for address-space tags: a watermark walks
/// from the reserved default tag 0 up to the probed maximum, recycled
/// tags are preferred, and once the maximum has been handed out the
/// allocator is exhausted and lives off recycled tags alone.
#[derive(Debug)]
pub struct StackAsidAllocator {
    pub current: AddressSpaceId,
    pub exhausted: bool,
    pub max: AddressSpaceId,
    pub recycled: Vec<AddressSpaceId>,
}

impl StackAsidAllocator {
    /// Whether tag `a` is on the recycled stack.
    pub open spec fn in_recycled(self, a: int) -> bool {
        exists|i: int| 0 <= i < self.recycled@.len() && self.recycled@[i].0 == a
    }

    /// The watermark never passes the maximum, recycled tags lie within
    /// the valid range, and no tag is recycled twice.
    pub open spec fn wf(self) -> bool {
        &&& self.current.0 <= self.max.0
        &&& forall|i: int|
            0 <= i < self.recycled@.len() ==> (#[trigger] self.recycled@[i]).0 <= self.max.0
        &&& forall|i: int, j: int|
            0 <= i < j < self.recycled@.len() ==> self.recycled@[i] != self.recycled@[j]
    }

    /// A fresh allocator for the tags `0 ..= max_asid`, starting at the
    /// reserved default tag.
    pub fn new(max_asid: AddressSpaceId) -> (r: StackAsidAllocator)
        ensures
            r.wf(),
            r.current.0 == 0,
            r.exhausted == false,
            r.max == max_asid,
            r.recycled@ =~= Seq::<AddressSpaceId>::empty(),
    {
        StackAsidAllocator {
            current: AddressSpaceId(0),
            exhausted: false,
            max: max_asid,
            recycled: Vec::new(),
        }
    }

    /// The next free tag: a recycled tag if one exists; else the
    /// watermark, which advances, with the maximum handed out exactly
    /// once before the allocator flips to exhausted; else failure.
    pub fn allocate_asid(&mut self) -> (r: Result<AddressSpaceId, AsidAllocError>)
        requires
            old(self).wf(),
        ensures
            final(self).wf(),
            final(self).max == old(self).max,
            old(self).recycled@.len() > 0 ==> r == Ok::<AddressSpaceId, AsidAllocError>(
                old(self).recycled@.last(),
            ) && final(self).recycled@ =~= old(self).recycled@.drop_last() && final(self).current
                == old(self).current && final(self).exhausted == old(self).exhausted,
            old(self).recycled@.len() == 0 && old(self).exhausted ==> r == Err::<
                AddressSpaceId,
                AsidAllocError,
            >(AsidAllocError) && final(self).current == old(self).current && final(self).exhausted
                && final(self).recycled@ =~= old(self).recycled@,
            old(self).recycled@.len() == 0 && !old(self).exhausted && old(self).current.0 == old(self).max.0 ==> r == Ok::<AddressSpaceId, AsidAllocError>(old(self).max) && final(self).exhausted && final(self).current == old(self).current && final(self).recycled@
                =~= old(self).recycled@,
            old(self).recycled@.len() == 0 && !old(self).exhausted && old(self).current.0 < old(self).max.0 ==> r == Ok::<AddressSpaceId, AsidAllocError>(old(self).current) && !final(self).exhausted && final(self).current.0 == old(self).current.0 + 1 && final(self).recycled@
                =~= old(self).recycled@,
    {
        if let Some(asid) = self.recycled.pop() {
            return Ok(asid);
        }
        if self.exhausted {
            return Err(AsidAllocError);
        }
        if self.current == self.max {
            self.exhausted = true;
            return Ok(self.max);
        }
        if let Some(next) = self.current.next_asid(self.max) {
            let ans = self.current;
            self.current = next;
            Ok(ans)
        } else {
            Err(AsidAllocError)
        }
    }

    /// Return tag `asid` to the allocator. The valid range is
    /// `0 ..= max`: the maximum is allocatable, so handing it back must
    /// be accepted. A tag above the maximum, or one already recycled, is
    /// a caller contract violation and is excluded here;
    /// `try_deallocate_asid` performs that check at run time.
    pub fn deallocate_asid(&mut self, asid: AddressSpaceId)
        requires
            old(self).wf(),
            asid.0 <= old(self).max.0,
            !old(self).in_recycled(asid.0 as int),
        ensures
            final(self).wf(),
            final(self).current == old(self).current,
            final(self).exhausted == old(self).exhausted,
            final(self).max == old(self).max,
            final(self).recycled@ =~= old(self).recycled@.push(asid),
    {
        self.recycled.push(asid);
    }

    /// Whether `asid` is on the recycled stack.
    fn recycled_contains(&self, asid: AddressSpaceId) -> (r: bool)
        ensures
            r == self.in_recycled(asid.0 as int),
    {
        let n = self.recycled.len();
        let mut k: usize = 0;
        while k < n
            invariant
                k <= n,
                n == self.recycled@.len(),
                forall|i: int| 0 <= i < k ==> self.recycled@[i].0 != asid.0,
            decreases n - k,
        {
            if self.recycled[k].0 == asid.0 {
                return true;
            }
            k = k + 1;
        }
        false
    }

    /// The run-time form of the deallocation contract: recycle `asid`
    /// and report true, or report false and change nothing when the tag
    /// is above the maximum or already recycled — such a misuse must
    /// never silently succeed.
    pub fn try_deallocate_asid(&mut self, asid: AddressSpaceId) -> (r: bool)
        requires
            old(self).wf(),
        ensures
            final(self).wf(),
            r == (asid.0 <= old(self).max.0 && !old(self).in_recycled(asid.0 as int)),
            r ==> final(self).recycled@ =~= old(self).recycled@.push(asid) && final(self).current
                == old(self).current && final(self).exhausted == old(self).exhausted && final(self).max == old(self).max,
            !r ==> final(self).current == old(self).current && final(self).exhausted == old(self).exhausted && final(self).max == old(self).max && final(self).recycled@ =~= old(self).recycled@,
    {
        if asid.0 > self.max.0 || self.recycled_contains(asid) {
            false
        } else {
            self.deallocate_asid(asid);
            true
        }
    }
}

} // verus!
