//! Page-table levels, per-level layout, and ordered iteration over levels.
//!
//! A paged memory system is built from numbered levels; the lowest possible
//! leaf level is level zero and coarser levels carry bigger numbers. Walks
//! over a table tree and the range-splitting algorithm are driven by ordered
//! sequences of levels, produced here in the four ways they are consumed:
//! rising or falling, including or excluding the far end.
use vstd::prelude::*;

verus! {

/// A page-table level index; 0 is the lowest possible leaf level.
#[derive(Copy, Clone, PartialEq, Eq, Structural, Debug)]
pub struct PageLevel(pub u8);

impl PageLevel {
    /// Lowest leaf level possible of any paged memory system.
    pub fn leaf_level() -> (r: Self)
        ensures
            r.0 == 0,
    {
        Self(0)
    }
}

/// Size and alignment settings of the pages of one level.
///
/// `align_in_frames` says how many base frames a page of the level covers
/// and is aligned to: with a 4 KiB frame, 1 describes alignment to 4 KiB,
/// 512 to 2 MiB, 512 * 512 to 1 GiB.
#[derive(Copy, Clone, PartialEq, Eq, Structural, Debug)]
pub struct PageLayout {
    pub align_in_frames: u64,
}

impl PageLayout {
    /// How many frames a page of this layout aligns to.
    pub fn align_in_frames(&self) -> (r: u64)
        ensures
            r == self.align_in_frames,
    {
        self.align_in_frames
    }
}

/// Iterator over a closed sub-range of page levels, rising or falling.
#[derive(Copy, Clone, PartialEq, Eq, Structural)]
pub struct LevelIter {
    pub remaining_min: u8,
    pub remaining_max: u8,
    pub include_end: bool,
    pub towards_higher: bool,
}

impl LevelIter {
    /// The levels this iterator has still to produce, in order.
    pub open spec fn to_seq(self) -> Seq<PageLevel> {
        let count = (self.remaining_max - self.remaining_min + (if self.include_end {
            1int
        } else {
            0int
        })) as nat;
        if self.towards_higher {
            Seq::new(count, |i: int| PageLevel((self.remaining_min + i) as u8))
        } else {
            Seq::new(count, |i: int| PageLevel((self.remaining_max - i) as u8))
        }
    }

    /// The iterator state is meaningful: the bounds are ordered.
    pub open spec fn wf(self) -> bool {
        self.remaining_min <= self.remaining_max
    }

    /// Levels `begin, begin + 1, ..., end`, lowest first.
    pub fn rising_includes(begin: u8, end: u8) -> (r: Self)
        requires
            begin <= end,
        ensures
            r.wf(),
            r.to_seq().len() == end - begin + 1,
            forall|i: int| 0 <= i < r.to_seq().len() ==> r.to_seq()[i] == PageLevel((begin + i) as u8),
    {
        LevelIter { remaining_min: begin, remaining_max: end, include_end: true, towards_higher: true }
    }

    /// Levels `begin, begin - 1, ..., end`, highest first.
    pub fn falling_includes(begin: u8, end: u8) -> (r: Self)
        requires
            begin >= end,
        ensures
            r.wf(),
            r.to_seq().len() == begin - end + 1,
            forall|i: int| 0 <= i < r.to_seq().len() ==> r.to_seq()[i] == PageLevel((begin - i) as u8),
    {
        LevelIter { remaining_min: end, remaining_max: begin, include_end: true, towards_higher: false }
    }

    /// Levels `begin, begin + 1, ..., end - 1`, lowest first.
    pub fn rising_excludes(begin: u8, end: u8) -> (r: Self)
        requires
            begin <= end,
        ensures
            r.wf(),
            r.to_seq().len() == end - begin,
            forall|i: int| 0 <= i < r.to_seq().len() ==> r.to_seq()[i] == PageLevel((begin + i) as u8),
    {
        LevelIter { remaining_min: begin, remaining_max: end, include_end: false, towards_higher: true }
    }

    /// Levels `begin, begin - 1, ..., end + 1`, highest first.
    pub fn falling_excludes(begin: u8, end: u8) -> (r: Self)
        requires
            begin >= end,
        ensures
            r.wf(),
            r.to_seq().len() == begin - end,
            forall|i: int| 0 <= i < r.to_seq().len() ==> r.to_seq()[i] == PageLevel((begin - i) as u8),
    {
        LevelIter { remaining_min: end, remaining_max: begin, include_end: false, towards_higher: false }
    }

    /// The next level in the chosen order, or `None` when all have been
    /// produced.
    pub fn next(&mut self) -> (r: Option<PageLevel>)
        requires
            old(self).wf(),
        ensures
            final(self).wf(),
            old(self).to_seq().len() == 0 ==> r is None && *final(self) == *old(self),
            old(self).to_seq().len() > 0 ==> r == Some(old(self).to_seq()[0])
                && final(self).to_seq() =~= old(self).to_seq().skip(1),
    {
        if self.remaining_min == self.remaining_max {
            if !self.include_end {
                None
            } else {
                self.include_end = false;
                Some(PageLevel(self.remaining_min))
            }
        } else {
            let ans = if self.towards_higher {
                PageLevel(self.remaining_min)
            } else {
                PageLevel(self.remaining_max)
            };
            if self.towards_higher {
                self.remaining_min = self.remaining_min + 1;
            } else {
                self.remaining_max = self.remaining_max - 1;
            }
            Some(ans)
        }
    }
}

} // verus!
