//! Byte addresses and page numbers, physical and virtual.
//!
//! The two address spaces use distinct wrapper types so that a physical
//! quantity is never mixed up with a virtual one. A page number is an
//! address with its low, frame-offset bits removed; its validity is always
//! relative to a concrete paging mode's frame size.
use vstd::arithmetic::power2::{lemma_pow2_adds, pow2};
use vstd::bits::{lemma_u64_low_bits_mask_is_mod, lemma_u64_shl_is_mul, lemma_u64_shr_is_div};
use vstd::prelude::*;

use crate::level::PageLevel;
use crate::mode::PageMode;

verus! {

/// A byte address in the physical address space.
#[derive(Copy, Clone, PartialEq, Eq, Structural, Debug)]
pub struct PhysAddr(pub u64);

/// A byte address in the virtual address space.
#[derive(Copy, Clone, PartialEq, Eq, Structural, Debug)]
pub struct VirtAddr(pub u64);

/// A physical page number: a physical address shifted right by the frame
/// size bits of some paging mode.
#[derive(Copy, Clone, PartialEq, Eq, Structural, Debug)]
pub struct PhysPageNum(pub u64);

/// A virtual page number: a virtual address shifted right by the frame
/// size bits of some paging mode.
#[derive(Copy, Clone, PartialEq, Eq, Structural, Debug)]
pub struct VirtPageNum(pub u64);

impl PhysAddr {
    /// The physical page containing this address under mode `M`.
    pub fn page_number<M: PageMode>(&self) -> (r: PhysPageNum)
        ensures
            r.0 == self.0 as nat / pow2(M::spec_frame_size_bits()),
    {
        proof {
            M::mode_properties();
            lemma_u64_shr_is_div(self.0, M::spec_frame_size_bits() as u64);
        }
        PhysPageNum(self.0 >> M::frame_size_bits())
    }
}

impl VirtAddr {
    /// The virtual page containing this address under mode `M`.
    pub fn page_number<M: PageMode>(&self) -> (r: VirtPageNum)
        ensures
            r.0 == self.0 as nat / pow2(M::spec_frame_size_bits()),
    {
        proof {
            M::mode_properties();
            lemma_u64_shr_is_div(self.0, M::spec_frame_size_bits() as u64);
        }
        VirtPageNum(self.0 >> M::frame_size_bits())
    }

    /// The byte offset of this address within its page of level `lvl`.
    pub fn page_offset<M: PageMode>(&self, lvl: PageLevel) -> (r: u64)
        requires
            lvl.0 < M::spec_max_levels(),
        ensures
            r == self.0 as nat % crate::mode::spec_page_size::<M>(lvl.0 as nat),
    {
        proof {
            M::mode_properties();
            assert(M::spec_entries_bits() * lvl.0 as nat <= 36) by (nonlinear_arith)
                requires
                    M::spec_entries_bits() <= 12,
                    lvl.0 as nat <= 3,
            ;
            lemma_pow2_adds(
                M::spec_entries_bits() * lvl.0 as nat,
                M::spec_frame_size_bits(),
            );
            vstd::bits::lemma_u64_pow2_no_overflow(
                M::spec_entries_bits() * lvl.0 as nat + M::spec_frame_size_bits(),
            );
        }
        let layout = M::get_layout_for_level(lvl);
        let size = layout.page_size::<M>();
        proof {
            lemma_u64_low_bits_mask_is_mod(
                self.0,
                M::spec_entries_bits() * lvl.0 as nat + M::spec_frame_size_bits(),
            );
        }
        self.0 & (size - 1)
    }
}

impl VirtPageNum {
    /// The virtual page one level-`lvl` page after this one.
    pub fn next_page_by_level<M: PageMode>(&self, lvl: PageLevel) -> (r: VirtPageNum)
        requires
            lvl.0 < M::spec_max_levels(),
            self.0 + crate::mode::spec_align::<M>(lvl.0 as nat) <= u64::MAX,
        ensures
            r.0 == self.0 + crate::mode::spec_align::<M>(lvl.0 as nat),
    {
        let step = M::get_layout_for_level(lvl).align_in_frames();
        VirtPageNum(self.0 + step)
    }
}

impl PhysPageNum {
    /// The first byte address of this page under mode `M`.
    pub fn addr_begin<M: PageMode>(&self) -> (r: PhysAddr)
        requires
            self.0 < pow2(M::spec_ppn_bits()),
        ensures
            r.0 == self.0 * pow2(M::spec_frame_size_bits()),
    {
        proof {
            M::mode_properties();
            vstd::arithmetic::power2::lemma2_to64();
            vstd::arithmetic::power2::lemma2_to64_rest();
            lemma_pow2_adds(M::spec_ppn_bits(), M::spec_frame_size_bits());
            assert(self.0 * pow2(M::spec_frame_size_bits()) < pow2(
                M::spec_ppn_bits() + M::spec_frame_size_bits(),
            )) by (nonlinear_arith)
                requires
                    self.0 < pow2(M::spec_ppn_bits()),
                    pow2(M::spec_ppn_bits()) * pow2(M::spec_frame_size_bits()) == pow2(
                        M::spec_ppn_bits() + M::spec_frame_size_bits(),
                    ),
                    pow2(M::spec_frame_size_bits()) > 0,
            ;
            vstd::bits::lemma_u64_pow2_no_overflow(
                M::spec_ppn_bits() + M::spec_frame_size_bits(),
            );
            lemma_u64_shl_is_mul(self.0, M::spec_frame_size_bits() as u64);
        }
        PhysAddr(self.0 << M::frame_size_bits())
    }

    /// The page number one past this one. The architecture bounds page
    /// numbers well below `u64::MAX`, so the increment cannot wrap.
    pub fn next_page(&self) -> (r: PhysPageNum)
        requires
            self.0 < u64::MAX,
        ensures
            r.0 == self.0 + 1,
    {
        PhysPageNum(self.0 + 1)
    }

    /// Whether this page number lies in `[begin, end)`, read as a
    /// wrapped interval when `begin` is above `end`.
    pub fn is_within_range(&self, begin: PhysPageNum, end: PhysPageNum) -> (r: bool)
        ensures
            begin.0 <= end.0 ==> r == (begin.0 <= self.0 < end.0),
            begin.0 > end.0 ==> r == (begin.0 <= self.0 || self.0 < end.0),
    {
        if begin.0 <= end.0 {
            begin.0 <= self.0 && self.0 < end.0
        } else {
            begin.0 <= self.0 || self.0 < end.0
        }
    }
}

} // verus!
