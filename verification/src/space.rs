//! Paged address spaces: a root page table and the chain of intermediate
//! tables it owns, with range mapping and lookup.
//!
//! The table memory is held by the address space itself: each allocated
//! frame carries the table written into it, so the walk that hardware
//! performs over physical memory is modelled here as a walk over the
//! owned tables, resolved through the stored physical page numbers. The
//! well-formedness invariant keeps the frames distinct and every child
//! pointer resolvable, so a lookup can always follow the tree.
//!
//! The design is allocate-only: mapping fills slots that hold no valid
//! entry and never touches a valid one. Two consequences carry the
//! proofs here. A successful lookup can never be disturbed by later
//! mapping — its walk reads only valid slots, all left alone — and a
//! mapping call can state exactly what it installed, because the chain
//! of child pointers it built (`walk_table`) determines what every
//! covered page's lookup returns.
use vstd::arithmetic::power2::{lemma2_to64, lemma2_to64_rest, lemma_pow2_pos,
    lemma_pow2_strictly_increases, pow2};
use vstd::bits::lemma_u64_shl_is_mul;
use vstd::prelude::*;

use crate::addr::{PhysPageNum, VirtPageNum};
use crate::frame::{FrameAllocError, FrameAllocator, FrameBox};
use crate::level::PageLevel;
use crate::mode::{
    index_bits_of, lemma_seg_block_pages, lemma_seg_index_step, table_len_of, vpn_index_of,
    vpn_index_range_of, vpn_level_index_of, PageMode,
};
use vstd::arithmetic::div_mod::lemma_fundamental_div_mod;
use crate::solve::{lemma_solve_segs_wf, spec_solve, MapPairs, Seg};
use crate::table::{
    lemma_entry_encode_decode, spec_entry_encode, spec_entry_is_leaf, spec_entry_ppn,
    spec_slot_is_valid, Sv39Flags, Sv39PageEntry, Sv39PageTable,
};

verus! {

/// Why a lookup failed: the walk met a slot without a valid bit, or it
/// reached the lowest level on a valid entry that is not a leaf — the
/// latter is a structural corruption, since a valid lowest-level entry
/// must always be a leaf.
#[derive(Copy, Clone, PartialEq, Eq, Structural, Debug)]
pub enum PageError {
    InvalidEntry,
    NotLeafInLowestPage,
}

/// Why a mapping call failed. Writing over an already-valid slot is a
/// caller contract violation, fatal in spirit; verified code cannot
/// abort, so it is surfaced as its own variant, distinct from the
/// recoverable exhaustion of the frame allocator, and never conflated
/// with it.
#[derive(Copy, Clone, PartialEq, Eq, Structural, Debug)]
pub enum MapError {
    FrameAlloc(FrameAllocError),
    AlreadyMapped,
}

/// One past the last page a mapping call writes for a solver segment:
/// the segment's start plus one level-sized block per index of its
/// clamped index range.
pub open spec fn seg_written_end(eb: nat, rb: nat, lv: nat, seg: Seg) -> int {
    let rng = vpn_index_range_of(eb, rb, lv, seg.1 as nat, seg.2 as nat, seg.0);
    if rng.1 >= rng.0 {
        seg.1 + (rng.1 - rng.0) * (pow2(eb * seg.0) as int)
    } else {
        seg.1
    }
}

/// One address space under paging mode `M`: the root table, the
/// intermediate tables allocated on demand during mapping, and the
/// frames that own them.
#[derive(Debug)]
pub struct PagedAddrSpace<M: PageMode> {
    pub root_frame: FrameBox,
    pub root_table: Sv39PageTable,
    pub frames: Vec<FrameBox>,
    pub tables: Vec<Sv39PageTable>,
    pub page_mode: M,
}

impl<M: PageMode> PagedAddrSpace<M> {
    /// Whether one of the owned intermediate frames is page `p`.
    pub open spec fn has_frame(self, p: int) -> bool {
        exists|k: int| 0 <= k < self.frames@.len() && (#[trigger] self.frames@[k]).ppn.0 == p
    }

    /// Whether the address space owns page `p`, as root or intermediate.
    pub open spec fn owns(self, p: int) -> bool {
        p == self.root_frame.ppn.0 as int || self.has_frame(p)
    }

    /// Every valid non-leaf slot of `t` points at an owned frame.
    pub open spec fn table_ok(self, t: Seq<u64>) -> bool {
        forall|idx: int|
            0 <= idx < t.len() && spec_slot_is_valid(#[trigger] t[idx]) && !spec_entry_is_leaf(
                t[idx],
            ) ==> self.has_frame(spec_entry_ppn(t[idx]) as int)
    }

    /// The structural invariant: tables have their mode's widths, each
    /// intermediate table sits in its own distinct frame, none of them in
    /// the root's, and every child pointer resolves to an owned frame.
    pub open spec fn wf(self) -> bool {
        &&& self.root_table.bits_seq().len() == table_len_of(
            M::spec_entries_bits(),
            M::spec_root_index_bits(),
            true,
        )
        &&& self.tables@.len() == self.frames@.len()
        &&& forall|k: int|
            0 <= k < self.tables@.len() ==> (#[trigger] self.tables@[k]).bits_seq().len()
                == table_len_of(M::spec_entries_bits(), M::spec_root_index_bits(), false)
        &&& forall|k1: int, k2: int|
            0 <= k1 < k2 < self.frames@.len() ==> (#[trigger] self.frames@[k1]).ppn != (
            #[trigger] self.frames@[k2]).ppn
        &&& forall|k: int|
            0 <= k < self.frames@.len() ==> (#[trigger] self.frames@[k]).ppn
                != self.root_frame.ppn
        &&& self.table_ok(self.root_table.bits_seq())
        &&& forall|k: int|
            0 <= k < self.tables@.len() ==> self.table_ok(
                (#[trigger] self.tables@[k]).bits_seq(),
            )
    }

    /// The index of the owned frame holding page `p`.
    pub open spec fn frame_index_of(self, p: int) -> int {
        choose|k: int| 0 <= k < self.frames@.len() && (#[trigger] self.frames@[k]).ppn.0 == p
    }

    /// The raw slots of the table a handle names: the root, or one of
    /// the intermediate tables.
    pub open spec fn table_bits(self, h: Option<int>) -> Seq<u64> {
        match h {
            None => self.root_table.bits_seq(),
            Some(k) => self.tables@[k].bits_seq(),
        }
    }

    /// The walk from the table `h` at level `l` down to the leaf: fail
    /// on the first invalid slot, stop on the first leaf, and fail
    /// structurally when the lowest level holds a valid non-leaf.
    pub open spec fn spec_walk(self, h: Option<int>, vpn: nat, l: int) -> Result<
        (u64, int),
        PageError,
    >
        decreases l + 1,
    {
        let idx = vpn_index_of(
            M::spec_entries_bits(),
            M::spec_root_index_bits(),
            M::spec_max_levels(),
            vpn,
            l as nat,
        ) as int;
        let bits = self.table_bits(h)[idx];
        if !spec_slot_is_valid(bits) {
            Err(PageError::InvalidEntry)
        } else if spec_entry_is_leaf(bits) {
            Ok((bits, l))
        } else if l <= 0 {
            Err(PageError::NotLeafInLowestPage)
        } else {
            self.spec_walk(Some(self.frame_index_of(spec_entry_ppn(bits) as int)), vpn, l - 1)
        }
    }

    /// What a lookup of `vpn` returns: the full walk from the root.
    pub open spec fn spec_find(self, vpn: nat) -> Result<(u64, int), PageError> {
        self.spec_walk(None, vpn, M::spec_max_levels() as int - 1)
    }

    /// An empty address space: one freshly allocated root frame holding
    /// an all-invalid root table, so that every lookup fails with
    /// `InvalidEntry` until something is mapped.
    pub fn try_new_in<A: FrameAllocator>(page_mode: M, frame_alloc: &mut A) -> (r: Result<
        Self,
        FrameAllocError,
    >)
        requires
            old(frame_alloc).inv(),
        ensures
            final(frame_alloc).inv(),
            forall|p: int|
                old(frame_alloc).taken().contains(p) ==> final(frame_alloc).taken().contains(p),
            match r {
                Ok(s) => s.wf() && s.page_mode == page_mode && s.frames@.len() == 0 && (forall|
                    q: nat,
                |
                    s.spec_find(q) == Err::<(u64, int), PageError>(PageError::InvalidEntry)) && (
                forall|p: int| s.owns(p) ==> final(frame_alloc).taken().contains(p))
                    && !old(frame_alloc).taken().contains(s.root_frame.ppn.0 as int)
                    && final(frame_alloc).taken() == old(frame_alloc).taken().insert(
                    s.root_frame.ppn.0 as int,
                ),
                Err(_) => !old(frame_alloc).can_allocate() && final(frame_alloc).taken() == old(
                    frame_alloc,
                ).taken(),
            },
    {
        let root_frame = match FrameBox::try_new_in(frame_alloc) {
            Ok(b) => b,
            Err(e) => {
                return Err(e);
            },
        };
        proof {
            M::mode_properties();
            lemma2_to64();
            lemma_pow2_pos(M::spec_root_index_bits());
            if M::spec_root_index_bits() < 17 {
                lemma_pow2_strictly_increases(M::spec_root_index_bits(), 17);
            }
            lemma_u64_shl_is_mul(1u64, M::spec_root_index_bits() as u64);
        }
        let rb = M::root_index_bits();
        let len = (1u64 << (rb as u64)) as usize;
        let root_table = Sv39PageTable::new_all_invalid(len);
        let s = PagedAddrSpace {
            root_frame,
            root_table,
            frames: Vec::new(),
            tables: Vec::new(),
            page_mode,
        };
        proof {
            assert(s.root_table.bits_seq().len() == table_len_of(
                M::spec_entries_bits(),
                M::spec_root_index_bits(),
                true,
            ));
            assert(!spec_slot_is_valid(0u64)) by (bit_vector);
            assert forall|idx: int|
                0 <= idx < s.root_table.bits_seq().len() implies !spec_slot_is_valid(
                #[trigger] s.root_table.bits_seq()[idx],
            ) by {
                assert(s.root_table.bits_seq()[idx] == 0u64);
            }
            assert(s.table_ok(s.root_table.bits_seq()));
            assert(s.wf());
            assert forall|q: nat|
                s.spec_find(q) == Err::<(u64, int), PageError>(PageError::InvalidEntry) by {
                let lv = M::spec_max_levels();
                let idx = vpn_index_of(
                    M::spec_entries_bits(),
                    M::spec_root_index_bits(),
                    lv,
                    q,
                    (lv - 1) as nat,
                );
                assert(idx < pow2(
                    index_bits_of(
                        M::spec_entries_bits(),
                        M::spec_root_index_bits(),
                        lv,
                        (lv - 1) as nat,
                    ),
                )) by {
                    lemma_pow2_pos(M::spec_entries_bits() * ((lv - 1) as nat));
                    lemma_pow2_pos(
                        index_bits_of(
                            M::spec_entries_bits(),
                            M::spec_root_index_bits(),
                            lv,
                            (lv - 1) as nat,
                        ),
                    );
                    vstd::arithmetic::div_mod::lemma_mod_division_less_than_divisor(
                        (q / pow2(M::spec_entries_bits() * ((lv - 1) as nat))) as int,
                        pow2(
                            index_bits_of(
                                M::spec_entries_bits(),
                                M::spec_root_index_bits(),
                                lv,
                                (lv - 1) as nat,
                            ),
                        ) as int,
                    );
                }
                assert(s.table_bits(None)[idx as int] == 0u64);
                assert(!spec_slot_is_valid(0u64)) by (bit_vector);
            }
        }
        Ok(s)
    }

    /// The page number of the root table's frame, as hardware activation
    /// needs it.
    pub fn root_page_number(&self) -> (r: PhysPageNum)
        ensures
            r == self.root_frame.ppn,
    {
        self.root_frame.phys_page_num()
    }

    /// Read one raw slot of the table a handle names.
    fn read_slot_at(&self, h: Option<usize>, idx: usize) -> (r: u64)
        requires
            match h {
                Some(k) => k < self.tables@.len(),
                None => true,
            },
            idx < self.table_bits(
                match h {
                    None => None::<int>,
                    Some(k) => Some(k as int),
                },
            ).len(),
        ensures
            r == self.table_bits(
                match h {
                    None => None::<int>,
                    Some(k) => Some(k as int),
                },
            )[idx as int],
    {
        match h {
            None => self.root_table.slot_bits(idx),
            Some(k) => self.tables[k].slot_bits(idx),
        }
    }

    /// Overwrite one raw slot of the table a handle names; everything
    /// else is untouched.
    fn write_slot_at(&mut self, h: Option<usize>, idx: usize, bits: u64)
        requires
            match h {
                Some(k) => k < old(self).tables@.len(),
                None => true,
            },
            idx < old(self).table_bits(
                match h {
                    None => None::<int>,
                    Some(k) => Some(k as int),
                },
            ).len(),
        ensures
            final(self).root_frame == old(self).root_frame,
            final(self).frames == old(self).frames,
            final(self).page_mode == old(self).page_mode,
            final(self).tables@.len() == old(self).tables@.len(),
            h is None ==> final(self).root_table.bits_seq() =~= old(self).root_table.bits_seq().update(idx as int, bits) && final(self).tables == old(self).tables,
            match h {
                Some(k) => final(self).root_table == old(self).root_table && final(self).tables@[k as int].bits_seq() =~= old(self).tables@[k as int].bits_seq().update(
                    idx as int,
                    bits,
                ) && (forall|j: int|
                    0 <= j < old(self).tables@.len() && j != k as int ==> final(self).tables@[j]
                        == old(self).tables@[j]),
                None => true,
            },
    {
        match h {
            None => self.root_table.write_slot(idx, bits),
            Some(k) => {
                let t = &mut self.tables[k];
                t.write_slot(idx, bits);
            },
        }
    }

    /// Walk from the root towards `entry_level`, creating and recording
    /// a fresh all-invalid intermediate table wherever the path has none
    /// yet, and hand back the table in which the entries of `entry_level`
    /// are to be written: on success the child-pointer chain on
    /// `vpn_start`'s indices (`walk_table`) reaches exactly the handed
    /// table. Meeting a leaf on the way means the region is already
    /// mapped at a coarser level; that caller contract violation is
    /// refused as `AlreadyMapped` rather than written over, and an
    /// allocation failure is reported only with the allocator genuinely
    /// exhausted.
    fn alloc_get_table<A: FrameAllocator>(
        &mut self,
        entry_level: PageLevel,
        vpn_start: VirtPageNum,
        alloc: &mut A,
    ) -> (r: Result<Option<usize>, MapError>)
        requires
            old(self).wf(),
            old(alloc).inv(),
            entry_level.0 < M::spec_max_levels(),
            forall|p: int| old(self).owns(p) ==> old(alloc).taken().contains(p),
            forall|p: int|
                !old(alloc).taken().contains(p) ==> 0 <= p < 0x1000_0000_0000,
        ensures
            final(self).wf(),
            final(alloc).inv(),
            final(self).root_frame == old(self).root_frame,
            final(self).page_mode == old(self).page_mode,
            forall|p: int|
                old(alloc).taken().contains(p) ==> final(alloc).taken().contains(p),
            forall|p: int| final(self).owns(p) ==> final(alloc).taken().contains(p),
            forall|p: int|
                !final(alloc).taken().contains(p) ==> 0 <= p < 0x1000_0000_0000,
            forall|q: nat|
                old(self).spec_find(q) is Ok ==> #[trigger] final(self).spec_find(q) == old(
                    self,
                ).spec_find(q),
            final(self).frames@.len() >= old(self).frames@.len(),
            forall|k: int|
                0 <= k < old(self).frames@.len() ==> #[trigger] final(self).frames@[k] == old(
                    self,
                ).frames@[k],
            forall|k: int|
                old(self).frames@.len() <= k < final(self).frames@.len() ==> !old(
                    alloc,
                ).taken().contains((#[trigger] final(self).frames@[k]).ppn.0 as int),
            match r {
                Ok(h) => (match h {
                    None => entry_level.0 as nat + 1 == M::spec_max_levels(),
                    Some(k) => k < final(self).tables@.len() && entry_level.0 as nat + 1
                        < M::spec_max_levels(),
                }) && final(self).walk_table(vpn_start.0 as nat, entry_level.0 as int) == Some(
                    match h {
                        None => None::<int>,
                        Some(k) => Some(k as int),
                    },
                ),
                Err(e) => e matches MapError::FrameAlloc(_) ==> !final(alloc).can_allocate(),
            },
    {
        proof {
            M::mode_properties();
            lemma2_to64();
        }
        let max = M::max_page_levels();
        let mut h: Option<usize> = None;
        let mut lvl: u8 = max - 1;
        while lvl > entry_level.0
            invariant
                self.wf(),
                alloc.inv(),
                entry_level.0 <= lvl < M::spec_max_levels(),
                self.root_frame == old(self).root_frame,
                self.page_mode == old(self).page_mode,
                (h is None) == (lvl as nat + 1 == M::spec_max_levels()),
                match h {
                    Some(k) => k < self.tables@.len(),
                    None => true,
                },
                self.walk_table(vpn_start.0 as nat, lvl as int) == Some(
                    match h {
                        None => None::<int>,
                        Some(k) => Some(k as int),
                    },
                ),
                forall|p: int| old(alloc).taken().contains(p) ==> alloc.taken().contains(p),
                forall|p: int| self.owns(p) ==> alloc.taken().contains(p),
                forall|p: int| !alloc.taken().contains(p) ==> 0 <= p < 0x1000_0000_0000,
                forall|q: nat|
                    old(self).spec_find(q) is Ok ==> #[trigger] self.spec_find(q) == old(
                        self,
                    ).spec_find(q),
                self.frames@.len() >= old(self).frames@.len(),
                forall|k: int|
                    0 <= k < old(self).frames@.len() ==> #[trigger] self.frames@[k] == old(
                        self,
                    ).frames@[k],
                forall|k: int|
                    old(self).frames@.len() <= k < self.frames@.len() ==> !old(
                        alloc,
                    ).taken().contains((#[trigger] self.frames@[k]).ppn.0 as int),
            decreases lvl,
        {
            proof {
                M::mode_properties();
                lemma_pow2_pos(M::spec_entries_bits());
                lemma_pow2_pos(M::spec_root_index_bits());
            }
            let idx = M::vpn_index(vpn_start, PageLevel(lvl));
            let bits = self.read_slot_at(h, idx);
            let ghost hh = match h {
                None => None::<int>,
                Some(k) => Some(k as int),
            };
            if bits & 1 == 1 {
                if bits & 0xE != 0 {
                    // a coarser mapping already covers this range
                    return Err(MapError::AlreadyMapped);
                }
                let child = PhysPageNum((bits >> 10) & 0xFFF_FFFF_FFFF);
                proof {
                    assert(spec_slot_is_valid(bits) && !spec_entry_is_leaf(bits));
                    assert(self.has_frame(spec_entry_ppn(bits) as int));
                    assert(child.0 == spec_entry_ppn(bits));
                }
                match self.find_frame_index(child) {
                    Some(k) => {
                        proof {
                            let kc = self.frame_index_of(child.0 as int);
                            assert(self.frames@[kc].ppn.0 == child.0);
                            if kc != k as int {
                                assert(self.frames@[kc].ppn == self.frames@[k as int].ppn);
                                assert(false);
                            }
                            assert(self.walk_table(vpn_start.0 as nat, lvl as int - 1) == Some(
                                Some(k as int),
                            ));
                        }
                        h = Some(k);
                    },
                    None => {
                        proof {
                            // well-formedness: a valid non-leaf slot
                            // always resolves to an owned frame
                            assert(false);
                        }
                        return Err(MapError::AlreadyMapped);
                    },
                }
            } else {
                let fb = match FrameBox::try_new_in(alloc) {
                    Ok(b) => b,
                    Err(e) => {
                        return Err(MapError::FrameAlloc(e));
                    },
                };
                proof {
                    lemma2_to64();
                    lemma_pow2_pos(M::spec_entries_bits());
                    if M::spec_entries_bits() < 17 {
                        lemma_pow2_strictly_increases(M::spec_entries_bits(), 17);
                    }
                    lemma_u64_shl_is_mul(1u64, M::spec_entries_bits() as u64);
                }
                let child_len = (1u64 << (M::page_entries_bits() as u64)) as usize;
                let t = Sv39PageTable::new_all_invalid(child_len);
                let child_ppn = fb.phys_page_num();
                let ghost before_push = *self;
                self.tables.push(t);
                self.frames.push(fb);
                proof {
                    assert(!spec_slot_is_valid(0u64)) by (bit_vector);
                    assert(self.frames@[self.frames@.len() - 1].ppn.0 == child_ppn.0);
                    assert(alloc.taken().contains(child_ppn.0 as int));
                    assert forall|p: int| before_push.has_frame(p) implies self.has_frame(p) by {
                        let k = choose|k: int|
                            0 <= k < before_push.frames@.len() && (
                            #[trigger] before_push.frames@[k]).ppn.0 == p;
                        assert(self.frames@[k].ppn.0 == p);
                    }
                    assert(before_push.wf());
                    assert(self.root_table == before_push.root_table);
                    assert(self.root_frame == before_push.root_frame);
                    assert forall|p: int| self.owns(p) implies alloc.taken().contains(p) by {
                        if p == child_ppn.0 as int {
                        } else if p == self.root_frame.ppn.0 as int {
                            assert(before_push.owns(p));
                        } else {
                            let k = choose|k: int|
                                0 <= k < self.frames@.len() && (#[trigger] self.frames@[k]).ppn.0
                                    == p;
                            assert(k < before_push.frames@.len());
                            assert(before_push.frames@[k].ppn.0 == p);
                            assert(before_push.has_frame(p));
                            assert(before_push.owns(p));
                        }
                    }
                    assert forall|k: int|
                        0 <= k < self.tables@.len() implies self.table_ok(
                        (#[trigger] self.tables@[k]).bits_seq(),
                    ) by {
                        if k < before_push.tables@.len() {
                            assert forall|ix: int|
                                0 <= ix < self.tables@[k].bits_seq().len() && spec_slot_is_valid(
                                    #[trigger] self.tables@[k].bits_seq()[ix],
                                ) && !spec_entry_is_leaf(self.tables@[k].bits_seq()[ix]) implies
                                self.has_frame(
                                spec_entry_ppn(self.tables@[k].bits_seq()[ix]) as int,
                            ) by {
                                assert(self.tables@[k] == before_push.tables@[k]);
                                assert(before_push.table_ok(before_push.tables@[k].bits_seq()));
                                assert(before_push.has_frame(
                                    spec_entry_ppn(before_push.tables@[k].bits_seq()[ix]) as int,
                                ));
                            }
                        } else {
                            assert(self.tables@[k].bits_seq() =~= t.bits_seq());
                        }
                    }
                    assert forall|ix: int|
                        0 <= ix < self.root_table.bits_seq().len() && spec_slot_is_valid(
                            #[trigger] self.root_table.bits_seq()[ix],
                        ) && !spec_entry_is_leaf(self.root_table.bits_seq()[ix]) implies
                        self.has_frame(spec_entry_ppn(self.root_table.bits_seq()[ix]) as int) by {
                        assert(before_push.table_ok(before_push.root_table.bits_seq()));
                        assert(before_push.root_table.bits_seq()[ix]
                            == self.root_table.bits_seq()[ix]);
                        assert(spec_slot_is_valid(before_push.root_table.bits_seq()[ix]));
                        assert(!spec_entry_is_leaf(before_push.root_table.bits_seq()[ix]));
                        assert(before_push.has_frame(
                            spec_entry_ppn(before_push.root_table.bits_seq()[ix]) as int,
                        ));
                    }
                    assert forall|k: int|
                        0 <= k < self.tables@.len() implies (
                    #[trigger] self.tables@[k]).bits_seq().len() == table_len_of(
                        M::spec_entries_bits(),
                        M::spec_root_index_bits(),
                        false,
                    ) by {
                        if k < before_push.tables@.len() {
                            assert(self.tables@[k] == before_push.tables@[k]);
                        } else {
                            assert(self.tables@[k] == t);
                        }
                    }
                    assert forall|k1: int, k2: int|
                        0 <= k1 < k2 < self.frames@.len() implies (
                    #[trigger] self.frames@[k1]).ppn != (#[trigger] self.frames@[k2]).ppn by {
                        if k2 == self.frames@.len() - 1 {
                            assert(self.frames@[k1] == before_push.frames@[k1]);
                            assert(before_push.has_frame(before_push.frames@[k1].ppn.0 as int));
                            assert(before_push.owns(before_push.frames@[k1].ppn.0 as int));
                        } else {
                            assert(self.frames@[k1] == before_push.frames@[k1]);
                            assert(self.frames@[k2] == before_push.frames@[k2]);
                        }
                    }
                    assert forall|k: int|
                        0 <= k < self.frames@.len() implies (#[trigger] self.frames@[k]).ppn
                        != self.root_frame.ppn by {
                        if k == self.frames@.len() - 1 {
                            assert(before_push.owns(self.root_frame.ppn.0 as int));
                        } else {
                            assert(self.frames@[k] == before_push.frames@[k]);
                        }
                    }
                    assert(self.wf());
                }
                let newbits: u64 = (child_ppn.0 << 10) | 1;
                proof {
                    lemma_entry_encode_decode(child_ppn.0, 1u8);
                    assert(newbits == spec_entry_encode(child_ppn.0, 1u8));
                }
                let ghost before_write = *self;
                self.write_slot_at(h, idx, newbits);
                proof {
                    assert(spec_entry_ppn(newbits) == child_ppn.0);
                    assert(spec_slot_is_valid(newbits) == (1u8 & 1 == 1));
                    assert(1u8 & 1 == 1) by (bit_vector);
                    assert(self.has_frame(child_ppn.0 as int)) by {
                        assert(self.frames@[self.frames@.len() - 1].ppn.0 == child_ppn.0);
                    }
                    assert forall|kk: int|
                        0 <= kk < self.tables@.len() implies self.table_ok(
                        (#[trigger] self.tables@[kk]).bits_seq(),
                    ) by {
                        if hh is Some && kk == hh->0 {
                            assert forall|ix: int|
                                0 <= ix < self.tables@[kk].bits_seq().len() && spec_slot_is_valid(
                                    #[trigger] self.tables@[kk].bits_seq()[ix],
                                ) && !spec_entry_is_leaf(self.tables@[kk].bits_seq()[ix]) implies
                                self.has_frame(
                                spec_entry_ppn(self.tables@[kk].bits_seq()[ix]) as int,
                            ) by {
                                if ix != idx as int {
                                    assert(self.tables@[kk].bits_seq()[ix]
                                        == before_write.tables@[kk].bits_seq()[ix]);
                                    assert(before_write.table_ok(
                                        before_write.tables@[kk].bits_seq(),
                                    ));
                                }
                            }
                        } else {
                            assert(self.tables@[kk].bits_seq()
                                =~= before_write.tables@[kk].bits_seq());
                            assert(before_write.table_ok(before_write.tables@[kk].bits_seq()));
                        }
                    }
                    assert(self.table_ok(self.root_table.bits_seq())) by {
                        if hh is None {
                            assert forall|ix: int|
                                0 <= ix < self.root_table.bits_seq().len() && spec_slot_is_valid(
                                    #[trigger] self.root_table.bits_seq()[ix],
                                ) && !spec_entry_is_leaf(self.root_table.bits_seq()[ix]) implies
                                self.has_frame(
                                spec_entry_ppn(self.root_table.bits_seq()[ix]) as int,
                            ) by {
                                if ix != idx as int {
                                    assert(self.root_table.bits_seq()[ix]
                                        == before_write.root_table.bits_seq()[ix]);
                                    assert(before_write.table_ok(
                                        before_write.root_table.bits_seq(),
                                    ));
                                }
                            }
                        } else {
                            assert(before_write.table_ok(before_write.root_table.bits_seq()));
                        }
                    }
                    assert forall|p: int| self.owns(p) implies alloc.taken().contains(p) by {
                        assert(self.frames == before_write.frames);
                        assert(self.root_frame == before_write.root_frame);
                        if p == self.root_frame.ppn.0 as int {
                            assert(before_write.owns(p));
                        } else {
                            let k = choose|k: int|
                                0 <= k < self.frames@.len() && (#[trigger] self.frames@[k]).ppn.0
                                    == p;
                            assert(before_write.frames@[k].ppn.0 == p);
                            assert(before_write.has_frame(p));
                            assert(before_write.owns(p));
                        }
                    }
                    assert(self.wf());
                    // a fresh table and a link into a previously invalid
                    // slot change no successful lookup
                    Self::lemma_find_preserved_push(before_push, before_write);
                    assert(!spec_slot_is_valid(before_write.table_bits(hh)[idx as int]));
                    Self::lemma_find_preserved_write(before_write, *self, hh, idx as int, newbits);
                    assert forall|q: nat|
                        old(self).spec_find(q) is Ok implies #[trigger] self.spec_find(q) == old(
                        self,
                    ).spec_find(q) by {
                        assert(before_push.spec_find(q) == old(self).spec_find(q));
                        assert(before_write.spec_find(q) == before_push.spec_find(q));
                        assert(self.spec_find(q) == before_write.spec_find(q));
                    }
                    // the chain still reaches the parent table, and its
                    // freshly linked slot now extends it to the new one
                    Self::lemma_walk_table_preserved_push(
                        before_push,
                        before_write,
                        vpn_start.0 as nat,
                        lvl as int,
                    );
                    Self::lemma_walk_table_preserved_write(
                        before_write,
                        *self,
                        hh,
                        idx as int,
                        newbits,
                        vpn_start.0 as nat,
                        lvl as int,
                    );
                    assert(self.walk_table(vpn_start.0 as nat, lvl as int) == Some(hh));
                    assert(!spec_entry_is_leaf(newbits)) by {
                        assert(1u8 & 0xE == 0) by (bit_vector);
                    }
                    assert(spec_slot_is_valid(newbits)) by {
                        assert(1u8 & 1 == 1) by (bit_vector);
                    }
                    assert(self.table_bits(hh)[idx as int] == newbits);
                    let kc = self.frame_index_of(child_ppn.0 as int);
                    assert(self.frames@[self.frames@.len() - 1].ppn.0 == child_ppn.0);
                    assert(self.frames@[kc].ppn.0 == child_ppn.0);
                    if kc != self.frames@.len() - 1 {
                        assert(before_push.frames@[kc].ppn.0 == child_ppn.0);
                        assert(before_push.has_frame(child_ppn.0 as int));
                        assert(false);
                    }
                    assert(self.walk_table(vpn_start.0 as nat, lvl as int - 1) == Some(
                        Some(self.frames@.len() - 1),
                    ));
                }
                h = Some(self.tables.len() - 1);
            }
            lvl = lvl - 1;
        }
        Ok(h)
    }

    /// Map `n` contiguous physical frames from `ppn` to the contiguous
    /// virtual pages from `vpn`, splitting the range into the coarsest
    /// valid segments and writing one leaf entry per covered table index,
    /// with validity always implied in `flags`. Intermediate tables are
    /// allocated on demand from `alloc` and owned for the whole life of
    /// the address space; nothing is ever unmapped.
    ///
    /// The contract pins both the translation installed and the call's
    /// bookkeeping. On success every solver segment is installed: each
    /// page of a written block resolves through the walk to a leaf at
    /// the segment's level whose flag byte is `flags` with validity
    /// implied and whose stored physical page is the block's base moved
    /// by `ppn - vpn`, so the page translates to its own physical page.
    /// On every path the structural invariant and the ownership link
    /// are kept, the owned-frame list grows only by frames this call
    /// freshly obtained, and every lookup that succeeded before the
    /// call returns the same leaf after it — the call only ever fills
    /// slots that held no valid entry, so nothing is overwritten even
    /// when it fails. An allocation failure is reported only with the
    /// allocator genuinely exhausted.
    ///
    /// Writing over an already-valid slot is a caller contract
    /// violation: the call stops at it with `AlreadyMapped`, the live
    /// entry untouched, segments written before it left installed.
    pub fn allocate_map<A: FrameAllocator>(
        &mut self,
        vpn: VirtPageNum,
        ppn: PhysPageNum,
        n: u64,
        flags: Sv39Flags,
        alloc: &mut A,
    ) -> (r: Result<(), MapError>)
        requires
            old(self).wf(),
            old(alloc).inv(),
            vpn.0 + n <= pow2(
                M::spec_entries_bits() * ((M::spec_max_levels() - 1) as nat)
                    + M::spec_root_index_bits(),
            ),
            ppn.0 + n <= 0x1000_0000_0000,
            flags.0 & 0xE != 0,
            forall|p: int| old(self).owns(p) ==> old(alloc).taken().contains(p),
            forall|p: int|
                !old(alloc).taken().contains(p) ==> 0 <= p < 0x1000_0000_0000,
        ensures
            final(self).wf(),
            final(alloc).inv(),
            final(self).root_frame == old(self).root_frame,
            final(self).page_mode == old(self).page_mode,
            forall|p: int|
                old(alloc).taken().contains(p) ==> final(alloc).taken().contains(p),
            forall|p: int| final(self).owns(p) ==> final(alloc).taken().contains(p),
            forall|p: int|
                !final(alloc).taken().contains(p) ==> 0 <= p < 0x1000_0000_0000,
            r matches Err(MapError::FrameAlloc(_)) ==> !final(alloc).can_allocate(),
            forall|q: nat|
                old(self).spec_find(q) is Ok ==> #[trigger] final(self).spec_find(q) == old(
                    self,
                ).spec_find(q),
            final(self).frames@.len() >= old(self).frames@.len(),
            forall|k: int|
                0 <= k < old(self).frames@.len() ==> #[trigger] final(self).frames@[k] == old(
                    self,
                ).frames@[k],
            forall|k: int|
                old(self).frames@.len() <= k < final(self).frames@.len() ==> !old(
                    alloc,
                ).taken().contains((#[trigger] final(self).frames@[k]).ppn.0 as int),
            r == Ok::<(), MapError>(()) ==> final(self).segs_installed_upto(
                spec_solve(
                    M::spec_entries_bits(),
                    M::spec_max_levels(),
                    vpn.0 as nat,
                    ppn.0 as nat,
                    n as nat,
                ),
                spec_solve(
                    M::spec_entries_bits(),
                    M::spec_max_levels(),
                    vpn.0 as nat,
                    ppn.0 as nat,
                    n as nat,
                ).len() as int,
                vpn.0 as nat,
                ppn.0 as nat,
                flags.0,
            ),
    {
        let ghost eb = M::spec_entries_bits();
        let ghost rb = M::spec_root_index_bits();
        let ghost lv = M::spec_max_levels();
        proof {
            M::mode_properties();
            lemma2_to64();
            lemma2_to64_rest();
            lemma_solve_segs_wf(eb, lv, vpn.0 as nat, ppn.0 as nat, n as nat);
            let vab = eb * ((lv - 1) as nat) + rb;
            if vab < 44 {
                lemma_pow2_strictly_increases(vab, 44);
            }
        }
        let mut mp = MapPairs::solve(vpn, ppn, n, self.page_mode);
        loop
            invariant
                self.wf(),
                alloc.inv(),
                mp.wf(),
                eb == M::spec_entries_bits(),
                rb == M::spec_root_index_bits(),
                lv == M::spec_max_levels(),
                vpn.0 + n <= pow2(eb * ((lv - 1) as nat) + rb),
                ppn.0 + n <= 0x1000_0000_0000,
                flags.0 & 0xE != 0,
                mp.segs() == spec_solve(eb, lv, vpn.0 as nat, ppn.0 as nat, n as nat),
                self.root_frame == old(self).root_frame,
                self.page_mode == old(self).page_mode,
                forall|p: int| old(alloc).taken().contains(p) ==> alloc.taken().contains(p),
                forall|p: int| self.owns(p) ==> alloc.taken().contains(p),
                forall|p: int| !alloc.taken().contains(p) ==> 0 <= p < 0x1000_0000_0000,
                forall|q: nat|
                    old(self).spec_find(q) is Ok ==> #[trigger] self.spec_find(q) == old(
                        self,
                    ).spec_find(q),
                self.frames@.len() >= old(self).frames@.len(),
                forall|k: int|
                    0 <= k < old(self).frames@.len() ==> #[trigger] self.frames@[k] == old(
                        self,
                    ).frames@[k],
                forall|k: int|
                    old(self).frames@.len() <= k < self.frames@.len() ==> !old(
                        alloc,
                    ).taken().contains((#[trigger] self.frames@[k]).ppn.0 as int),
                self.segs_installed_upto(
                    mp.segs(),
                    mp.pos as int,
                    vpn.0 as nat,
                    ppn.0 as nat,
                    flags.0,
                ),
            decreases mp.remaining().len(),
        {
            let ghost rem0 = mp.remaining();
            let nxt = mp.next();
            match nxt {
                None => {
                    proof {
                        assert(mp.remaining().len() == 0);
                        assert(mp.pos == mp.segs().len());
                    }
                    return Ok(());
                },
                Some((seg_level, seg_range)) => {
                    let s = seg_range.start;
                    let e = seg_range.end;
                    let ghost seg = rem0[0];
                    proof {
                        M::mode_properties();
                        lemma_solve_segs_wf(eb, lv, vpn.0 as nat, ppn.0 as nat, n as nat);
                        assert(mp.segs()[mp.pos - 1] == seg);
                        assert(spec_solve(eb, lv, vpn.0 as nat, ppn.0 as nat, n as nat)[mp.pos
                            - 1] == seg);
                        assert(seg == (seg_level.0 as nat, s.0 as int, e.0 as int));
                        assert(seg.0 < lv && vpn.0 <= seg.1 < seg.2 <= vpn.0 + n);
                        assert(seg.1 % (pow2(eb * seg.0) as int) == 0);
                        assert(seg.2 % (pow2(eb * seg.0) as int) == 0);
                        assert(s.0 as nat % pow2(eb * seg_level.0 as nat) == 0);
                        assert(e.0 as nat % pow2(eb * seg_level.0 as nat) == 0);
                    }
                    let ghost before_tables = *self;
                    let hr = self.alloc_get_table(seg_level, s, alloc);
                    proof {
                        assert forall|q: nat|
                            old(self).spec_find(q) is Ok implies #[trigger] self.spec_find(q)
                            == old(self).spec_find(q) by {
                            assert(before_tables.spec_find(q) == old(self).spec_find(q));
                            assert(self.spec_find(q) == before_tables.spec_find(q));
                        }
                        Self::lemma_installed_preserved(
                            before_tables,
                            *self,
                            mp.segs(),
                            mp.pos as int - 1,
                            vpn.0 as nat,
                            ppn.0 as nat,
                            flags.0,
                        );
                    }
                    let h = match hr {
                        Ok(h) => h,
                        Err(er) => {
                            return Err(er);
                        },
                    };
                    let idx_range = M::vpn_index_range(s..e, seg_level);
                    let mut vidx = idx_range.start;
                    let iend = idx_range.end;
                    let ghost hh = match h {
                        None => None::<int>,
                        Some(k) => Some(k as int),
                    };
                    proof {
                        assert(iend <= pow2(index_bits_of(eb, rb, lv, seg_level.0 as nat)));
                        assert(self.table_bits(hh).len() == pow2(
                            index_bits_of(eb, rb, lv, seg_level.0 as nat),
                        )) by {
                            if hh is None {
                                assert(seg_level.0 as nat + 1 == lv);
                            } else {
                                assert(seg_level.0 as nat + 1 < lv);
                            }
                        }
                    }
                    while vidx < iend
                        invariant
                            self.wf(),
                            alloc.inv(),
                            eb == M::spec_entries_bits(),
                            rb == M::spec_root_index_bits(),
                            lv == M::spec_max_levels(),
                            seg_level.0 < lv,
                            vpn.0 <= s.0 < e.0 <= vpn.0 + n,
                            s.0 as nat % pow2(eb * seg_level.0 as nat) == 0,
                            e.0 as nat % pow2(eb * seg_level.0 as nat) == 0,
                            vpn.0 + n <= pow2(eb * ((lv - 1) as nat) + rb),
                            ppn.0 + n <= 0x1000_0000_0000,
                            flags.0 & 0xE != 0,
                            vpn_index_range_of(eb, rb, lv, s.0 as nat, e.0 as nat, seg_level.0 as nat).0 <= vidx,
                            iend == vpn_index_range_of(eb, rb, lv, s.0 as nat, e.0 as nat, seg_level.0 as nat).1,
                            vidx <= iend || vidx == vpn_index_range_of(
                                eb,
                                rb,
                                lv,
                                s.0 as nat,
                                e.0 as nat,
                                seg_level.0 as nat,
                            ).0,
                            hh == match h {
                                None => None::<int>,
                                Some(k) => Some(k as int),
                            },
                            match h {
                                Some(k) => k < self.tables@.len(),
                                None => true,
                            },
                            self.table_bits(hh).len() == pow2(
                                index_bits_of(eb, rb, lv, seg_level.0 as nat),
                            ),
                            self.root_frame == old(self).root_frame,
                            self.page_mode == old(self).page_mode,
                            forall|p: int|
                                old(alloc).taken().contains(p) ==> alloc.taken().contains(p),
                            forall|p: int| self.owns(p) ==> alloc.taken().contains(p),
                            forall|p: int|
                                !alloc.taken().contains(p) ==> 0 <= p < 0x1000_0000_0000,
                            forall|q: nat|
                                old(self).spec_find(q) is Ok ==> #[trigger] self.spec_find(q)
                                    == old(self).spec_find(q),
                            self.frames@.len() >= old(self).frames@.len(),
                            forall|k: int|
                                0 <= k < old(self).frames@.len() ==> #[trigger] self.frames@[k]
                                    == old(self).frames@[k],
                            forall|k: int|
                                old(self).frames@.len() <= k < self.frames@.len() ==> !old(
                                    alloc,
                                ).taken().contains((#[trigger] self.frames@[k]).ppn.0 as int),
                            self.walk_table(s.0 as nat, seg_level.0 as int) == Some(hh),
                            self.segs_installed_upto(
                                mp.segs(),
                                mp.pos as int - 1,
                                vpn.0 as nat,
                                ppn.0 as nat,
                                flags.0,
                            ),
                            self.seg_installed(
                                seg_level.0 as nat,
                                s.0 as int,
                                s.0 + (vidx - vpn_index_range_of(
                                    eb,
                                    rb,
                                    lv,
                                    s.0 as nat,
                                    e.0 as nat,
                                    seg_level.0 as nat,
                                ).0) * (pow2(eb * seg_level.0 as nat) as int),
                                vpn.0 as nat,
                                ppn.0 as nat,
                                flags.0,
                            ),
                        decreases iend - vidx,
                    {
                        proof {
                            M::mode_properties();
                            lemma2_to64();
                            lemma2_to64_rest();
                            let vab = eb * ((lv - 1) as nat) + rb;
                            if vab < 44 {
                                lemma_pow2_strictly_increases(vab, 44);
                            }
                            lemma_pow2_pos(eb * seg_level.0 as nat);
                            lemma_seg_index_step(
                                eb,
                                rb,
                                44,
                                lv,
                                s.0 as nat,
                                e.0 as nat,
                                seg_level.0 as nat,
                                vidx as nat,
                            );
                        }
                        let vli = M::vpn_level_index(s, seg_level, vidx);
                        let this_ppn = PhysPageNum(ppn.0 + (vli.0 - vpn.0));
                        let bits = self.read_slot_at(h, vidx);
                        if bits & 1 == 1 {
                            // the slot is already mapped; never overwrite
                            return Err(MapError::AlreadyMapped);
                        }
                        let newbits: u64 = (this_ppn.0 << 10) | ((flags.0 | 1) as u64);
                        proof {
                            lemma_entry_encode_decode(this_ppn.0, (flags.0 | 1) as u8);
                            assert(newbits == spec_entry_encode(this_ppn.0, (flags.0 | 1) as u8));
                            let f = flags.0;
                            assert((f | 1) & 0xE != 0) by (bit_vector)
                                requires
                                    f & 0xE != 0,
                            ;
                        }
                        let ghost before_write = *self;
                        self.write_slot_at(h, vidx, newbits);
                        proof {
                            assert(spec_entry_is_leaf(newbits));
                            assert forall|kk: int|
                                0 <= kk < self.tables@.len() implies self.table_ok(
                                (#[trigger] self.tables@[kk]).bits_seq(),
                            ) by {
                                if hh is Some && kk == hh->0 {
                                    assert forall|ix: int|
                                        0 <= ix < self.tables@[kk].bits_seq().len()
                                            && spec_slot_is_valid(
                                            #[trigger] self.tables@[kk].bits_seq()[ix],
                                        ) && !spec_entry_is_leaf(
                                            self.tables@[kk].bits_seq()[ix],
                                        ) implies self.has_frame(
                                        spec_entry_ppn(self.tables@[kk].bits_seq()[ix]) as int,
                                    ) by {
                                        assert(ix != vidx as int);
                                        assert(self.tables@[kk].bits_seq()[ix]
                                            == before_write.tables@[kk].bits_seq()[ix]);
                                        assert(before_write.table_ok(
                                            before_write.tables@[kk].bits_seq(),
                                        ));
                                        assert(before_write.has_frame(
                                            spec_entry_ppn(
                                                before_write.tables@[kk].bits_seq()[ix],
                                            ) as int,
                                        ));
                                    }
                                } else {
                                    assert(self.tables@[kk].bits_seq()
                                        =~= before_write.tables@[kk].bits_seq());
                                    assert(before_write.table_ok(
                                        before_write.tables@[kk].bits_seq(),
                                    ));
                                }
                            }
                            assert(self.table_ok(self.root_table.bits_seq())) by {
                                if hh is None {
                                    assert forall|ix: int|
                                        0 <= ix < self.root_table.bits_seq().len()
                                            && spec_slot_is_valid(
                                            #[trigger] self.root_table.bits_seq()[ix],
                                        ) && !spec_entry_is_leaf(
                                            self.root_table.bits_seq()[ix],
                                        ) implies self.has_frame(
                                        spec_entry_ppn(self.root_table.bits_seq()[ix]) as int,
                                    ) by {
                                        assert(ix != vidx as int);
                                        assert(self.root_table.bits_seq()[ix]
                                            == before_write.root_table.bits_seq()[ix]);
                                        assert(before_write.table_ok(
                                            before_write.root_table.bits_seq(),
                                        ));
                                    }
                                } else {
                                    assert(before_write.table_ok(
                                        before_write.root_table.bits_seq(),
                                    ));
                                }
                            }
                            assert forall|p: int| self.owns(p) implies alloc.taken().contains(
                                p,
                            ) by {
                                assert(self.frames == before_write.frames);
                                assert(self.root_frame == before_write.root_frame);
                                if p == self.root_frame.ppn.0 as int {
                                    assert(before_write.owns(p));
                                } else {
                                    let k = choose|k: int|
                                        0 <= k < self.frames@.len() && (
                                        #[trigger] self.frames@[k]).ppn.0 == p;
                                    assert(before_write.frames@[k].ppn.0 == p);
                                    assert(before_write.has_frame(p));
                                    assert(before_write.owns(p));
                                }
                            }
                            assert(self.wf());
                            // the leaf landed in a previously invalid
                            // slot, so no successful lookup moved
                            assert(!spec_slot_is_valid(before_write.table_bits(hh)[vidx as int]));
                            Self::lemma_find_preserved_write(
                                before_write,
                                *self,
                                hh,
                                vidx as int,
                                newbits,
                            );
                            assert forall|q: nat|
                                old(self).spec_find(q) is Ok implies #[trigger] self.spec_find(q)
                                == old(self).spec_find(q) by {
                                assert(before_write.spec_find(q) == old(self).spec_find(q));
                                assert(self.spec_find(q) == before_write.spec_find(q));
                            }
                            // the chain to the segment's table survives
                            // the leaf write, and everything installed
                            // so far stays installed
                            Self::lemma_walk_table_preserved_write(
                                before_write,
                                *self,
                                hh,
                                vidx as int,
                                newbits,
                                s.0 as nat,
                                seg_level.0 as int,
                            );
                            Self::lemma_installed_preserved(
                                before_write,
                                *self,
                                mp.segs(),
                                mp.pos as int - 1,
                                vpn.0 as nat,
                                ppn.0 as nat,
                                flags.0,
                            );
                            let i0g = vpn_index_range_of(
                                eb,
                                rb,
                                lv,
                                s.0 as nat,
                                e.0 as nat,
                                seg_level.0 as nat,
                            ).0;
                            let a_int = pow2(eb * seg_level.0 as nat) as int;
                            Self::lemma_one_installed_preserved(
                                before_write,
                                *self,
                                seg_level.0 as nat,
                                s.0 as int,
                                s.0 + (vidx - i0g) * a_int,
                                vpn.0 as nat,
                                ppn.0 as nat,
                                flags.0,
                            );
                            // every page of the block just written now
                            // resolves to its new leaf
                            let f = flags.0;
                            assert((f | 1) & 1 == 1) by (bit_vector);
                            assert(spec_slot_is_valid(newbits));
                            assert(self.table_bits(hh)[vidx as int] == newbits);
                            assert forall|p: int|
                                vli.0 <= p < vli.0 + a_int implies #[trigger] self.spec_find(
                                p as nat,
                            ) == Ok::<(u64, int), PageError>(
                                (
                                    spec_entry_encode(
                                        ((ppn.0 + (p - p % a_int)) - vpn.0) as u64,
                                        f | 1,
                                    ),
                                    seg_level.0 as int,
                                ),
                            ) by {
                                lemma_seg_block_pages(
                                    eb,
                                    rb,
                                    44,
                                    lv,
                                    s.0 as nat,
                                    e.0 as nat,
                                    seg_level.0 as nat,
                                    vidx as nat,
                                    p as nat,
                                );
                                self.lemma_walk_table_same_indices(
                                    p as nat,
                                    s.0 as nat,
                                    seg_level.0 as int,
                                );
                                assert(self.walk_table(p as nat, seg_level.0 as int) == Some(hh));
                                self.lemma_walk_table_find(p as nat, seg_level.0 as int);
                                assert(vpn_index_of(eb, rb, lv, p as nat, seg_level.0 as nat)
                                    == vidx as nat);
                                assert(self.spec_walk(hh, p as nat, seg_level.0 as int) == Ok::<
                                    (u64, int),
                                    PageError,
                                >((newbits, seg_level.0 as int)));
                                assert(p % a_int == p - vli.0);
                                assert(((ppn.0 + (p - p % a_int)) - vpn.0) as u64 == this_ppn.0);
                            }
                            // the partial coverage extends by one block
                            assert(vli.0 == s.0 + (vidx - i0g) * a_int);
                            assert(s.0 + ((vidx + 1) - i0g) * a_int == vli.0 + a_int)
                                by (nonlinear_arith)
                                requires
                                    vli.0 == s.0 + (vidx - i0g) * a_int,
                            ;
                            assert forall|p: int|
                                s.0 <= p < s.0 + ((vidx + 1) - i0g) * a_int implies #[trigger] self.spec_find(
                                p as nat,
                            ) == Ok::<(u64, int), PageError>(
                                (
                                    spec_entry_encode(
                                        ((ppn.0 + (p - p % a_int)) - vpn.0) as u64,
                                        f | 1,
                                    ),
                                    seg_level.0 as int,
                                ),
                            ) by {
                                if p < s.0 + (vidx - i0g) * a_int {
                                    assert(self.seg_installed(
                                        seg_level.0 as nat,
                                        s.0 as int,
                                        s.0 + (vidx - i0g) * a_int,
                                        vpn.0 as nat,
                                        ppn.0 as nat,
                                        f,
                                    ));
                                } else {
                                    assert(vli.0 <= p < vli.0 + a_int);
                                }
                            }
                            assert(self.seg_installed(
                                seg_level.0 as nat,
                                s.0 as int,
                                s.0 + ((vidx + 1) - i0g) * a_int,
                                vpn.0 as nat,
                                ppn.0 as nat,
                                f,
                            ));
                        }
                        vidx = vidx + 1;
                    }
                    proof {
                        let i0g = vpn_index_range_of(
                            eb,
                            rb,
                            lv,
                            s.0 as nat,
                            e.0 as nat,
                            seg_level.0 as nat,
                        ).0;
                        let i1g = vpn_index_range_of(
                            eb,
                            rb,
                            lv,
                            s.0 as nat,
                            e.0 as nat,
                            seg_level.0 as nat,
                        ).1;
                        let a_int = pow2(eb * seg_level.0 as nat) as int;
                        assert(seg_written_end(eb, rb, lv, seg) == s.0 + (vidx - i0g) * a_int)
                            by {
                            if i1g >= i0g {
                                assert(vidx == i1g);
                            } else {
                                assert(vidx == i0g);
                                assert(s.0 + (i0g - i0g) * a_int == s.0) by (nonlinear_arith);
                            }
                        }
                        assert forall|k: int|
                            0 <= k < mp.pos as int && k < mp.segs().len() implies
                            self.seg_installed(
                            (#[trigger] mp.segs()[k]).0,
                            mp.segs()[k].1,
                            seg_written_end(eb, rb, lv, mp.segs()[k]),
                            vpn.0 as nat,
                            ppn.0 as nat,
                            flags.0,
                        ) by {
                            if k < mp.pos as int - 1 {
                                assert(self.segs_installed_upto(
                                    mp.segs(),
                                    mp.pos as int - 1,
                                    vpn.0 as nat,
                                    ppn.0 as nat,
                                    flags.0,
                                ));
                            } else {
                                assert(mp.segs()[k] == seg);
                                assert(self.seg_installed(
                                    seg_level.0 as nat,
                                    s.0 as int,
                                    s.0 + (vidx - i0g) * a_int,
                                    vpn.0 as nat,
                                    ppn.0 as nat,
                                    flags.0,
                                ));
                            }
                        }
                    }
                },
            }
        }
    }

    /// The table the walk of `q` reaches at level `l` when every slot
    /// from the root down to level `l + 1` on `q`'s indices holds a
    /// valid non-leaf entry: the chain of child pointers, followed
    /// without yet reading the level-`l` slot itself.
    pub open spec fn walk_table(self, q: nat, l: int) -> Option<Option<int>>
        decreases M::spec_max_levels() as int - l,
    {
        if l == M::spec_max_levels() as int - 1 {
            Some(None)
        } else if 0 <= l && l < M::spec_max_levels() as int - 1 {
            match self.walk_table(q, l + 1) {
                None => None,
                Some(h) => {
                    let bits = self.table_bits(h)[vpn_index_of(
                        M::spec_entries_bits(),
                        M::spec_root_index_bits(),
                        M::spec_max_levels(),
                        q,
                        (l + 1) as nat,
                    ) as int];
                    if spec_slot_is_valid(bits) && !spec_entry_is_leaf(bits) {
                        Some(Some(self.frame_index_of(spec_entry_ppn(bits) as int)))
                    } else {
                        None
                    }
                },
            }
        } else {
            None
        }
    }

    /// A reached table is a meaningful handle: the root exactly at the
    /// root level, and an owned table below it.
    proof fn lemma_walk_table_ok(self, q: nat, l: int)
        requires
            self.wf(),
            0 <= l < M::spec_max_levels(),
            self.walk_table(q, l) is Some,
        ensures
            self.h_ok(self.walk_table(q, l)->0),
            (self.walk_table(q, l)->0 is None) == (l + 1 == M::spec_max_levels() as int),
        decreases M::spec_max_levels() as int - l,
    {
        M::mode_properties();
        if l < M::spec_max_levels() as int - 1 {
            self.lemma_walk_table_ok(q, l + 1);
            let hp = self.walk_table(q, l + 1)->0;
            self.lemma_walk_index_in_range(hp, q, l + 1);
        }
    }

    /// What the walk finds is what the reached table's slot holds: when
    /// the chain reaches a table at level `l` and that table's slot for
    /// `q` is a valid leaf, the lookup returns exactly that entry.
    proof fn lemma_walk_table_find(self, q: nat, l: int)
        requires
            0 <= l < M::spec_max_levels(),
            self.walk_table(q, l) is Some,
        ensures
            self.spec_find(q) == self.spec_walk(self.walk_table(q, l)->0, q, l),
        decreases M::spec_max_levels() as int - l,
    {
        M::mode_properties();
        if l == M::spec_max_levels() as int - 1 {
        } else {
            self.lemma_walk_table_find(q, l + 1);
        }
    }

    /// Appending a fresh, unreferenced frame and its table reroutes no
    /// walk chain.
    proof fn lemma_walk_table_preserved_push(pre: Self, post: Self, q: nat, l: int)
        requires
            pre.wf(),
            post.wf(),
            post.root_table == pre.root_table,
            post.root_frame == pre.root_frame,
            post.frames@.len() == pre.frames@.len() + 1,
            post.tables@.len() == pre.tables@.len() + 1,
            forall|k: int| 0 <= k < pre.frames@.len() ==> post.frames@[k] == pre.frames@[k],
            forall|k: int| 0 <= k < pre.tables@.len() ==> post.tables@[k] == pre.tables@[k],
            !pre.owns(post.frames@[post.frames@.len() - 1].ppn.0 as int),
            0 <= l < M::spec_max_levels(),
            pre.walk_table(q, l) is Some,
        ensures
            post.walk_table(q, l) == pre.walk_table(q, l),
        decreases M::spec_max_levels() as int - l,
    {
        M::mode_properties();
        if l < M::spec_max_levels() as int - 1 {
            Self::lemma_walk_table_preserved_push(pre, post, q, l + 1);
            pre.lemma_walk_table_ok(q, l + 1);
            let hp = pre.walk_table(q, l + 1)->0;
            pre.lemma_walk_index_in_range(hp, q, l + 1);
            let idx = vpn_index_of(
                M::spec_entries_bits(),
                M::spec_root_index_bits(),
                M::spec_max_levels(),
                q,
                (l + 1) as nat,
            ) as int;
            assert(post.table_bits(hp) =~= pre.table_bits(hp));
            let bits = pre.table_bits(hp)[idx];
            assert(spec_slot_is_valid(bits) && !spec_entry_is_leaf(bits));
            let p = spec_entry_ppn(bits) as int;
            assert(pre.has_frame(p));
            let k0 = pre.frame_index_of(p);
            assert(0 <= k0 < pre.frames@.len() && pre.frames@[k0].ppn.0 == p);
            assert(post.frames@[k0].ppn.0 == p);
            assert(post.frame_index_of(p) == k0) by {
                let kp = post.frame_index_of(p);
                assert(0 <= kp < post.frames@.len() && post.frames@[kp].ppn.0 == p);
                if kp == post.frames@.len() - 1 {
                    assert(false);
                } else {
                    assert(pre.frames@[kp].ppn.0 == p);
                    if kp != k0 {
                        assert(pre.frames@[kp].ppn != pre.frames@[k0].ppn);
                        assert(false);
                    }
                }
            }
        }
    }

    /// Writing into a slot that held no valid entry reroutes no walk
    /// chain: every slot a chain reads is valid.
    proof fn lemma_walk_table_preserved_write(
        pre: Self,
        post: Self,
        hw: Option<int>,
        widx: int,
        b: u64,
        q: nat,
        l: int,
    )
        requires
            pre.wf(),
            post.root_frame == pre.root_frame,
            post.frames == pre.frames,
            post.tables@.len() == pre.tables@.len(),
            pre.h_ok(hw),
            0 <= widx < pre.table_bits(hw).len(),
            !spec_slot_is_valid(pre.table_bits(hw)[widx]),
            match hw {
                None => post.root_table.bits_seq() == pre.root_table.bits_seq().update(widx, b)
                    && post.tables == pre.tables,
                Some(kw) => post.root_table == pre.root_table && post.tables@[kw].bits_seq()
                    == pre.tables@[kw].bits_seq().update(widx, b) && (forall|j: int|
                    0 <= j < pre.tables@.len() && j != kw ==> post.tables@[j] == pre.tables@[j]),
            },
            0 <= l < M::spec_max_levels(),
            pre.walk_table(q, l) is Some,
        ensures
            post.walk_table(q, l) == pre.walk_table(q, l),
        decreases M::spec_max_levels() as int - l,
    {
        M::mode_properties();
        if l < M::spec_max_levels() as int - 1 {
            Self::lemma_walk_table_preserved_write(pre, post, hw, widx, b, q, l + 1);
            pre.lemma_walk_table_ok(q, l + 1);
            let hp = pre.walk_table(q, l + 1)->0;
            pre.lemma_walk_index_in_range(hp, q, l + 1);
            let idx = vpn_index_of(
                M::spec_entries_bits(),
                M::spec_root_index_bits(),
                M::spec_max_levels(),
                q,
                (l + 1) as nat,
            ) as int;
            let bits = pre.table_bits(hp)[idx];
            assert(spec_slot_is_valid(bits) && !spec_entry_is_leaf(bits));
            assert(post.table_bits(hp)[idx] == bits) by {
                if hp == hw {
                    assert(idx != widx);
                }
            }
        }
    }

    /// The chain reads only the indices above its target level, so two
    /// pages agreeing on those indices reach the same table.
    proof fn lemma_walk_table_same_indices(self, q1: nat, q2: nat, l: int)
        requires
            0 <= l < M::spec_max_levels(),
            forall|j: int|
                l < j < M::spec_max_levels() ==> vpn_index_of(
                    M::spec_entries_bits(),
                    M::spec_root_index_bits(),
                    M::spec_max_levels(),
                    q1,
                    j as nat,
                ) == #[trigger] vpn_index_of(
                    M::spec_entries_bits(),
                    M::spec_root_index_bits(),
                    M::spec_max_levels(),
                    q2,
                    j as nat,
                ),
        ensures
            self.walk_table(q1, l) == self.walk_table(q2, l),
        decreases M::spec_max_levels() as int - l,
    {
        M::mode_properties();
        if l < M::spec_max_levels() as int - 1 {
            self.lemma_walk_table_same_indices(q1, q2, l + 1);
            assert(vpn_index_of(
                M::spec_entries_bits(),
                M::spec_root_index_bits(),
                M::spec_max_levels(),
                q2,
                (l + 1) as nat,
            ) == vpn_index_of(
                M::spec_entries_bits(),
                M::spec_root_index_bits(),
                M::spec_max_levels(),
                q1,
                (l + 1) as nat,
            ));
        }
    }

    /// A table handle names the root or one of the owned tables.
    pub open spec fn h_ok(self, h: Option<int>) -> bool {
        match h {
            None => true,
            Some(k) => 0 <= k < self.tables@.len(),
        }
    }

    /// The index a walk reads at level `l` is inside the table the
    /// handle names: the root is as wide as the root index, the inner
    /// tables as wide as the inner index.
    proof fn lemma_walk_index_in_range(self, h: Option<int>, q: nat, l: int)
        requires
            self.wf(),
            self.h_ok(h),
            (h is None) == (l + 1 == M::spec_max_levels() as int),
            0 <= l < M::spec_max_levels(),
        ensures
            vpn_index_of(
                M::spec_entries_bits(),
                M::spec_root_index_bits(),
                M::spec_max_levels(),
                q,
                l as nat,
            ) < self.table_bits(h).len(),
    {
        M::mode_properties();
        let ib = index_bits_of(
            M::spec_entries_bits(),
            M::spec_root_index_bits(),
            M::spec_max_levels(),
            l as nat,
        );
        lemma_pow2_pos(M::spec_entries_bits() * (l as nat));
        lemma_pow2_pos(ib);
        vstd::arithmetic::div_mod::lemma_mod_division_less_than_divisor(
            (q / pow2(M::spec_entries_bits() * (l as nat))) as int,
            pow2(ib) as int,
        );
    }

    /// Appending a fresh, unreferenced frame and its table changes no
    /// successful walk: a successful walk reads only slots that exist
    /// and are valid, and every one of them is untouched.
    proof fn lemma_walk_preserved_push(pre: Self, post: Self, h: Option<int>, q: nat, l: int)
        requires
            pre.wf(),
            post.wf(),
            post.root_table == pre.root_table,
            post.root_frame == pre.root_frame,
            post.frames@.len() == pre.frames@.len() + 1,
            post.tables@.len() == pre.tables@.len() + 1,
            forall|k: int| 0 <= k < pre.frames@.len() ==> post.frames@[k] == pre.frames@[k],
            forall|k: int| 0 <= k < pre.tables@.len() ==> post.tables@[k] == pre.tables@[k],
            !pre.owns(post.frames@[post.frames@.len() - 1].ppn.0 as int),
            pre.h_ok(h),
            (h is None) == (l + 1 == M::spec_max_levels() as int),
            0 <= l < M::spec_max_levels(),
            pre.spec_walk(h, q, l) is Ok,
        ensures
            post.spec_walk(h, q, l) == pre.spec_walk(h, q, l),
        decreases l,
    {
        M::mode_properties();
        pre.lemma_walk_index_in_range(h, q, l);
        let idx = vpn_index_of(
            M::spec_entries_bits(),
            M::spec_root_index_bits(),
            M::spec_max_levels(),
            q,
            l as nat,
        ) as int;
        let bits = pre.table_bits(h)[idx];
        assert(post.table_bits(h) =~= pre.table_bits(h));
        assert(spec_slot_is_valid(bits));
        if !spec_entry_is_leaf(bits) {
            assert(l > 0);
            let p = spec_entry_ppn(bits) as int;
            assert(pre.has_frame(p));
            let k0 = pre.frame_index_of(p);
            assert(0 <= k0 < pre.frames@.len() && pre.frames@[k0].ppn.0 == p);
            assert(post.frames@[k0].ppn.0 == p);
            assert(post.frame_index_of(p) == k0) by {
                let kp = post.frame_index_of(p);
                assert(0 <= kp < post.frames@.len() && post.frames@[kp].ppn.0 == p);
                if kp == post.frames@.len() - 1 {
                    assert(pre.has_frame(p));
                    assert(false);
                } else {
                    assert(pre.frames@[kp].ppn.0 == p);
                    if kp != k0 {
                        assert(pre.frames@[kp].ppn != pre.frames@[k0].ppn);
                        assert(false);
                    }
                }
            }
            Self::lemma_walk_preserved_push(pre, post, Some(k0), q, l - 1);
        }
    }

    /// Writing a new value into a slot that held no valid entry changes
    /// no successful walk: the walk's path reads valid slots only, so
    /// the written slot is not on it.
    proof fn lemma_walk_preserved_write(
        pre: Self,
        post: Self,
        hw: Option<int>,
        widx: int,
        b: u64,
        h: Option<int>,
        q: nat,
        l: int,
    )
        requires
            pre.wf(),
            post.root_frame == pre.root_frame,
            post.frames == pre.frames,
            post.tables@.len() == pre.tables@.len(),
            pre.h_ok(hw),
            0 <= widx < pre.table_bits(hw).len(),
            !spec_slot_is_valid(pre.table_bits(hw)[widx]),
            match hw {
                None => post.root_table.bits_seq() == pre.root_table.bits_seq().update(widx, b)
                    && post.tables == pre.tables,
                Some(kw) => post.root_table == pre.root_table && post.tables@[kw].bits_seq()
                    == pre.tables@[kw].bits_seq().update(widx, b) && (forall|j: int|
                    0 <= j < pre.tables@.len() && j != kw ==> post.tables@[j] == pre.tables@[j]),
            },
            pre.h_ok(h),
            (h is None) == (l + 1 == M::spec_max_levels() as int),
            0 <= l < M::spec_max_levels(),
            pre.spec_walk(h, q, l) is Ok,
        ensures
            post.spec_walk(h, q, l) == pre.spec_walk(h, q, l),
        decreases l,
    {
        M::mode_properties();
        pre.lemma_walk_index_in_range(h, q, l);
        let idx = vpn_index_of(
            M::spec_entries_bits(),
            M::spec_root_index_bits(),
            M::spec_max_levels(),
            q,
            l as nat,
        ) as int;
        let bits = pre.table_bits(h)[idx];
        assert(spec_slot_is_valid(bits));
        assert(post.table_bits(h)[idx] == bits) by {
            if h == hw {
                assert(idx != widx);
            }
        }
        if !spec_entry_is_leaf(bits) {
            assert(l > 0);
            let p = spec_entry_ppn(bits) as int;
            assert(pre.has_frame(p));
            let k0 = pre.frame_index_of(p);
            assert(0 <= k0 < pre.frames@.len() && pre.frames@[k0].ppn.0 == p);
            assert(post.frame_index_of(p) == pre.frame_index_of(p));
            Self::lemma_walk_preserved_write(pre, post, hw, widx, b, Some(k0), q, l - 1);
        }
    }

    /// The lookup form of the push lemma: appending a fresh frame and
    /// table preserves every successful lookup.
    proof fn lemma_find_preserved_push(pre: Self, post: Self)
        requires
            pre.wf(),
            post.wf(),
            post.root_table == pre.root_table,
            post.root_frame == pre.root_frame,
            post.frames@.len() == pre.frames@.len() + 1,
            post.tables@.len() == pre.tables@.len() + 1,
            forall|k: int| 0 <= k < pre.frames@.len() ==> post.frames@[k] == pre.frames@[k],
            forall|k: int| 0 <= k < pre.tables@.len() ==> post.tables@[k] == pre.tables@[k],
            !pre.owns(post.frames@[post.frames@.len() - 1].ppn.0 as int),
        ensures
            forall|q: nat|
                pre.spec_find(q) is Ok ==> #[trigger] post.spec_find(q) == pre.spec_find(q),
    {
        assert forall|q: nat|
            pre.spec_find(q) is Ok implies #[trigger] post.spec_find(q) == pre.spec_find(q) by {
            M::mode_properties();
            Self::lemma_walk_preserved_push(
                pre,
                post,
                None,
                q,
                M::spec_max_levels() as int - 1,
            );
        }
    }

    /// The lookup form of the write lemma: writing into an invalid slot
    /// preserves every successful lookup.
    proof fn lemma_find_preserved_write(pre: Self, post: Self, hw: Option<int>, widx: int, b: u64)
        requires
            pre.wf(),
            post.root_frame == pre.root_frame,
            post.frames == pre.frames,
            post.tables@.len() == pre.tables@.len(),
            pre.h_ok(hw),
            0 <= widx < pre.table_bits(hw).len(),
            !spec_slot_is_valid(pre.table_bits(hw)[widx]),
            match hw {
                None => post.root_table.bits_seq() == pre.root_table.bits_seq().update(widx, b)
                    && post.tables == pre.tables,
                Some(kw) => post.root_table == pre.root_table && post.tables@[kw].bits_seq()
                    == pre.tables@[kw].bits_seq().update(widx, b) && (forall|j: int|
                    0 <= j < pre.tables@.len() && j != kw ==> post.tables@[j] == pre.tables@[j]),
            },
        ensures
            forall|q: nat|
                pre.spec_find(q) is Ok ==> #[trigger] post.spec_find(q) == pre.spec_find(q),
    {
        assert forall|q: nat|
            pre.spec_find(q) is Ok implies #[trigger] post.spec_find(q) == pre.spec_find(q) by {
            M::mode_properties();
            Self::lemma_walk_preserved_write(
                pre,
                post,
                hw,
                widx,
                b,
                None,
                q,
                M::spec_max_levels() as int - 1,
            );
        }
    }

    /// Every page of `[lo, hi)` resolves to the leaf entry a mapping
    /// call wrote for its level-`l` block: a valid leaf at level `l`
    /// carrying `fl` with validity implied, whose stored physical page
    /// is the block's base moved from virtual start `vpn` to physical
    /// start `ppn` — so each page translates to `ppn + (page - vpn)`.
    pub open spec fn seg_installed(
        self,
        l: nat,
        lo: int,
        hi: int,
        vpn: nat,
        ppn: nat,
        fl: u8,
    ) -> bool {
        forall|p: int|
            lo <= p < hi ==> #[trigger] self.spec_find(p as nat) == Ok::<(u64, int), PageError>(
                (
                    spec_entry_encode(
                        ((ppn + (p - p % (pow2(M::spec_entries_bits() * l) as int))) - vpn) as u64,
                        fl | 1,
                    ),
                    l as int,
                ),
            )
    }

    /// The first `upto` segments of `segs` are fully installed over
    /// their written ranges.
    pub open spec fn segs_installed_upto(
        self,
        segs: Seq<Seg>,
        upto: int,
        vpn: nat,
        ppn: nat,
        fl: u8,
    ) -> bool {
        forall|k: int|
            0 <= k < upto && k < segs.len() ==> self.seg_installed(
                (#[trigger] segs[k]).0,
                segs[k].1,
                seg_written_end(
                    M::spec_entries_bits(),
                    M::spec_root_index_bits(),
                    M::spec_max_levels(),
                    segs[k],
                ),
                vpn,
                ppn,
                fl,
            )
    }

    /// Installed pages are successful lookups, so any step that keeps
    /// successful lookups keeps them installed.
    proof fn lemma_one_installed_preserved(
        pre: Self,
        post: Self,
        l: nat,
        lo: int,
        hi: int,
        vpn: nat,
        ppn: nat,
        fl: u8,
    )
        requires
            pre.seg_installed(l, lo, hi, vpn, ppn, fl),
            forall|q: nat|
                pre.spec_find(q) is Ok ==> #[trigger] post.spec_find(q) == pre.spec_find(q),
        ensures
            post.seg_installed(l, lo, hi, vpn, ppn, fl),
    {
        assert forall|p: int|
            lo <= p < hi implies #[trigger] post.spec_find(p as nat) == Ok::<
            (u64, int),
            PageError,
        >(
            (
                spec_entry_encode(
                    ((ppn + (p - p % (pow2(M::spec_entries_bits() * l) as int))) - vpn) as u64,
                    fl | 1,
                ),
                l as int,
            ),
        ) by {
            assert(pre.spec_find(p as nat) == Ok::<(u64, int), PageError>(
                (
                    spec_entry_encode(
                        ((ppn + (p - p % (pow2(M::spec_entries_bits() * l) as int)))
                            - vpn) as u64,
                        fl | 1,
                    ),
                    l as int,
                ),
            ));
        }
    }

    /// The same, for a bundle of installed segments.
    proof fn lemma_installed_preserved(
        pre: Self,
        post: Self,
        segs: Seq<Seg>,
        upto: int,
        vpn: nat,
        ppn: nat,
        fl: u8,
    )
        requires
            pre.segs_installed_upto(segs, upto, vpn, ppn, fl),
            forall|q: nat|
                pre.spec_find(q) is Ok ==> #[trigger] post.spec_find(q) == pre.spec_find(q),
        ensures
            post.segs_installed_upto(segs, upto, vpn, ppn, fl),
    {
        assert forall|k: int|
            0 <= k < upto && k < segs.len() implies post.seg_installed(
            (#[trigger] segs[k]).0,
            segs[k].1,
            seg_written_end(
                M::spec_entries_bits(),
                M::spec_root_index_bits(),
                M::spec_max_levels(),
                segs[k],
            ),
            vpn,
            ppn,
            fl,
        ) by {
            assert(pre.seg_installed(
                segs[k].0,
                segs[k].1,
                seg_written_end(
                    M::spec_entries_bits(),
                    M::spec_root_index_bits(),
                    M::spec_max_levels(),
                    segs[k],
                ),
                vpn,
                ppn,
                fl,
            ));
            Self::lemma_one_installed_preserved(
                pre,
                post,
                segs[k].0,
                segs[k].1,
                seg_written_end(
                    M::spec_entries_bits(),
                    M::spec_root_index_bits(),
                    M::spec_max_levels(),
                    segs[k],
                ),
                vpn,
                ppn,
                fl,
            );
        }
    }

    /// Mapping then looking up: in a state where a mapping call's
    /// segments are installed, every page a segment wrote resolves to a
    /// leaf at that segment's level, carrying the requested flags with
    /// validity implied, that translates the page to its own physical
    /// page — the stored page number plus the page's offset in its
    /// block equals `ppn + (page - vpn)`.
    pub proof fn lemma_mapped_pages_resolve(
        self,
        vpn: nat,
        ppn: nat,
        n: nat,
        fl: u8,
        k: int,
        p: int,
    )
        requires
            self.segs_installed_upto(
                spec_solve(M::spec_entries_bits(), M::spec_max_levels(), vpn, ppn, n),
                spec_solve(
                    M::spec_entries_bits(),
                    M::spec_max_levels(),
                    vpn,
                    ppn,
                    n,
                ).len() as int,
                vpn,
                ppn,
                fl,
            ),
            vpn + n <= pow2(
                M::spec_entries_bits() * ((M::spec_max_levels() - 1) as nat)
                    + M::spec_root_index_bits(),
            ),
            ppn + n <= 0x1000_0000_0000,
            fl & 0xE != 0,
            0 <= k < spec_solve(M::spec_entries_bits(), M::spec_max_levels(), vpn, ppn, n).len(),
            spec_solve(M::spec_entries_bits(), M::spec_max_levels(), vpn, ppn, n)[k].1 <= p
                < seg_written_end(
                M::spec_entries_bits(),
                M::spec_root_index_bits(),
                M::spec_max_levels(),
                spec_solve(M::spec_entries_bits(), M::spec_max_levels(), vpn, ppn, n)[k],
            ),
        ensures
            ({
                let seg = spec_solve(M::spec_entries_bits(), M::spec_max_levels(), vpn, ppn, n)[k];
                let a = pow2(M::spec_entries_bits() * seg.0) as int;
                let r = self.spec_find(p as nat);
                &&& r is Ok
                &&& r->Ok_0.1 == seg.0 as int
                &&& spec_entry_is_leaf(r->Ok_0.0)
                &&& crate::table::spec_entry_flags(r->Ok_0.0) == (fl | 1)
                &&& spec_entry_ppn(r->Ok_0.0) + (p % a) == ppn + (p - vpn)
            }),
    {
        M::mode_properties();
        let eb = M::spec_entries_bits();
        let rb = M::spec_root_index_bits();
        let lv = M::spec_max_levels();
        let seg = spec_solve(eb, lv, vpn, ppn, n)[k];
        let a = pow2(eb * seg.0) as int;
        lemma_pow2_pos(eb * seg.0);
        lemma_solve_segs_wf(eb, lv, vpn, ppn, n);
        assert(seg.0 < lv && vpn <= seg.1 < seg.2 <= vpn + n);
        assert(seg.1 % a == 0 && seg.2 % a == 0);
        let i0 = vpn_index_range_of(eb, rb, lv, seg.1 as nat, seg.2 as nat, seg.0).0;
        let i1 = vpn_index_range_of(eb, rb, lv, seg.1 as nat, seg.2 as nat, seg.0).1;
        let wend = seg_written_end(eb, rb, lv, seg);
        // the written range stays inside the segment
        if i1 > i0 {
            lemma_seg_index_step(
                eb,
                rb,
                44,
                lv,
                seg.1 as nat,
                seg.2 as nat,
                seg.0,
                (i1 - 1) as nat,
            );
            let vli_last = vpn_level_index_of(eb, 44, lv, seg.1 as nat, seg.0, (i1 - 1) as nat);
            assert(vli_last == seg.1 + ((i1 - 1) - i0) * a);
            assert(vli_last as int % a == 0) by {
                let t = seg.1 / a;
                lemma_fundamental_div_mod(seg.1, a);
                assert(vli_last as int == a * ((t + (i1 - 1)) - i0)) by (nonlinear_arith)
                    requires
                        vli_last == seg.1 + ((i1 - 1) - i0) * a,
                        seg.1 == a * t,
                ;
                vstd::arithmetic::div_mod::lemma_mod_multiples_basic((t + (i1 - 1)) - i0, a);
                assert(((t + (i1 - 1)) - i0) * a == a * ((t + (i1 - 1)) - i0))
                    by (nonlinear_arith);
            }
            crate::mode::lemma_aligned_step_le(vli_last as int, seg.2, a);
            assert(wend == vli_last + a) by (nonlinear_arith)
                requires
                    wend == seg.1 + (i1 - i0) * a,
                    vli_last == seg.1 + ((i1 - 1) - i0) * a,
            ;
            assert(wend <= seg.2);
        } else {
            assert(wend == seg.1) by {
                if i1 >= i0 {
                    assert(i1 == i0);
                    assert(seg.1 + (i1 - i0) * a == seg.1) by (nonlinear_arith)
                        requires
                            i1 == i0,
                    ;
                }
            }
            assert(false);
        }
        // the installed fact for this page
        assert(self.seg_installed(seg.0, seg.1, wend, vpn, ppn, fl));
        assert(self.spec_find(p as nat) == Ok::<(u64, int), PageError>(
            (
                spec_entry_encode(((ppn + (p - p % a)) - vpn) as u64, fl | 1),
                seg.0 as int,
            ),
        ));
        // the block base is inside the segment, so the stored page
        // number is in encoding range and decodes exactly
        let base = p - p % a;
        assert(seg.1 <= base <= p) by {
            lemma_fundamental_div_mod(p, a);
            vstd::arithmetic::div_mod::lemma_mod_division_less_than_divisor(p, a);
            let q = p / a;
            let t = seg.1 / a;
            lemma_fundamental_div_mod(seg.1, a);
            assert(t <= q) by (nonlinear_arith)
                requires
                    seg.1 == a * t,
                    p == a * q + p % a,
                    0 <= p % a < a,
                    seg.1 <= p,
                    a >= 1,
            ;
            assert(seg.1 <= a * q) by (nonlinear_arith)
                requires
                    seg.1 == a * t,
                    t <= q,
                    a >= 1,
            ;
            assert(base == a * q);
        }
        let arg = (ppn + base) - vpn;
        assert(0 <= arg < 0x1000_0000_0000);
        assert(arg as u64 == arg);
        lemma_entry_encode_decode(arg as u64, fl | 1);
        assert((fl | 1) & 0xE != 0) by (bit_vector)
            requires
                fl & 0xE != 0,
        ;
    }

    /// Tear the address space down, returning the root frame and every
    /// owned intermediate frame to the allocator exactly once. Verified
    /// code has no scope-triggered release, so the owner calls this on
    /// every exit path instead; afterwards no owned page is still out,
    /// and no page the space did not own has been touched.
    pub fn release_frames<A: FrameAllocator>(self, alloc: &mut A)
        requires
            old(alloc).inv(),
            self.wf(),
            forall|p: int| self.owns(p) ==> old(alloc).taken().contains(p),
        ensures
            final(alloc).inv(),
            forall|p: int| self.owns(p) ==> !final(alloc).taken().contains(p),
            forall|p: int|
                !self.owns(p) ==> final(alloc).taken().contains(p) == old(alloc).taken().contains(
                    p,
                ),
    {
        let ghost orig = self;
        let mut s = self;
        proof {
            assert forall|k: int|
                0 <= k < s.frames@.len() implies alloc.taken().contains(
                (#[trigger] s.frames@[k]).ppn.0 as int,
            ) by {
                assert(orig.has_frame(s.frames@[k].ppn.0 as int));
                assert(orig.owns(s.frames@[k].ppn.0 as int));
            }
            assert(orig.owns(orig.root_frame.ppn.0 as int));
        }
        loop
            invariant
                alloc.inv(),
                s.root_frame == orig.root_frame,
                s.frames@.len() <= orig.frames@.len(),
                s.frames@ =~= orig.frames@.take(s.frames@.len() as int),
                orig.wf(),
                forall|k: int|
                    0 <= k < s.frames@.len() ==> alloc.taken().contains(
                        (#[trigger] s.frames@[k]).ppn.0 as int,
                    ),
                alloc.taken().contains(orig.root_frame.ppn.0 as int),
                forall|p: int|
                    !orig.owns(p) ==> alloc.taken().contains(p) == old(alloc).taken().contains(p),
                forall|p: int|
                    orig.owns(p) && alloc.taken().contains(p) ==> p
                        == orig.root_frame.ppn.0 as int || (exists|k: int|
                        0 <= k < s.frames@.len() && (#[trigger] s.frames@[k]).ppn.0 == p),
            ensures
                s.frames@.len() == 0,
            decreases s.frames@.len(),
        {
            let popped = s.frames.pop();
            match popped {
                None => {
                    break ;
                },
                Some(fb) => {
                    let ghost fp = fb.ppn.0 as int;
                    let ghost len_now = s.frames@.len() as int;
                    proof {
                        assert(orig.frames@[len_now] == fb);
                    }
                    fb.release(alloc);
                    proof {
                        assert forall|k: int|
                            0 <= k < s.frames@.len() implies alloc.taken().contains(
                            (#[trigger] s.frames@[k]).ppn.0 as int,
                        ) by {
                            assert(orig.frames@[k] == s.frames@[k]);
                            assert(orig.frames@[k].ppn != orig.frames@[len_now].ppn);
                        }
                        assert(orig.root_frame.ppn.0 as int != fp);
                        assert forall|p: int|
                            orig.owns(p) && alloc.taken().contains(p) implies p
                            == orig.root_frame.ppn.0 as int || (exists|k: int|
                            0 <= k < s.frames@.len() && (#[trigger] s.frames@[k]).ppn.0 == p) by {
                            if p != orig.root_frame.ppn.0 as int {
                                let k = choose|k: int|
                                    0 <= k < len_now + 1 && (#[trigger] orig.frames@.take(
                                        len_now + 1,
                                    )[k]).ppn.0 == p;
                                assert(orig.frames@.take(len_now + 1)[k] == orig.frames@[k]);
                                assert(p != fp);
                                assert(k != len_now);
                                assert(s.frames@[k].ppn.0 == p);
                            }
                        }
                        assert forall|p: int|
                            !orig.owns(p) implies alloc.taken().contains(p) == old(
                            alloc,
                        ).taken().contains(p) by {
                            if p == fp {
                                assert(orig.frames@[len_now].ppn.0 == p);
                                assert(orig.has_frame(p));
                            }
                        }
                    }
                },
            }
        }
        let ghost rp = s.root_frame.ppn.0 as int;
        let ghost before_taken = alloc.taken();
        s.root_frame.release(alloc);
        proof {
            assert forall|p: int| orig.owns(p) implies !alloc.taken().contains(p) by {
                if p != rp {
                    if before_taken.contains(p) {
                        assert(p == rp || (exists|k: int|
                            0 <= k < s.frames@.len() && (#[trigger] s.frames@[k]).ppn.0 == p));
                        let k = choose|k: int|
                            0 <= k < s.frames@.len() && (#[trigger] s.frames@[k]).ppn.0 == p;
                        assert(false);
                    }
                }
            }
            assert forall|p: int|
                !orig.owns(p) implies alloc.taken().contains(p) == old(alloc).taken().contains(
                p,
            ) by {
                if p == rp {
                    assert(orig.owns(p));
                }
            }
        }
    }

    /// The index of the owned frame holding page `ppn`, if any.
    fn find_frame_index(&self, ppn: PhysPageNum) -> (r: Option<usize>)
        ensures
            match r {
                Some(k) => k < self.frames@.len() && self.frames@[k as int].ppn == ppn,
                None => !self.has_frame(ppn.0 as int),
            },
    {
        let n = self.frames.len();
        let mut k: usize = 0;
        while k < n
            invariant
                k <= n,
                n == self.frames@.len(),
                forall|i: int| 0 <= i < k ==> (#[trigger] self.frames@[i]).ppn.0 != ppn.0,
            decreases n - k,
        {
            if self.frames[k].phys_page_num().0 == ppn.0 {
                return Some(k);
            }
            k = k + 1;
        }
        None
    }

    /// Resolve virtual page `vpn` to its leaf entry and the level the
    /// leaf sits at, walking from the root; fail with `InvalidEntry` on
    /// the first invalid slot, and with `NotLeafInLowestPage` when the
    /// lowest level holds a valid entry that is not a leaf.
    pub fn find_ppn(&self, vpn: VirtPageNum) -> (r: Result<(Sv39PageEntry, PageLevel), PageError>)
        requires
            self.wf(),
        ensures
            match r {
                Ok(el) => el.1.0 < M::spec_max_levels() && self.spec_find(vpn.0 as nat) == Ok::<
                    (u64, int),
                    PageError,
                >((el.0.bits, el.1.0 as int)),
                Err(e) => self.spec_find(vpn.0 as nat) == Err::<(u64, int), PageError>(e),
            },
    {
        proof {
            M::mode_properties();
        }
        let max = M::max_page_levels();
        self.walk_from(None, vpn, max - 1)
    }

    /// The executable walk matching `spec_walk`, one table at a time.
    fn walk_from(&self, h: Option<usize>, vpn: VirtPageNum, l: u8) -> (r: Result<
        (Sv39PageEntry, PageLevel),
        PageError,
    >)
        requires
            self.wf(),
            l < M::spec_max_levels(),
            (h is None) == (l as nat + 1 == M::spec_max_levels()),
            match h {
                Some(k) => k < self.tables@.len(),
                None => true,
            },
        ensures
            match r {
                Ok(el) => el.1.0 < M::spec_max_levels() && self.spec_walk(
                    match h {
                        None => None,
                        Some(k) => Some(k as int),
                    },
                    vpn.0 as nat,
                    l as int,
                ) == Ok::<(u64, int), PageError>((el.0.bits, el.1.0 as int)),
                Err(e) => self.spec_walk(
                    match h {
                        None => None,
                        Some(k) => Some(k as int),
                    },
                    vpn.0 as nat,
                    l as int,
                ) == Err::<(u64, int), PageError>(e),
            },
        decreases l,
    {
        proof {
            M::mode_properties();
        }
        let idx = M::vpn_index(vpn, PageLevel(l));
        let bits = match h {
            None => self.root_table.slot_bits(idx),
            Some(k) => self.tables[k].slot_bits(idx),
        };
        if bits & 1 != 1 {
            Err(PageError::InvalidEntry)
        } else if bits & 0xE != 0 {
            Ok((Sv39PageEntry { bits }, PageLevel(l)))
        } else if l == 0 {
            Err(PageError::NotLeafInLowestPage)
        } else {
            let child = PhysPageNum((bits >> 10) & 0xFFF_FFFF_FFFF);
            match self.find_frame_index(child) {
                Some(k) => {
                    proof {
                        let ghost hh = match h {
                            None => None::<int>,
                            Some(kk) => Some(kk as int),
                        };
                        assert(self.has_frame(child.0 as int)) by {
                            assert(self.frames@[k as int].ppn.0 == child.0);
                        }
                        let kc = self.frame_index_of(child.0 as int);
                        assert(self.frames@[kc].ppn.0 == child.0);
                        if kc != k as int {
                            assert(self.frames@[kc].ppn == self.frames@[k as int].ppn);
                            assert(false);
                        }
                    }
                    self.walk_from(Some(k), vpn, l - 1)
                },
                None => {
                    proof {
                        // well-formedness: a valid non-leaf slot always
                        // resolves to an owned frame
                        assert(false);
                    }
                    Err(PageError::InvalidEntry)
                },
            }
        }
    }
}

} // verus!
