//! Cross-space frame reads: resolving a byte range of a foreign address
//! space into physically addressed fragments.
//!
//! The caller owns an identity mapping over the foreign space's physical
//! pages, so each fragment (physical page, byte offset, byte length) can
//! be read directly. Fragments are produced in ascending virtual-address
//! order; each stops at its leaf page's end, and the lengths add up to
//! exactly the requested byte count.
use vstd::arithmetic::power2::{lemma2_to64, lemma_pow2_adds, pow2};
use vstd::prelude::*;

use crate::addr::{PhysPageNum, VirtAddr, VirtPageNum};
use crate::mode::{align_in_frames_of, page_size_of, PageMode};
use crate::space::{PageError, PagedAddrSpace};
use crate::table::spec_entry_ppn;

verus! {

/// One fragment: a physical page, a byte offset within its page, and a
/// byte count.
pub type Frag = (nat, nat, nat);

/// The total byte count of a fragment sequence.
pub open spec fn frag_sum(s: Seq<Frag>) -> int
    decreases s.len(),
{
    if s.len() == 0 {
        0
    } else {
        s[0].2 + frag_sum(s.skip(1))
    }
}

/// A page-number value wrapped to the machine word, as the page stepping
/// of the walk wraps.
pub open spec fn wrap64(x: int) -> nat {
    (x % (pow2(64) as int)) as nat
}

/// The fragments the read loop produces from a page, an offset into
/// that page's leaf, and a remaining byte count: resolve the page, take
/// as many bytes as the leaf page still holds, move to the next page at
/// the leaf's level, and continue from offset zero.
pub open spec fn spec_translate_loop<M: PageMode>(
    s: PagedAddrSpace<M>,
    vpn: nat,
    offset: nat,
    len: nat,
) -> Result<Seq<Frag>, PageError>
    decreases len,
{
    if len == 0 {
        Ok(Seq::empty())
    } else {
        match s.spec_find(vpn) {
            Err(e) => Err(e),
            Ok((bits, l)) => {
                let ps = page_size_of(
                    M::spec_entries_bits(),
                    M::spec_frame_size_bits(),
                    l as nat,
                );
                let cur = if ps > offset {
                    if len <= ps - offset {
                        len
                    } else {
                        (ps - offset) as nat
                    }
                } else {
                    len
                };
                let rest = spec_translate_loop(
                    s,
                    wrap64((vpn + align_in_frames_of(M::spec_entries_bits(), l as nat)) as int),
                    0,
                    (len - cur) as nat,
                );
                match rest {
                    Err(e) => Err(e),
                    Ok(frags) => Ok(
                        seq![(spec_entry_ppn(bits) as nat, offset, cur)] + frags,
                    ),
                }
            },
        }
    }
}

/// What a read of `len` bytes from virtual address `vaddr` of space `s`
/// resolves to: the loop above, started at the address's page with the
/// byte offset within that page's leaf.
pub open spec fn spec_translate<M: PageMode>(
    s: PagedAddrSpace<M>,
    vaddr: nat,
    len: nat,
) -> Result<Seq<Frag>, PageError> {
    let vpn = vaddr / pow2(M::spec_frame_size_bits());
    if len == 0 {
        Ok(Seq::empty())
    } else {
        match s.spec_find(vpn) {
            Err(e) => Err(e),
            Ok((bits, l)) => spec_translate_loop(
                s,
                vpn,
                vaddr % page_size_of(M::spec_entries_bits(), M::spec_frame_size_bits(), l as nat),
                len,
            ),
        }
    }
}

/// The sum of one fragment and a tail.
proof fn lemma_frag_sum_cons(x: Frag, rest: Seq<Frag>)
    ensures
        frag_sum(seq![x] + rest) == x.2 + frag_sum(rest),
{
    assert((seq![x] + rest).skip(1) =~= rest);
    assert((seq![x] + rest)[0] == x);
}

/// Whatever fragments the loop produces add up to exactly the requested
/// byte count.
pub proof fn lemma_translate_loop_sum<M: PageMode>(
    s: PagedAddrSpace<M>,
    vpn: nat,
    offset: nat,
    len: nat,
)
    ensures
        match spec_translate_loop(s, vpn, offset, len) {
            Ok(frags) => frag_sum(frags) == len,
            Err(_) => true,
        },
    decreases len,
{
    if len != 0 {
        match s.spec_find(vpn) {
            Err(_) => {},
            Ok((bits, l)) => {
                let ps = page_size_of(
                    M::spec_entries_bits(),
                    M::spec_frame_size_bits(),
                    l as nat,
                );
                let cur = if ps > offset {
                    if len <= ps - offset {
                        len
                    } else {
                        (ps - offset) as nat
                    }
                } else {
                    len
                };
                let nvpn = wrap64((vpn + align_in_frames_of(M::spec_entries_bits(), l as nat)) as int);
                lemma_translate_loop_sum(s, nvpn, 0, (len - cur) as nat);
                match spec_translate_loop(s, nvpn, 0, (len - cur) as nat) {
                    Err(_) => {},
                    Ok(frags) => {
                        lemma_frag_sum_cons((spec_entry_ppn(bits) as nat, offset, cur), frags);
                    },
                }
            },
        }
    }
}

/// Resolve the byte range `[vaddr2, vaddr2 + len_bytes2)` of the foreign
/// space `as2` into fragments of physically contiguous memory, in
/// ascending virtual-address order; the fragment lengths add up to the
/// requested length exactly. Fails with the lookup's error when any
/// traversed page is unmapped or structurally invalid. The read is
/// all-or-nothing: where a callback-driven reader would already have
/// acted on the fragments resolved before the failing page, this one
/// hands out no fragment at all on failure, so a caller acts either on
/// the whole range or on none of it.
pub fn translate_frame_read<M2: PageMode>(
    as2: &PagedAddrSpace<M2>,
    vaddr2: VirtAddr,
    len_bytes2: u64,
) -> (r: Result<Vec<(PhysPageNum, u64, u64)>, PageError>)
    requires
        as2.wf(),
    ensures
        match r {
            Ok(v) => Ok::<Seq<Frag>, PageError>(
                v@.map_values(
                    |t: (PhysPageNum, u64, u64)| (t.0.0 as nat, t.1 as nat, t.2 as nat),
                ),
            ) == spec_translate(*as2, vaddr2.0 as nat, len_bytes2 as nat) && frag_sum(
                v@.map_values(
                    |t: (PhysPageNum, u64, u64)| (t.0.0 as nat, t.1 as nat, t.2 as nat),
                ),
            ) == len_bytes2,
            Err(e) => spec_translate(*as2, vaddr2.0 as nat, len_bytes2 as nat) == Err::<
                Seq<Frag>,
                PageError,
            >(e),
        },
{
    proof {
        M2::mode_properties();
    }
    let mut out: Vec<(PhysPageNum, u64, u64)> = Vec::new();
    let mut vpn2 = vaddr2.page_number::<M2>();
    let mut remaining = len_bytes2;
    if remaining == 0 {
        proof {
            assert(out@.map_values(
                |t: (PhysPageNum, u64, u64)| (t.0.0 as nat, t.1 as nat, t.2 as nat),
            ) =~= Seq::<Frag>::empty());
        }
        return Ok(out);
    }
    let first = as2.find_ppn(vpn2);
    let lvl0 = match first {
        Ok(el) => el.1,
        Err(e) => {
            return Err(e);
        },
    };
    let mut cur_offset = vaddr2.page_offset::<M2>(lvl0);
    loop
        invariant
            as2.wf(),
            remaining >= 1,
            match spec_translate_loop(*as2, vpn2.0 as nat, cur_offset as nat, remaining as nat) {
                Ok(frags) => spec_translate(*as2, vaddr2.0 as nat, len_bytes2 as nat) == Ok::<
                    Seq<Frag>,
                    PageError,
                >(
                    out@.map_values(
                        |t: (PhysPageNum, u64, u64)| (t.0.0 as nat, t.1 as nat, t.2 as nat),
                    ) + frags,
                ),
                Err(e) => spec_translate(*as2, vaddr2.0 as nat, len_bytes2 as nat) == Err::<
                    Seq<Frag>,
                    PageError,
                >(e),
            },
        decreases remaining,
    {
        proof {
            M2::mode_properties();
        }
        let found = as2.find_ppn(vpn2);
        let (entry, lvl) = match found {
            Ok(el) => el,
            Err(e) => {
                return Err(e);
            },
        };
        let layout = M2::get_layout_for_level(lvl);
        proof {
            assert(M2::spec_entries_bits() * lvl.0 as nat <= 36) by (nonlinear_arith)
                requires
                    M2::spec_entries_bits() <= 12,
                    lvl.0 as nat <= 3,
            ;
            lemma_pow2_adds(M2::spec_entries_bits() * lvl.0 as nat, M2::spec_frame_size_bits());
            vstd::bits::lemma_u64_pow2_no_overflow(
                M2::spec_entries_bits() * lvl.0 as nat + M2::spec_frame_size_bits(),
            );
        }
        let ps = layout.page_size::<M2>();
        let ppn = entry.ppn();
        let cur_len = if ps > cur_offset {
            if remaining <= ps - cur_offset {
                remaining
            } else {
                ps - cur_offset
            }
        } else {
            remaining
        };
        let ghost out_before = out@;
        let ghost off_before = cur_offset;
        let ghost rem_before = remaining;
        out.push((ppn, cur_offset, cur_len));
        remaining = remaining - cur_len;
        proof {
            let m = |t: (PhysPageNum, u64, u64)| (t.0.0 as nat, t.1 as nat, t.2 as nat);
            assert(out@.map_values(m) =~= out_before.map_values(m) + seq![
                (ppn.0 as nat, off_before as nat, cur_len as nat),
            ]);
        }
        if remaining == 0 {
            proof {
                let m = |t: (PhysPageNum, u64, u64)| (t.0.0 as nat, t.1 as nat, t.2 as nat);
                let frags = spec_translate_loop(
                    *as2,
                    vpn2.0 as nat,
                    off_before as nat,
                    rem_before as nat,
                );
                assert(spec_translate_loop(
                    *as2,
                    wrap64(
                        vpn2.0 + align_in_frames_of(M2::spec_entries_bits(), lvl.0 as nat) as int,
                    ),
                    0,
                    0,
                ) == Ok::<Seq<Frag>, PageError>(Seq::empty()));
                assert(frags == Ok::<Seq<Frag>, PageError>(
                    seq![(ppn.0 as nat, off_before as nat, cur_len as nat)] + Seq::empty(),
                ));
                assert(seq![(ppn.0 as nat, off_before as nat, cur_len as nat)] + Seq::<
                    Frag,
                >::empty() =~= seq![(ppn.0 as nat, off_before as nat, cur_len as nat)]);
                assert(out_before.map_values(m) + seq![
                    (ppn.0 as nat, off_before as nat, cur_len as nat),
                ] =~= out@.map_values(m));
                lemma_translate_loop_sum(
                    *as2,
                    vaddr2.0 as nat / pow2(M2::spec_frame_size_bits()),
                    vaddr2.0 as nat % page_size_of(
                        M2::spec_entries_bits(),
                        M2::spec_frame_size_bits(),
                        spec_first_level(*as2, vaddr2.0 as nat),
                    ),
                    len_bytes2 as nat,
                );
            }
            return Ok(out);
        }
        cur_offset = 0;
        let step = layout.align_in_frames();
        let ghost vpn_before = vpn2.0;
        vpn2 = VirtPageNum(vpn2.0.wrapping_add(step));
        proof {
            lemma2_to64();
            vstd::arithmetic::power2::lemma2_to64_rest();
            assert(vpn2.0 as nat == wrap64(
                vpn_before + align_in_frames_of(M2::spec_entries_bits(), lvl.0 as nat) as int,
            ));
            let m = |t: (PhysPageNum, u64, u64)| (t.0.0 as nat, t.1 as nat, t.2 as nat);
            let frag = (ppn.0 as nat, off_before as nat, cur_len as nat);
            let older = spec_translate_loop(
                *as2,
                vpn_before as nat,
                off_before as nat,
                rem_before as nat,
            );
            let newer = spec_translate_loop(*as2, vpn2.0 as nat, 0 as nat, remaining as nat);
            assert(ps == page_size_of(
                M2::spec_entries_bits(),
                M2::spec_frame_size_bits(),
                lvl.0 as nat,
            ));
            match newer {
                Ok(rest) => {
                    assert(older == Ok::<Seq<Frag>, PageError>(seq![frag] + rest));
                    assert(out@.map_values(m) + rest =~= out_before.map_values(m) + (seq![frag]
                        + rest));
                },
                Err(e) => {
                    assert(older == Err::<Seq<Frag>, PageError>(e));
                },
            }
        }
    }
}

/// The level of the leaf covering the first page of `vaddr`, where the
/// lookup succeeds; used only to phrase the starting offset.
pub open spec fn spec_first_level<M: PageMode>(s: PagedAddrSpace<M>, vaddr: nat) -> nat {
    match s.spec_find(vaddr / pow2(M::spec_frame_size_bits())) {
        Ok((bits, l)) => l as nat,
        Err(_) => 0,
    }
}

} // verus!
