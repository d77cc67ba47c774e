//! The paging-mode abstraction and its two concrete schemes.
//!
//! A paging mode is a capability set: frame size, physical-page-number
//! width, level count and per-level table fan-out, together with the
//! operations that drive table walks: extracting a virtual page's index at
//! a level, computing the index range a virtual-page range occupies in one
//! table, and recomputing a virtual page from an index. Two schemes are
//! provided: `Sv39`, the standard 3-level single-stage translation, and
//! `Sv39x4`, its hypervisor second-stage variant whose root table carries
//! two extra index bits and is four times as large.
use vstd::arithmetic::power2::{
    lemma2_to64, lemma_pow2_adds, lemma_pow2_pos, lemma_pow2_strictly_increases, pow2,
};
use vstd::arithmetic::div_mod::{
    lemma_breakdown, lemma_div_denominator, lemma_div_is_ordered, lemma_fundamental_div_mod,
};
use vstd::bits::{
    lemma_low_bits_mask_values, lemma_u64_low_bits_mask_is_mod, lemma_u64_shl_is_mul,
    lemma_u64_shr_is_div, low_bits_mask,
};
use vstd::prelude::*;

use crate::addr::VirtPageNum;
use crate::level::{LevelIter, PageLayout, PageLevel};
use crate::table::{
    spec_entry_encode, spec_entry_is_leaf, spec_entry_ppn, spec_slot_is_valid, Sv39Flags,
    Sv39PageEntry, Sv39PageSlot, Sv39PageTable,
};

verus! {

/// Alignment, in frames, of a page of level `l` under a scheme with
/// `eb` fan-out bits per inner table: the fan-out raised to the depth.
pub open spec fn align_in_frames_of(eb: nat, l: nat) -> nat {
    pow2(eb * l)
}

/// How many index bits a virtual page contributes at level `l` of a
/// scheme with `levels` levels, `eb` inner fan-out bits and `rb` root
/// fan-out bits: the root level may carry more bits than the inner ones.
pub open spec fn index_bits_of(eb: nat, rb: nat, levels: nat, l: nat) -> nat {
    if l + 1 == levels {
        rb
    } else {
        eb
    }
}

/// Number of slots of a table: the root table may be wider.
pub open spec fn table_len_of(eb: nat, rb: nat, root: bool) -> nat {
    if root {
        pow2(rb)
    } else {
        pow2(eb)
    }
}

/// The table index of virtual page `vpn` at level `l`.
pub open spec fn vpn_index_of(eb: nat, rb: nat, levels: nat, vpn: nat, l: nat) -> nat {
    (vpn / pow2(eb * l)) % pow2(index_bits_of(eb, rb, levels, l))
}

/// Bytes covered by one page of level `l` with `fsb` frame-size bits.
pub open spec fn page_size_of(eb: nat, fsb: nat, l: nat) -> nat {
    pow2(eb * l) * pow2(fsb)
}

/// How many low bits of a virtual page are cleared when its index at
/// level `l` is replaced: everything below the next level up, or the full
/// physical-page-number width (`ppnb` bits) at the root.
pub open spec fn clear_bits_of(eb: nat, ppnb: nat, levels: nat, l: nat) -> nat {
    if l + 1 == levels {
        ppnb
    } else {
        eb * (l + 1)
    }
}

/// The virtual page obtained from `vpn` by replacing its index at level
/// `l` with `idx` and clearing every finer index.
pub open spec fn vpn_level_index_of(
    eb: nat,
    ppnb: nat,
    levels: nat,
    vpn: nat,
    l: nat,
    idx: nat,
) -> nat {
    ((vpn - vpn % pow2(clear_bits_of(eb, ppnb, levels, l))) + idx * pow2(eb * l)) as nat
}

/// The index range a virtual-page range `[start, end)` occupies in one
/// table of level `l`: when the range runs into the next higher-level
/// block, the end index is clamped to the table width.
pub open spec fn vpn_index_range_of(
    eb: nat,
    rb: nat,
    levels: nat,
    start: nat,
    end: nat,
    l: nat,
) -> (nat, nat) {
    let s = vpn_index_of(eb, rb, levels, start, l);
    let e = vpn_index_of(eb, rb, levels, end, l);
    if l + 1 < levels && end / pow2(eb * (l + 1)) > start / pow2(eb * (l + 1)) {
        (s, pow2(index_bits_of(eb, rb, levels, l)))
    } else {
        (s, e)
    }
}

/// `align_in_frames_of` under mode `M`.
pub open spec fn spec_align<M: PageMode>(l: nat) -> nat {
    align_in_frames_of(M::spec_entries_bits(), l)
}

/// `index_bits_of` under mode `M`.
pub open spec fn spec_index_bits<M: PageMode>(l: nat) -> nat {
    index_bits_of(M::spec_entries_bits(), M::spec_root_index_bits(), M::spec_max_levels(), l)
}

/// `table_len_of` under mode `M`.
pub open spec fn spec_table_len<M: PageMode>(root: bool) -> nat {
    table_len_of(M::spec_entries_bits(), M::spec_root_index_bits(), root)
}

/// `vpn_index_of` under mode `M`.
pub open spec fn spec_vpn_index<M: PageMode>(vpn: nat, l: nat) -> nat {
    vpn_index_of(M::spec_entries_bits(), M::spec_root_index_bits(), M::spec_max_levels(), vpn, l)
}

/// `page_size_of` under mode `M`.
pub open spec fn spec_page_size<M: PageMode>(l: nat) -> nat {
    page_size_of(M::spec_entries_bits(), M::spec_frame_size_bits(), l)
}

/// `vpn_level_index_of` under mode `M`.
pub open spec fn spec_vpn_level_index<M: PageMode>(vpn: nat, l: nat, idx: nat) -> nat {
    vpn_level_index_of(
        M::spec_entries_bits(),
        M::spec_ppn_bits(),
        M::spec_max_levels(),
        vpn,
        l,
        idx,
    )
}

/// `vpn_index_range_of` under mode `M`.
pub open spec fn spec_vpn_index_range<M: PageMode>(start: nat, end: nat, l: nat) -> (nat, nat) {
    vpn_index_range_of(
        M::spec_entries_bits(),
        M::spec_root_index_bits(),
        M::spec_max_levels(),
        start,
        end,
        l,
    )
}

/// Where the leaf entries of one solver segment land: for a segment
/// `[s, e)` aligned to level `l`, every index `vidx` of the segment's
/// index range recomputes to a virtual page inside `[s, e)`, offset from
/// `s` by whole level-`l` pages.
pub proof fn lemma_seg_index_step(
    eb: nat,
    rb: nat,
    ppnb: nat,
    lv: nat,
    s: nat,
    e: nat,
    l: nat,
    vidx: nat,
)
    requires
        1 <= eb <= rb,
        1 <= lv,
        l < lv,
        s < e,
        s % pow2(eb * l) == 0,
        e % pow2(eb * l) == 0,
        e <= pow2(eb * ((lv - 1) as nat) + rb),
        eb * ((lv - 1) as nat) + rb <= ppnb,
        vpn_index_range_of(eb, rb, lv, s, e, l).0 <= vidx < vpn_index_range_of(
            eb,
            rb,
            lv,
            s,
            e,
            l,
        ).1,
    ensures
        vpn_level_index_of(eb, ppnb, lv, s, l, vidx) == s + (vidx - vpn_index_range_of(
            eb,
            rb,
            lv,
            s,
            e,
            l,
        ).0) * pow2(eb * l),
        s <= vpn_level_index_of(eb, ppnb, lv, s, l, vidx) < e,
        l + 1 < lv ==> (pow2(eb * (l + 1)) as int) * (s as int / (pow2(eb * (l + 1)) as int))
            <= vpn_level_index_of(eb, ppnb, lv, s, l, vidx) as int && vpn_level_index_of(
            eb,
            ppnb,
            lv,
            s,
            l,
            vidx,
        ) + pow2(eb * l) <= (pow2(eb * (l + 1)) as int) * (s as int / (pow2(
            eb * (l + 1),
        ) as int) + 1),
{
    let a = pow2(eb * l) as int;
    let ib = index_bits_of(eb, rb, lv, l);
    let b = pow2(ib) as int;
    lemma_pow2_pos(eb * l);
    lemma_pow2_pos(ib);
    let t = s as int / a;
    let u = e as int / a;
    lemma_fundamental_div_mod(s as int, a);
    lemma_fundamental_div_mod(e as int, a);
    assert(s == a * t && e == a * u);
    let i0 = vpn_index_range_of(eb, rb, lv, s, e, l).0;
    let i1 = vpn_index_range_of(eb, rb, lv, s, e, l).1;
    assert(i0 == (t % b) as nat) by {
        assert(vpn_index_of(eb, rb, lv, s, l) == (s as int / a) % b);
    }
    // the cleared prefix of `s` is everything above its level index block
    let cb = clear_bits_of(eb, ppnb, lv, l);
    assert(a * b == pow2(eb * l + ib)) by {
        lemma_pow2_adds(eb * l, ib);
    }
    assert(b >= 1 && a >= 1);
    assert(a * b >= 1) by (nonlinear_arith)
        requires
            a >= 1,
            b >= 1,
    ;
    lemma_breakdown(s as int, a, b);
    assert(s as int % (a * b) == a * (t % b));
    let cleared = s as int - s as int % (pow2(cb) as int);
    assert(cleared == s - a * (t % b)) by {
        if l + 1 == lv {
            // at the root the whole page number is cleared, and `s` is
            // below both widths
            assert(eb * l + ib == eb * ((lv - 1) as nat) + rb);
            assert(pow2(cb) >= a * b) by {
                if eb * ((lv - 1) as nat) + rb < ppnb {
                    lemma_pow2_strictly_increases(eb * ((lv - 1) as nat) + rb, ppnb);
                }
            }
            assert(s < a * b);
            lemma_small_mod_int(s as int, a * b);
            lemma_small_mod_int(s as int, pow2(cb) as int);
            assert(s as int % (a * b) == s);
        } else {
            assert(cb == eb * (l + 1));
            assert(eb * (l + 1) == eb * l + eb) by (nonlinear_arith);
            assert(ib == eb);
        }
    }
    assert(0 <= s as int % (pow2(cb) as int) <= s as int) by {
        lemma_pow2_pos(cb);
        vstd::arithmetic::div_mod::lemma_mod_division_less_than_divisor(
            s as int,
            pow2(cb) as int,
        );
        if s as int >= pow2(cb) as int {
        } else {
            lemma_small_mod_int(s as int, pow2(cb) as int);
        }
    }
    let vli = vpn_level_index_of(eb, ppnb, lv, s, l, vidx);
    assert(vli == cleared + vidx * a);
    assert(vli == s + (vidx - i0) * a) by (nonlinear_arith)
        requires
            vli == cleared + vidx * a,
            cleared == s - a * (i0 as int),
    ;
    assert(s <= vli) by (nonlinear_arith)
        requires
            vli == s + (vidx - i0) * a,
            vidx >= i0,
            a >= 1,
    ;
    // the index range never runs past the segment's end
    if l + 1 < lv && e as int / pow2(eb * (l + 1)) as int > s as int / pow2(eb * (l + 1)) as int {
        // clamped: the segment fills the rest of this block, whose end
        // the coarser block boundary bounds
        assert(i1 == b);
        assert(ib == eb);
        assert(pow2(eb * (l + 1)) == a * b) by {
            assert(eb * (l + 1) == eb * l + eb) by (nonlinear_arith);
            lemma_pow2_adds(eb * l, eb);
        }
        let sq = s as int / (a * b);
        let eq = e as int / (a * b);
        assert(e as int / (pow2(eb * (l + 1)) as int) == eq);
        assert(s as int / (pow2(eb * (l + 1)) as int) == sq);
        assert(eq >= sq + 1);
        lemma_fundamental_div_mod(s as int, a * b);
        lemma_fundamental_div_mod(e as int, a * b);
        vstd::arithmetic::div_mod::lemma_mod_division_less_than_divisor(s as int, a * b);
        vstd::arithmetic::div_mod::lemma_mod_division_less_than_divisor(e as int, a * b);
        assert(cleared == (a * b) * sq) by (nonlinear_arith)
            requires
                s as int == (a * b) * sq + s as int % (a * b),
                cleared == s as int - s as int % (a * b),
        ;
        assert(vli < cleared + b * a) by (nonlinear_arith)
            requires
                vli == cleared + vidx * a,
                vidx < b,
                a >= 1,
        ;
        assert(cleared + b * a == (a * b) * (sq + 1)) by (nonlinear_arith)
            requires
                cleared == (a * b) * sq,
        ;
        assert(e >= (a * b) * (sq + 1)) by (nonlinear_arith)
            requires
                e as int == (a * b) * eq + e as int % (a * b),
                e as int % (a * b) >= 0,
                eq >= sq + 1,
                a >= 1,
                b >= 1,
        ;
        // the written blocks stay inside the coarser block of `s`
        assert((a * b) * sq <= vli as int) by (nonlinear_arith)
            requires
                vli == cleared + vidx * a,
                cleared == (a * b) * sq,
                a >= 1,
        ;
        assert(vli + a <= (a * b) * (sq + 1)) by (nonlinear_arith)
            requires
                vli == cleared + vidx * a,
                cleared == (a * b) * sq,
                vidx < b,
                a >= 1,
        ;
    } else {
        // unclamped: both ends lie in one block, and the end index is
        // the end's own index
        assert(i1 == (u % b) as nat);
        assert(t / b == u / b) by {
            if l + 1 < lv {
                assert(pow2(eb * (l + 1)) == a * b) by {
                    assert(eb * (l + 1) == eb * l + eb) by (nonlinear_arith);
                    lemma_pow2_adds(eb * l, eb);
                }
                lemma_div_is_ordered(s as int, e as int, pow2(eb * (l + 1)) as int);
                lemma_div_denominator(s as int, a, b);
                lemma_div_denominator(e as int, a, b);
            } else {
                assert(eb * l + ib == eb * ((lv - 1) as nat) + rb);
                assert(e <= a * b);
                assert(u <= b) by (nonlinear_arith)
                    requires
                        e as int == a * u,
                        e <= a * b,
                        a >= 1,
                ;
                assert(t < u) by (nonlinear_arith)
                    requires
                        s as int == a * t,
                        e as int == a * u,
                        s < e,
                        a >= 1,
                ;
                if u == b {
                    // then the end index wraps to zero and the range is
                    // empty, contradicting the given index
                    lemma_mod_self_0_int(b);
                    assert(i1 == 0);
                    assert(false);
                }
                lemma_small_div_int(t, b);
                lemma_small_div_int(u, b);
            }
        }
        lemma_fundamental_div_mod(t, b);
        lemma_fundamental_div_mod(u, b);
        assert(vli < e) by (nonlinear_arith)
            requires
                vli == s + (vidx - i0) * a,
                s as int == a * t,
                e as int == a * u,
                t == b * (t / b) + i0,
                u == b * (u / b) + i1,
                t / b == u / b,
                vidx < i1,
                a >= 1,
    ;
        if l + 1 < lv {
            // the written blocks stay inside the coarser block of `s`
            let aa = pow2(eb * (l + 1)) as int;
            assert(aa == a * b) by {
                assert(eb * (l + 1) == eb * l + eb) by (nonlinear_arith);
                lemma_pow2_adds(eb * l, eb);
            }
            assert(a * b >= 1) by (nonlinear_arith)
                requires
                    a >= 1,
                    b >= 1,
            ;
            let cap = s as int / aa;
            lemma_fundamental_div_mod(s as int, aa);
            vstd::arithmetic::div_mod::lemma_mod_division_less_than_divisor(s as int, aa);
            assert(aa * cap <= s);
            lemma_div_denominator(s as int, a, b);
            assert(t / b == cap);
            assert(vli as int % a == 0) by {
                assert(vli as int == a * ((t + vidx) - i0)) by (nonlinear_arith)
                    requires
                        vli == s + (vidx - i0) * a,
                        s as int == a * t,
                ;
                vstd::arithmetic::div_mod::lemma_mod_multiples_basic((t + vidx) - i0, a);
                assert(((t + vidx) - i0) * a == a * ((t + vidx) - i0)) by (nonlinear_arith);
            }
            assert(e as int % a == 0) by {
                vstd::arithmetic::div_mod::lemma_mod_multiples_basic(u, a);
                assert(u * a == a * u) by (nonlinear_arith);
            }
            lemma_aligned_step_le(vli as int, e as int, a);
            assert(i1 < b) by {
                vstd::arithmetic::div_mod::lemma_mod_division_less_than_divisor(u, b);
            }
            assert(e < aa * (cap + 1)) by (nonlinear_arith)
                requires
                    e as int == a * u,
                    u == b * (u / b) + i1,
                    u / b == cap,
                    i1 < b,
                    a >= 1,
                    b >= 1,
                    aa == a * b,
            ;
        }
    }
}

/// Every page of one written block: for block index `vidx` of segment
/// `[s, e)` at level `l`, a page `p` inside the block shares `s`'s table
/// indices above `l`, has `vidx` as its own level-`l` index, and sits at
/// offset `p % align` from the block's base.
pub proof fn lemma_seg_block_pages(
    eb: nat,
    rb: nat,
    ppnb: nat,
    lv: nat,
    s: nat,
    e: nat,
    l: nat,
    vidx: nat,
    p: nat,
)
    requires
        1 <= eb <= rb,
        1 <= lv,
        l < lv,
        s < e,
        s % pow2(eb * l) == 0,
        e % pow2(eb * l) == 0,
        e <= pow2(eb * ((lv - 1) as nat) + rb),
        eb * ((lv - 1) as nat) + rb <= ppnb,
        vpn_index_range_of(eb, rb, lv, s, e, l).0 <= vidx < vpn_index_range_of(
            eb,
            rb,
            lv,
            s,
            e,
            l,
        ).1,
        vpn_level_index_of(eb, ppnb, lv, s, l, vidx) <= p < vpn_level_index_of(
            eb,
            ppnb,
            lv,
            s,
            l,
            vidx,
        ) + pow2(eb * l),
    ensures
        forall|j: int|
            l < j < lv ==> #[trigger] vpn_index_of(eb, rb, lv, p, j as nat) == vpn_index_of(
                eb,
                rb,
                lv,
                s,
                j as nat,
            ),
        vpn_index_of(eb, rb, lv, p, l) == vidx,
        p % pow2(eb * l) == p - vpn_level_index_of(eb, ppnb, lv, s, l, vidx),
{
    lemma_seg_index_step(eb, rb, ppnb, lv, s, e, l, vidx);
    let a = pow2(eb * l) as int;
    let ib = index_bits_of(eb, rb, lv, l);
    let b = pow2(ib) as int;
    lemma_pow2_pos(eb * l);
    lemma_pow2_pos(ib);
    let vli = vpn_level_index_of(eb, ppnb, lv, s, l, vidx) as int;
    let i0 = vpn_index_range_of(eb, rb, lv, s, e, l).0;
    let i1 = vpn_index_range_of(eb, rb, lv, s, e, l).1;
    let t = s as int / a;
    let u = e as int / a;
    lemma_fundamental_div_mod(s as int, a);
    lemma_fundamental_div_mod(e as int, a);
    assert(s == a * t && e == a * u);
    assert(i0 == (t % b) as nat) by {
        assert(vpn_index_of(eb, rb, lv, s, l) == (s as int / a) % b);
    }
    assert(vli == a * ((t + vidx) - i0)) by (nonlinear_arith)
        requires
            vli == s + (vidx - i0) * a,
            s as int == a * t,
    ;
    // the page's own division by the level alignment
    assert(p as int == ((t + vidx) - i0) * a + (p - vli)) by (nonlinear_arith)
        requires
            vli == a * ((t + vidx) - i0),
    ;
    vstd::arithmetic::div_mod::lemma_fundamental_div_mod_converse_div(
        p as int,
        a,
        (t + vidx) - i0,
        p - vli,
    );
    vstd::arithmetic::div_mod::lemma_fundamental_div_mod_converse_mod(
        p as int,
        a,
        (t + vidx) - i0,
        p - vli,
    );
    assert(p as int / a == (t + vidx) - i0);
    assert(p as int % a == p - vli);
    // the level index of every block page is the block's index
    lemma_fundamental_div_mod(t, b);
    assert(vidx < b) by {
        if l + 1 < lv && e / pow2(eb * (l + 1)) > s / pow2(eb * (l + 1)) {
            assert(i1 == b);
        } else {
            assert(i1 == (u % b) as nat) by {
                assert(vpn_index_of(eb, rb, lv, e, l) == (e as int / a) % b);
            }
            vstd::arithmetic::div_mod::lemma_mod_division_less_than_divisor(u, b);
        }
    }
    assert(p as int / a == (t / b) * b + vidx) by (nonlinear_arith)
        requires
            p as int / a == (t + vidx) - i0,
            t == b * (t / b) + i0 as int,
    ;
    vstd::arithmetic::div_mod::lemma_fundamental_div_mod_converse_mod(
        p as int / a,
        b,
        t / b,
        vidx as int,
    );
    assert(vpn_index_of(eb, rb, lv, p, l) == (p as int / a) % b);
    // above the target level the block never leaves `s`'s path
    if l + 1 < lv {
        let aa = pow2(eb * (l + 1)) as int;
        lemma_pow2_pos(eb * (l + 1));
        let cap = s as int / aa;
        assert(aa * cap <= vli && vli + a <= aa * (cap + 1));
        assert(p as int == cap * aa + (p - aa * cap)) by (nonlinear_arith);
        assert(0 <= p - aa * cap < aa) by (nonlinear_arith)
            requires
                aa * cap <= vli <= p,
                p < vli + a,
                vli + a <= aa * (cap + 1),
        ;
        vstd::arithmetic::div_mod::lemma_fundamental_div_mod_converse_div(
            p as int,
            aa,
            cap,
            p - aa * cap,
        );
        assert(p as int / aa == s as int / aa);
        assert forall|j: int|
            l < j < lv implies #[trigger] vpn_index_of(eb, rb, lv, p, j as nat) == vpn_index_of(
            eb,
            rb,
            lv,
            s,
            j as nat,
        ) by {
            let jn = j as nat;
            let d = pow2(eb * ((j - l - 1) as nat)) as int;
            lemma_pow2_pos(eb * ((j - l - 1) as nat));
            assert(pow2(eb * jn) == aa * d) by {
                assert(eb * jn == eb * (l + 1) + eb * ((j - l - 1) as nat)) by (nonlinear_arith)
                    requires
                        jn == j,
                        l < j,
                ;
                lemma_pow2_adds(eb * (l + 1), eb * ((j - l - 1) as nat));
            }
            lemma_div_denominator(p as int, aa, d);
            lemma_div_denominator(s as int, aa, d);
            assert(p as int / (pow2(eb * jn) as int) == s as int / (pow2(eb * jn) as int));
            assert(vpn_index_of(eb, rb, lv, p, jn) == (p as int / (pow2(eb * jn) as int)) % (
            pow2(index_bits_of(eb, rb, lv, jn)) as int));
            assert(vpn_index_of(eb, rb, lv, s, jn) == (s as int / (pow2(eb * jn) as int)) % (
            pow2(index_bits_of(eb, rb, lv, jn)) as int));
        }
    }
}

/// Between two distinct multiples of `a` lies at least one whole `a`.
pub proof fn lemma_aligned_step_le(x: int, y: int, a: int)
    requires
        a >= 1,
        0 <= x < y,
        x % a == 0,
        y % a == 0,
    ensures
        x + a <= y,
{
    lemma_fundamental_div_mod(x, a);
    lemma_fundamental_div_mod(y, a);
    let qx = x / a;
    let qy = y / a;
    assert(qx < qy) by (nonlinear_arith)
        requires
            x == a * qx,
            y == a * qy,
            x < y,
            a >= 1,
    ;
    assert(x + a <= y) by (nonlinear_arith)
        requires
            x == a * qx,
            y == a * qy,
            qx < qy,
            a >= 1,
    ;
}

/// A value below the modulus is its own remainder.
proof fn lemma_small_mod_int(x: int, m: int)
    requires
        0 <= x < m,
    ensures
        x % m == x,
{
    lemma_fundamental_div_mod(x, m);
    let q = x / m;
    assert(q == 0) by (nonlinear_arith)
        requires
            x == m * q + x % m,
            0 <= x % m < m,
            0 <= x < m,
    ;
}

/// A value below the divisor divides to zero.
proof fn lemma_small_div_int(x: int, d: int)
    requires
        0 <= x < d,
    ensures
        x / d == 0,
{
    lemma_fundamental_div_mod(x, d);
    let q = x / d;
    assert(q == 0) by (nonlinear_arith)
        requires
            x == d * q + x % d,
            0 <= x % d < d,
            0 <= x < d,
    ;
}

/// The modulus divides itself.
proof fn lemma_mod_self_0_int(m: int)
    requires
        m >= 1,
    ensures
        (m % m) == 0,
{
    lemma_fundamental_div_mod(m, m);
    let q = m / m;
    assert(m % m == 0) by (nonlinear_arith)
        requires
            m == m * q + m % m,
            0 <= m % m < m,
    ;
}

/// A paged memory management scheme: constants describing its geometry and
/// the index arithmetic of its table walks.
pub trait PageMode: Sized + Copy {
    /// Binary bits of the byte count of one frame, the unit every page is
    /// a multiple of.
    spec fn spec_frame_size_bits() -> nat;

    /// Bits of a physical page number under this mode.
    spec fn spec_ppn_bits() -> nat;

    /// Number of page-table levels.
    spec fn spec_max_levels() -> nat;

    /// Binary bits of the fan-out of one inner table.
    spec fn spec_entries_bits() -> nat;

    /// Binary bits of the fan-out of the root table; at least the inner
    /// fan-out, and larger for second-stage schemes.
    spec fn spec_root_index_bits() -> nat;

    /// The geometry constants stay in the ranges the rest of the crate's
    /// arithmetic needs.
    proof fn mode_properties()
        ensures
            1 <= Self::spec_max_levels() <= 4,
            1 <= Self::spec_entries_bits() <= 12,
            Self::spec_entries_bits() <= Self::spec_root_index_bits() <= 16,
            8 <= Self::spec_frame_size_bits() <= 16,
            Self::spec_ppn_bits() == 44,
            Self::spec_entries_bits() * (Self::spec_max_levels() - 1)
                + Self::spec_root_index_bits() <= 44,
    ;

    /// Frame size bits as a run-time value.
    fn frame_size_bits() -> (r: u64)
        ensures
            r == Self::spec_frame_size_bits(),
    ;

    /// Physical-page-number bits as a run-time value.
    fn ppn_bits() -> (r: u64)
        ensures
            r == Self::spec_ppn_bits(),
    ;

    /// Level count as a run-time value.
    fn max_page_levels() -> (r: u8)
        ensures
            r == Self::spec_max_levels(),
    ;

    /// Inner fan-out bits as a run-time value.
    fn page_entries_bits() -> (r: u8)
        ensures
            r == Self::spec_entries_bits(),
    ;

    /// Root fan-out bits as a run-time value.
    fn root_index_bits() -> (r: u8)
        ensures
            r == Self::spec_root_index_bits(),
    ;

    /// The alignment descriptor of one level: fan-out raised to the
    /// level's depth.
    fn get_layout_for_level(level: PageLevel) -> (r: PageLayout)
        requires
            level.0 < Self::spec_max_levels(),
        ensures
            r.align_in_frames == pow2(Self::spec_entries_bits() * level.0 as nat),
    {
        let eb: u8 = Self::page_entries_bits();
        let mut align: u64 = 1;
        let mut i: u8 = 0;
        proof {
            Self::mode_properties();
            lemma2_to64();
        }
        while i < level.0
            invariant
                i <= level.0,
                level.0 < Self::spec_max_levels(),
                eb == Self::spec_entries_bits(),
                1 <= Self::spec_max_levels() <= 4,
                1 <= Self::spec_entries_bits() <= 12,
                align == pow2(Self::spec_entries_bits() * i as nat),
            decreases level.0 - i,
        {
            proof {
                assert(eb as nat * ((i + 1) as nat) == eb as nat * (i as nat) + eb as nat)
                    by (nonlinear_arith);
                assert(eb as nat * ((i + 1) as nat) <= 36) by (nonlinear_arith)
                    requires
                        eb as nat <= 12,
                        i as nat + 1 <= 3,
                ;
                lemma_pow2_adds(Self::spec_entries_bits() * i as nat, eb as nat);
                vstd::bits::lemma_u64_pow2_no_overflow(eb as nat * ((i + 1) as nat));
                lemma_u64_shl_is_mul(align, eb as u64);
            }
            align = align << (eb as u64);
            i = i + 1;
        }
        PageLayout { align_in_frames: align }
    }

    /// The page-table levels from the root down to `level`, inclusive.
    fn visit_levels_until(level: PageLevel) -> (r: LevelIter)
        requires
            level.0 < Self::spec_max_levels(),
        ensures
            r.wf(),
            r.to_seq().len() == Self::spec_max_levels() - level.0,
            forall|i: int|
                0 <= i < r.to_seq().len() ==> r.to_seq()[i] == PageLevel(
                    (Self::spec_max_levels() - 1 - i) as u8,
                ),
    {
        proof {
            Self::mode_properties();
        }
        let max = Self::max_page_levels();
        LevelIter::falling_includes(max - 1, level.0)
    }

    /// The page-table levels from the root down to `level`, exclusive.
    fn visit_levels_before(level: PageLevel) -> (r: LevelIter)
        requires
            level.0 < Self::spec_max_levels(),
        ensures
            r.wf(),
            r.to_seq().len() == Self::spec_max_levels() - 1 - level.0,
            forall|i: int|
                0 <= i < r.to_seq().len() ==> r.to_seq()[i] == PageLevel(
                    (Self::spec_max_levels() - 1 - i) as u8,
                ),
    {
        proof {
            Self::mode_properties();
        }
        let max = Self::max_page_levels();
        LevelIter::falling_excludes(max - 1, level.0)
    }

    /// The page-table levels from `level` down to the leaf, inclusive.
    fn visit_levels_from(level: PageLevel) -> (r: LevelIter)
        requires
            level.0 < Self::spec_max_levels(),
        ensures
            r.wf(),
            r.to_seq().len() == level.0 + 1,
            forall|i: int|
                0 <= i < r.to_seq().len() ==> r.to_seq()[i] == PageLevel((level.0 - i) as u8),
    {
        proof {
            Self::mode_properties();
        }
        LevelIter::falling_includes(level.0, 0)
    }

    /// The table index of virtual page `vpn` at `level`.
    fn vpn_index(vpn: VirtPageNum, level: PageLevel) -> (r: usize)
        requires
            level.0 < Self::spec_max_levels(),
        ensures
            r == vpn_index_of(
                Self::spec_entries_bits(),
                Self::spec_root_index_bits(),
                Self::spec_max_levels(),
                vpn.0 as nat,
                level.0 as nat,
            ),
            r < pow2(
                index_bits_of(
                    Self::spec_entries_bits(),
                    Self::spec_root_index_bits(),
                    Self::spec_max_levels(),
                    level.0 as nat,
                ),
            ),
    ;

    /// The index range the virtual-page range `[start, end)` occupies in
    /// one table of `level`, the end clamped to the table width when the
    /// range runs into the next higher-level block.
    fn vpn_index_range(vpn_range: core::ops::Range<VirtPageNum>, level: PageLevel) -> (r: core::ops::Range<usize>)
        requires
            level.0 < Self::spec_max_levels(),
        ensures
            r.start == vpn_index_range_of(
                Self::spec_entries_bits(),
                Self::spec_root_index_bits(),
                Self::spec_max_levels(),
                vpn_range.start.0 as nat,
                vpn_range.end.0 as nat,
                level.0 as nat,
            ).0,
            r.end == vpn_index_range_of(
                Self::spec_entries_bits(),
                Self::spec_root_index_bits(),
                Self::spec_max_levels(),
                vpn_range.start.0 as nat,
                vpn_range.end.0 as nat,
                level.0 as nat,
            ).1,
            r.end <= pow2(
                index_bits_of(
                    Self::spec_entries_bits(),
                    Self::spec_root_index_bits(),
                    Self::spec_max_levels(),
                    level.0 as nat,
                ),
            ),
    ;

    /// The virtual page obtained from `vpn` by replacing its index at
    /// `level` with `idx` and clearing every finer index.
    fn vpn_level_index(vpn: VirtPageNum, level: PageLevel, idx: usize) -> (r: VirtPageNum)
        requires
            level.0 < Self::spec_max_levels(),
            vpn.0 < pow2(Self::spec_ppn_bits()),
            idx < pow2(
                index_bits_of(
                    Self::spec_entries_bits(),
                    Self::spec_root_index_bits(),
                    Self::spec_max_levels(),
                    level.0 as nat,
                ),
            ),
        ensures
            r.0 == vpn_level_index_of(
                Self::spec_entries_bits(),
                Self::spec_ppn_bits(),
                Self::spec_max_levels(),
                vpn.0 as nat,
                level.0 as nat,
                idx as nat,
            ),
    ;

    /// Set every slot of a freshly allocated table to an invalid entry.
    fn init_page_table(table: &mut Sv39PageTable)
        ensures
            final(table).bits_seq().len() == old(table).bits_seq().len(),
            forall|i: int|
                0 <= i < final(table).bits_seq().len() ==> final(table).bits_seq()[i] == 0u64,
    {
        let n = table.slots.len();
        let mut k: usize = 0;
        while k < n
            invariant
                k <= n,
                table.bits_seq().len() == n,
                forall|i: int| 0 <= i < k ==> table.bits_seq()[i] == 0u64,
            decreases n - k,
        {
            table.write_slot(k, 0);
            k = k + 1;
        }
    }

    /// Interpret a slot: a valid entry when the valid bit is set, else
    /// nothing, and the slot may be filled.
    fn slot_try_get_entry(slot: &Sv39PageSlot) -> (r: Option<Sv39PageEntry>)
        ensures
            spec_slot_is_valid(slot.bits) ==> r == Some(Sv39PageEntry { bits: slot.bits }),
            !spec_slot_is_valid(slot.bits) ==> r is None,
    {
        if slot.bits & 1 == 1 {
            Some(Sv39PageEntry { bits: slot.bits })
        } else {
            None
        }
    }

    /// Fill a slot with a pointer to a child table: valid, and none of
    /// read/write/execute.
    fn slot_set_child(slot: &mut Sv39PageSlot, ppn: crate::addr::PhysPageNum)
        requires
            ppn.0 < 0x1000_0000_0000,
        ensures
            final(slot).bits == spec_entry_encode(ppn.0, 1u8),
    {
        slot.bits = (ppn.0 << 10) | 1;
    }

    /// Fill a slot with a leaf mapping carrying `flags`; validity is
    /// always implied.
    fn slot_set_mapping(slot: &mut Sv39PageSlot, ppn: crate::addr::PhysPageNum, flags: Sv39Flags)
        requires
            ppn.0 < 0x1000_0000_0000,
        ensures
            final(slot).bits == spec_entry_encode(ppn.0, flags.0 | 1u8),
    {
        slot.bits = (ppn.0 << 10) | ((flags.0 | 1) as u64);
    }

    /// Whether an entry is a leaf: any of read/write/execute set.
    fn entry_is_leaf_page(entry: &Sv39PageEntry) -> (r: bool)
        ensures
            r == spec_entry_is_leaf(entry.bits),
    {
        entry.bits & 0xE != 0
    }

    /// Overwrite an entry with the given page number and flags.
    fn entry_write_ppn_flags(entry: &mut Sv39PageEntry, ppn: crate::addr::PhysPageNum, flags: Sv39Flags)
        requires
            ppn.0 < 0x1000_0000_0000,
        ensures
            final(entry).bits == spec_entry_encode(ppn.0, flags.0),
    {
        entry.write_ppn_flags(ppn, flags);
    }

    /// The physical page number an entry maps or points to.
    fn entry_get_ppn(entry: &Sv39PageEntry) -> (r: crate::addr::PhysPageNum)
        ensures
            r.0 == spec_entry_ppn(entry.bits),
    {
        entry.ppn()
    }
}

impl PageLayout {
    /// Bytes covered by one page of this layout under mode `M`.
    pub fn page_size<M: PageMode>(&self) -> (r: u64)
        requires
            self.align_in_frames * pow2(M::spec_frame_size_bits()) <= u64::MAX,
        ensures
            r == self.align_in_frames * pow2(M::spec_frame_size_bits()),
    {
        proof {
            M::mode_properties();
            lemma_u64_shl_is_mul(self.align_in_frames, M::spec_frame_size_bits() as u64);
        }
        self.align_in_frames << M::frame_size_bits()
    }
}

/// Shift `vpn` right by `s_bits` and keep the low `ib` index bits; the
/// index arithmetic both schemes share.
fn index_of_vpn(vpn: u64, s_bits: u64, ib: u8) -> (r: usize)
    requires
        s_bits < 64,
        ib == 9 || ib == 11,
    ensures
        r == (vpn as nat / pow2(s_bits as nat)) % pow2(ib as nat),
        r < pow2(ib as nat),
{
    let x = vpn >> s_bits;
    let mask: u64 = if ib == 9 {
        511
    } else {
        2047
    };
    proof {
        lemma_u64_shr_is_div(vpn, s_bits);
        lemma_u64_low_bits_mask_is_mod(x, ib as nat);
        lemma_low_bits_mask_values();
        lemma2_to64();
    }
    (x & mask) as usize
}

/// Sv39: three levels of 9-bit fan-out over 4 KiB frames; the standard
/// RV64 single-stage translation scheme.
#[derive(Copy, Clone, PartialEq, Eq, Structural, Debug)]
pub struct Sv39;

impl PageMode for Sv39 {
    open spec fn spec_frame_size_bits() -> nat {
        12
    }

    open spec fn spec_ppn_bits() -> nat {
        44
    }

    open spec fn spec_max_levels() -> nat {
        3
    }

    open spec fn spec_entries_bits() -> nat {
        9
    }

    open spec fn spec_root_index_bits() -> nat {
        9
    }

    proof fn mode_properties() {
        assert(Self::spec_entries_bits() == 9);
        assert(Self::spec_root_index_bits() == 9);
        assert(Self::spec_frame_size_bits() == 12);
        assert(Self::spec_ppn_bits() == 44);
        assert(Self::spec_max_levels() == 3);
    }

    fn frame_size_bits() -> u64 {
        12
    }

    fn ppn_bits() -> u64 {
        44
    }

    fn max_page_levels() -> u8 {
        3
    }

    fn page_entries_bits() -> u8 {
        9
    }

    fn root_index_bits() -> u8 {
        9
    }

    fn vpn_index(vpn: VirtPageNum, level: PageLevel) -> usize {
        index_of_vpn(vpn.0, (level.0 as u64) * 9, 9)
    }

    fn vpn_index_range(vpn_range: core::ops::Range<VirtPageNum>, level: PageLevel) -> core::ops::Range<usize> {
        let start = index_of_vpn(vpn_range.start.0, (level.0 as u64) * 9, 9);
        let mut end = index_of_vpn(vpn_range.end.0, (level.0 as u64) * 9, 9);
        if level.0 <= 1 {
            let s1: u64 = (level.0 as u64 + 1) * 9;
            let a = vpn_range.start.0 >> s1;
            let b = vpn_range.end.0 >> s1;
            proof {
                lemma_u64_shr_is_div(vpn_range.start.0, s1);
                lemma_u64_shr_is_div(vpn_range.end.0, s1);
                lemma2_to64();
            }
            if b > a {
                end = 512;
            }
        }
        start..end
    }

    fn vpn_level_index(vpn: VirtPageNum, level: PageLevel, idx: usize) -> VirtPageNum {
        proof {
            Self::mode_properties();
            lemma2_to64();
            vstd::arithmetic::power2::lemma2_to64_rest();
        }
        let r = vpn_level_index_shared(vpn, level, idx);
        proof {
            let eb = Self::spec_entries_bits();
            let pb = Self::spec_ppn_bits();
            let ml = Self::spec_max_levels();
            assert(eb == 9 && pb == 44 && ml == 3);
            assert(pow2(0) == 1 && pow2(9) == 0x200 && pow2(18) == 0x40000 && pow2(44)
                == 0x1000_0000_0000);
            if level.0 == 0 {
                assert(clear_bits_of(9, 44, 3, 0) == 9);
                assert(idx as nat * pow2(0) == idx as nat);
                assert(r.0 == (vpn.0 as nat - vpn.0 as nat % pow2(9)) + idx as nat * pow2(0));
                assert(r.0 == vpn_level_index_of(9, 44, 3, vpn.0 as nat, 0, idx as nat));
            } else if level.0 == 1 {
                assert(clear_bits_of(9, 44, 3, 1) == 18);
                assert(idx as nat * pow2(9) == idx as nat * 0x200);
                assert(r.0 == (vpn.0 as nat - vpn.0 as nat % pow2(18)) + idx as nat * pow2(9));
                assert(r.0 == vpn_level_index_of(9, 44, 3, vpn.0 as nat, 1, idx as nat));
            } else {
                assert(clear_bits_of(9, 44, 3, 2) == 44);
                assert(idx as nat * pow2(18) == idx as nat * 0x40000);
                assert(r.0 == (vpn.0 as nat - vpn.0 as nat % pow2(44)) + idx as nat * pow2(18));
                assert(r.0 == vpn_level_index_of(9, 44, 3, vpn.0 as nat, 2, idx as nat));
            }
        }
        r
    }
}

/// Sv39x4: the hypervisor second-stage (guest-physical) variant of Sv39.
/// It shares the entry and table encoding, but its root level carries two
/// extra index bits, so the root table has 2048 slots instead of 512 and
/// guest-physical addresses carry 41 significant bits instead of 39.
#[derive(Copy, Clone, PartialEq, Eq, Structural, Debug)]
pub struct Sv39x4;

impl Sv39x4 {
    /// The index mask of one level: 11 bits at the root, 9 below it.
    pub fn vpn_mask_by_level(level: PageLevel) -> (r: u64)
        requires
            level.0 <= 2,
        ensures
            r == low_bits_mask(index_bits_of(9, 11, 3, level.0 as nat)),
    {
        proof {
            lemma_low_bits_mask_values();
        }
        if level.0 <= 1 {
            511
        } else {
            2047
        }
    }
}

impl PageMode for Sv39x4 {
    open spec fn spec_frame_size_bits() -> nat {
        12
    }

    open spec fn spec_ppn_bits() -> nat {
        44
    }

    open spec fn spec_max_levels() -> nat {
        3
    }

    open spec fn spec_entries_bits() -> nat {
        9
    }

    open spec fn spec_root_index_bits() -> nat {
        11
    }

    proof fn mode_properties() {
        assert(Self::spec_entries_bits() == 9);
        assert(Self::spec_root_index_bits() == 11);
        assert(Self::spec_frame_size_bits() == 12);
        assert(Self::spec_ppn_bits() == 44);
        assert(Self::spec_max_levels() == 3);
    }

    fn frame_size_bits() -> u64 {
        12
    }

    fn ppn_bits() -> u64 {
        44
    }

    fn max_page_levels() -> u8 {
        3
    }

    fn page_entries_bits() -> u8 {
        9
    }

    fn root_index_bits() -> u8 {
        11
    }

    fn vpn_index(vpn: VirtPageNum, level: PageLevel) -> usize {
        let ib: u8 = if level.0 <= 1 {
            9
        } else {
            11
        };
        index_of_vpn(vpn.0, (level.0 as u64) * 9, ib)
    }

    fn vpn_index_range(vpn_range: core::ops::Range<VirtPageNum>, level: PageLevel) -> core::ops::Range<usize> {
        let ib: u8 = if level.0 <= 1 {
            9
        } else {
            11
        };
        let start = index_of_vpn(vpn_range.start.0, (level.0 as u64) * 9, ib);
        let mut end = index_of_vpn(vpn_range.end.0, (level.0 as u64) * 9, ib);
        if level.0 <= 1 {
            let s1: u64 = (level.0 as u64 + 1) * 9;
            let a = vpn_range.start.0 >> s1;
            let b = vpn_range.end.0 >> s1;
            proof {
                lemma_u64_shr_is_div(vpn_range.start.0, s1);
                lemma_u64_shr_is_div(vpn_range.end.0, s1);
                lemma2_to64();
            }
            if b > a {
                end = 512;
            }
        }
        start..end
    }

    fn vpn_level_index(vpn: VirtPageNum, level: PageLevel, idx: usize) -> VirtPageNum {
        proof {
            Self::mode_properties();
            lemma2_to64();
            vstd::arithmetic::power2::lemma2_to64_rest();
        }
        let r = vpn_level_index_shared(vpn, level, idx);
        proof {
            let eb = Self::spec_entries_bits();
            let pb = Self::spec_ppn_bits();
            let ml = Self::spec_max_levels();
            assert(eb == 9 && pb == 44 && ml == 3);
            assert(pow2(0) == 1 && pow2(9) == 0x200 && pow2(18) == 0x40000 && pow2(44)
                == 0x1000_0000_0000);
            if level.0 == 0 {
                assert(clear_bits_of(9, 44, 3, 0) == 9);
                assert(idx as nat * pow2(0) == idx as nat);
                assert(r.0 == (vpn.0 as nat - vpn.0 as nat % pow2(9)) + idx as nat * pow2(0));
                assert(r.0 == vpn_level_index_of(9, 44, 3, vpn.0 as nat, 0, idx as nat));
            } else if level.0 == 1 {
                assert(clear_bits_of(9, 44, 3, 1) == 18);
                assert(idx as nat * pow2(9) == idx as nat * 0x200);
                assert(r.0 == (vpn.0 as nat - vpn.0 as nat % pow2(18)) + idx as nat * pow2(9));
                assert(r.0 == vpn_level_index_of(9, 44, 3, vpn.0 as nat, 1, idx as nat));
            } else {
                assert(clear_bits_of(9, 44, 3, 2) == 44);
                assert(idx as nat * pow2(18) == idx as nat * 0x40000);
                assert(r.0 == (vpn.0 as nat - vpn.0 as nat % pow2(44)) + idx as nat * pow2(18));
                assert(r.0 == vpn_level_index_of(9, 44, 3, vpn.0 as nat, 2, idx as nat));
            }
        }
        r
    }
}

/// Replace the level-`level` index of `vpn` with `idx`, clearing every
/// finer index; shared by both schemes, whose geometry agrees everywhere
/// but in the width of the root index.
fn vpn_level_index_shared(vpn: VirtPageNum, level: PageLevel, idx: usize) -> (r: VirtPageNum)
    requires
        level.0 < 3,
        vpn.0 < pow2(44),
        level.0 < 2 ==> idx < 512,
        level.0 == 2 ==> idx < 2048,
    ensures
        level.0 == 0 ==> r.0 == vpn.0 - vpn.0 % 0x200 + idx,
        level.0 == 1 ==> r.0 == vpn.0 - vpn.0 % 0x40000 + idx * 0x200,
        level.0 == 2 ==> r.0 == vpn.0 - vpn.0 % 0x1000_0000_0000 + idx * 0x40000,
{
    let idx64 = idx as u64;
    let v = vpn.0;
    proof {
        lemma2_to64();
        vstd::arithmetic::power2::lemma2_to64_rest();
    }
    if level.0 == 0 {
        proof {
            assert(v & !0x1FFu64 == v - v % 0x200) by (bit_vector);
        }
        VirtPageNum((v & !0x1FFu64) + idx64)
    } else if level.0 == 1 {
        proof {
            assert(v & !0x3FFFFu64 == v - v % 0x40000) by (bit_vector);
            lemma_u64_shl_is_mul(idx64, 9);
        }
        VirtPageNum((v & !0x3FFFFu64) + (idx64 << 9))
    } else {
        proof {
            assert(v < 0x1000_0000_0000 ==> v & !0xFFF_FFFF_FFFFu64 == v - v % 0x1000_0000_0000)
                by (bit_vector);
            lemma_u64_shl_is_mul(idx64, 18);
        }
        VirtPageNum((v & !0xFFF_FFFF_FFFFu64) + (idx64 << 18))
    }
}

} // verus!
