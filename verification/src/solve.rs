//! The range-to-mapping solver.
//!
//! Given a starting virtual page, a starting physical page and a frame
//! count, the solver picks the coarsest page-table level whose alignment
//! both divides the virtual-physical offset and fits the count, maps the
//! aligned middle of the range at that level, and decomposes the
//! unaligned prefix and suffix at every finer level down to the leaf.
//! The result is an ordered sequence of (level, virtual-page-range)
//! segments with no gaps and no overlaps that covers the range exactly
//! and always prefers the fewest, largest entries the alignment allows.
use vstd::arithmetic::div_mod::{
    lemma_fundamental_div_mod, lemma_mod_multiples_basic, lemma_mod_multiples_vanish,
};
use vstd::arithmetic::power2::{
    lemma2_to64, lemma2_to64_rest, lemma_pow2_adds, lemma_pow2_pos, lemma_pow2_strictly_increases,
    pow2,
};
use vstd::prelude::*;

use crate::addr::{PhysPageNum, VirtPageNum};
use crate::level::PageLevel;
use crate::mode::PageMode;

verus! {

/// The least multiple of `a` that is at least `v`.
pub open spec fn round_up_to(v: int, a: int) -> int {
    ((v + a - 1) / a) * a
}

/// The greatest multiple of `a` that is at most `v`.
pub open spec fn round_down_to(v: int, a: int) -> int {
    (v / a) * a
}

pub proof fn lemma_round_up_props(v: int, a: int)
    requires
        a >= 1,
        v >= 0,
    ensures
        v <= round_up_to(v, a) < v + a,
        round_up_to(v, a) % a == 0,
{
    let q = (v + a - 1) / a;
    lemma_fundamental_div_mod(v + a - 1, a);
    lemma_mod_multiples_basic(q, a);
    assert(q * a == a * q) by (nonlinear_arith);
}

pub proof fn lemma_round_down_props(v: int, a: int)
    requires
        a >= 1,
        v >= 0,
    ensures
        v - a < round_down_to(v, a) <= v,
        round_down_to(v, a) % a == 0,
{
    let q = v / a;
    lemma_fundamental_div_mod(v, a);
    lemma_mod_multiples_basic(q, a);
    assert(q * a == a * q) by (nonlinear_arith);
}

/// No multiple of `a` lies strictly between `v` and its round-up.
pub proof fn lemma_round_up_least(v: int, a: int, x: int)
    requires
        a >= 1,
        v >= 0,
        x >= v,
        x % a == 0,
    ensures
        round_up_to(v, a) <= x,
{
    let q = (v + a - 1) / a;
    let xq = x / a;
    lemma_fundamental_div_mod(v + a - 1, a);
    lemma_fundamental_div_mod(x, a);
    assert(q * a <= v + a - 1);
    assert(x == a * xq);
    assert(q * a < a * (xq + 1)) by (nonlinear_arith)
        requires
            q * a <= v + a - 1,
            v <= x,
            x == a * xq,
    ;
    assert(q <= xq) by (nonlinear_arith)
        requires
            a >= 1,
            q * a < a * (xq + 1),
    ;
    assert(q * a <= a * xq) by (nonlinear_arith)
        requires
            a >= 1,
            q <= xq,
    ;
}

/// No multiple of `a` lies strictly between the round-down of `v` and `v`.
pub proof fn lemma_round_down_greatest(v: int, a: int, x: int)
    requires
        a >= 1,
        v >= 0,
        0 <= x <= v,
        x % a == 0,
    ensures
        x <= round_down_to(v, a),
    {
    let q = v / a;
    let xq = x / a;
    lemma_fundamental_div_mod(v, a);
    lemma_fundamental_div_mod(x, a);
    assert(x == a * xq);
    assert(a * xq < a * (q + 1)) by (nonlinear_arith)
        requires
            x == a * xq,
            x <= v,
            v < a * q + a,
    ;
    assert(xq <= q) by (nonlinear_arith)
        requires
            a >= 1,
            a * xq < a * (q + 1),
    ;
    assert(a * xq <= q * a) by (nonlinear_arith)
        requires
            a >= 1,
            xq <= q,
    ;
}

/// Rounding an already-aligned value changes nothing.
pub proof fn lemma_round_aligned(v: int, a: int)
    requires
        a >= 1,
        v >= 0,
        v % a == 0,
    ensures
        round_up_to(v, a) == v,
        round_down_to(v, a) == v,
{
    lemma_round_up_props(v, a);
    lemma_round_down_props(v, a);
    lemma_round_up_least(v, a, v);
    lemma_round_down_greatest(v, a, v);
}

/// A multiple of `b * k` is a multiple of `b`.
pub proof fn lemma_mod_factor(x: int, b: int, k: int)
    requires
        b >= 1,
        k >= 1,
        x >= 0,
        x % (b * k) == 0,
    ensures
        x % b == 0,
{
    assert(b * k >= 1) by (nonlinear_arith)
        requires
            b >= 1,
            k >= 1,
    ;
    let m = x / (b * k);
    lemma_fundamental_div_mod(x, b * k);
    assert(x == b * (k * m)) by (nonlinear_arith)
        requires
            x == (b * k) * m,
    ;
    lemma_mod_multiples_basic(k * m, b);
    assert((k * m) * b == b * (k * m)) by (nonlinear_arith);
}

/// Two values congruent modulo `b * k` are congruent modulo `b`.
pub proof fn lemma_cong_factor(x: int, y: int, b: int, k: int)
    requires
        b >= 1,
        k >= 1,
        x >= 0,
        y >= 0,
        x % (b * k) == y % (b * k),
    ensures
        x % b == y % b,
{
    let a = b * k;
    assert(a >= 1) by (nonlinear_arith)
        requires
            b >= 1,
            k >= 1,
            a == b * k,
    ;
    lemma_fundamental_div_mod(x, a);
    lemma_fundamental_div_mod(y, a);
    let qx = x / a;
    let qy = y / a;
    assert(x == a * qx + x % a);
    assert(y == a * qy + y % a);
    assert(x == y + a * (qx - qy)) by (nonlinear_arith)
        requires
            x == a * qx + x % a,
            y == a * qy + y % a,
            x % a == y % a,
    ;
    assert(x == y + b * (k * (qx - qy))) by (nonlinear_arith)
        requires
            x == y + (b * k) * (qx - qy),
    ;
    lemma_mod_multiples_vanish(k * (qx - qy), y, b);
}

/// When the range is at least one alignment unit long, the aligned
/// middle is not inverted.
pub proof fn lemma_aligned_point_exists(v: int, n: int, a: int)
    requires
        a >= 1,
        v >= 0,
        n >= a,
    ensures
        round_up_to(v, a) <= round_down_to(v + n, a),
{
    lemma_round_up_props(v, a);
    lemma_round_down_greatest(v + n, a, round_up_to(v, a));
}

/// The least multiple of `a` that is at least `v`, as a machine value.
fn round_up_u(v: u64, a: u64) -> (r: u64)
    requires
        a >= 1,
        v + a <= u64::MAX,
    ensures
        r == round_up_to(v as int, a as int),
        v <= r < v + a,
        r as int % a as int == 0,
{
    proof {
        lemma_round_up_props(v as int, a as int);
    }
    ((v + a - 1) / a) * a
}

/// The greatest multiple of `a` that is at most `v`, as a machine value.
fn round_down_u(v: u64, a: u64) -> (r: u64)
    requires
        a >= 1,
    ensures
        r == round_down_to(v as int, a as int),
        r <= v,
        r as int % a as int == 0,
{
    proof {
        lemma_round_down_props(v as int, a as int);
    }
    (v / a) * a
}

/// An alignment of any level of the supported schemes is positive and
/// fits comfortably under the architecture's page-number width.
proof fn lemma_align_bound(eb: nat, l: nat)
    requires
        1 <= eb <= 12,
        l <= 3,
    ensures
        1 <= pow2(eb * l) <= 0x1000_0000_0000,
{
    lemma_pow2_pos(eb * l);
    assert(eb * l <= 36) by (nonlinear_arith)
        requires
            eb <= 12,
            l <= 3,
    ;
    if eb * l < 44 {
        lemma_pow2_strictly_increases(eb * l, 44);
    }
    lemma2_to64_rest();
}

/// One segment of the solver's answer: a page-table level together with
/// a half-open virtual page range.
pub type Seg = (nat, int, int);

/// The coarsest level at or below `l` whose alignment divides the
/// virtual-physical offset and is no greater than the frame count.
pub open spec fn spec_coarsest(eb: nat, vpn: nat, ppn: nat, n: nat, l: int) -> Option<nat>
    decreases l + 1,
{
    if l < 0 {
        None
    } else if vpn % pow2(eb * l as nat) == ppn % pow2(eb * l as nat) && n >= pow2(eb * l as nat) {
        Some(l as nat)
    } else {
        spec_coarsest(eb, vpn, ppn, n, l - 1)
    }
}

/// The edge segments that levels `j` down to the leaf contribute: at each
/// level, the still-uncovered piece on each side of the block covered by
/// the next coarser level.
pub open spec fn spec_edges(eb: nat, vpn: nat, n: nat, j: int) -> Seq<Seg>
    decreases j + 1,
{
    if j < 0 {
        Seq::empty()
    } else {
        let a = pow2(eb * j as nat) as int;
        let a1 = pow2(eb * (j + 1) as nat) as int;
        let ve_cur = round_up_to(vpn as int, a);
        let vs_cur = round_down_to((vpn + n) as int, a);
        let ve_prev = round_up_to(vpn as int, a1);
        let vs_prev = round_down_to((vpn + n) as int, a1);
        let left: Seq<Seg> = if ve_cur != ve_prev {
            seq![(j as nat, ve_cur, ve_prev)]
        } else {
            Seq::empty()
        };
        let right: Seq<Seg> = if vs_prev != vs_cur {
            seq![(j as nat, vs_prev, vs_cur)]
        } else {
            Seq::empty()
        };
        left + right + spec_edges(eb, vpn, n, j - 1)
    }
}

/// The full decomposition: the aligned middle at the coarsest usable
/// level, then the edges of every finer level; empty when no level
/// qualifies (a zero frame count).
pub open spec fn spec_solve(eb: nat, levels: nat, vpn: nat, ppn: nat, n: nat) -> Seq<Seg> {
    match spec_coarsest(eb, vpn, ppn, n, levels - 1) {
        None => Seq::empty(),
        Some(i) => {
            let a = pow2(eb * i) as int;
            let ve = round_up_to(vpn as int, a);
            let vs = round_down_to((vpn + n) as int, a);
            let mid: Seq<Seg> = if ve != vs {
                seq![(i, ve, vs)]
            } else {
                Seq::empty()
            };
            mid + spec_edges(eb, vpn, n, i - 1)
        },
    }
}

/// A value aligned to the alignment of a coarser level is aligned to
/// every finer level's alignment.
proof fn lemma_pow2_align_factor(eb: nat, l: nat, l2: nat)
    requires
        eb >= 1,
        l <= l2,
    ensures
        pow2(eb * l2) == pow2(eb * l) * pow2(eb * ((l2 - l) as nat)),
{
    assert(eb * l2 == eb * l + eb * ((l2 - l) as nat)) by (nonlinear_arith)
        requires
            l <= l2,
    ;
    lemma_pow2_adds(eb * l, eb * ((l2 - l) as nat));
}

/// What a found coarsest level means: it is within range and its
/// alignment divides the offset and fits the count.
proof fn lemma_coarsest_props(eb: nat, vpn: nat, ppn: nat, n: nat, l: int)
    ensures
        match spec_coarsest(eb, vpn, ppn, n, l) {
            Some(i) => i <= l && vpn % pow2(eb * i) == ppn % pow2(eb * i) && n >= pow2(eb * i),
            None => l >= 0 ==> !(vpn % pow2(eb * 0) == ppn % pow2(eb * 0) && n >= pow2(eb * 0)),
        },
    decreases l + 1,
{
    if l >= 0 {
        if vpn % pow2(eb * l as nat) == ppn % pow2(eb * l as nat) && n >= pow2(eb * l as nat) {
        } else {
            lemma_coarsest_props(eb, vpn, ppn, n, l - 1);
        }
    }
}

/// Every edge segment lies within the requested range, starts and ends
/// aligned to its level, and keeps the virtual-physical offset aligned.
proof fn lemma_edges_wf(eb: nat, vpn: nat, ppn: nat, n: nat, j: int, i: nat)
    requires
        eb >= 1,
        j < i,
        n >= pow2(eb * i),
        vpn % pow2(eb * i) == ppn % pow2(eb * i),
    ensures
        forall|k: int|
            0 <= k < spec_edges(eb, vpn, n, j).len() ==> {
                let seg = #[trigger] spec_edges(eb, vpn, n, j)[k];
                seg.0 <= j && vpn <= seg.1 < seg.2 <= vpn + n && seg.1 % (pow2(eb * seg.0) as int)
                    == 0 && seg.2 % (pow2(eb * seg.0) as int) == 0 && (ppn + seg.1 - vpn) % (pow2(
                    eb * seg.0,
                ) as int) == 0
            },
    decreases j + 1,
{
    if j >= 0 {
        lemma_edges_wf(eb, vpn, ppn, n, j - 1, i);
        let a = pow2(eb * j as nat) as int;
        let a1 = pow2(eb * (j + 1) as nat) as int;
        lemma_pow2_pos(eb * j as nat);
        lemma_pow2_pos(eb * (j + 1) as nat);
        lemma_round_up_props(vpn as int, a);
        lemma_round_up_props(vpn as int, a1);
        lemma_round_down_props(vpn as int + n, a);
        lemma_round_down_props(vpn as int + n, a1);
        let ve_cur = round_up_to(vpn as int, a);
        let vs_cur = round_down_to(vpn as int + n, a);
        let ve_prev = round_up_to(vpn as int, a1);
        let vs_prev = round_down_to(vpn as int + n, a1);
        // the finer boundaries bracket the coarser ones
        lemma_pow2_pos(eb);
        lemma_pow2_align_factor(eb, j as nat, (j + 1) as nat);
        assert((((j + 1) as nat) - (j as nat)) as nat == 1);
        assert(eb * 1 == eb) by (nonlinear_arith);
        lemma_mod_factor(ve_prev, a, pow2(eb) as int);
        lemma_mod_factor(vs_prev, a, pow2(eb) as int);
        lemma_round_up_least(vpn as int, a, ve_prev);
        lemma_round_down_greatest(vpn as int + n, a, vs_prev);
        // the coarser boundaries are not inverted
        lemma_pow2_align_factor(eb, (j + 1) as nat, i);
        assert((i - ((j + 1) as nat)) as nat == (i - j - 1) as nat);
        lemma_pow2_pos(eb * ((i - j - 1) as nat));
        assert(pow2(eb * i) >= pow2(eb * (j + 1) as nat)) by (nonlinear_arith)
            requires
                pow2(eb * i) == pow2(eb * (j + 1) as nat) * pow2(eb * ((i - j - 1) as nat)),
                pow2(eb * ((i - j - 1) as nat)) >= 1,
        ;
        lemma_aligned_point_exists(vpn as int, n as int, a1);
        // the physical offset stays aligned at this level
        lemma_pow2_align_factor(eb, j as nat, i);
        assert((i - (j as nat)) as nat == (i - j) as nat);
        lemma_pow2_pos(eb * ((i - j) as nat));
        lemma_cong_factor(vpn as int, ppn as int, a, pow2(eb * ((i - j) as nat)) as int);
        let qv = vpn as int / a;
        let qp = ppn as int / a;
        lemma_fundamental_div_mod(vpn as int, a);
        lemma_fundamental_div_mod(ppn as int, a);
        assert(ppn as int == vpn + a * (qp - qv)) by (nonlinear_arith)
            requires
                vpn == a * qv + vpn as int % a,
                ppn == a * qp + ppn as int % a,
                vpn as int % a == ppn as int % a,
        ;
        lemma_mod_multiples_vanish(qp - qv, ve_cur, a);
        lemma_mod_multiples_vanish(qp - qv, vs_prev, a);
        assert(ppn + ve_cur - vpn == a * (qp - qv) + ve_cur) by (nonlinear_arith)
            requires
                ppn as int == vpn + a * (qp - qv),
        ;
        assert(ppn + vs_prev - vpn == a * (qp - qv) + vs_prev) by (nonlinear_arith)
            requires
                ppn as int == vpn + a * (qp - qv),
        ;
        let ep = spec_edges(eb, vpn, n, j - 1);
        let left: Seq<Seg> = if ve_cur != ve_prev {
            seq![(j as nat, ve_cur, ve_prev)]
        } else {
            Seq::empty()
        };
        let right: Seq<Seg> = if vs_prev != vs_cur {
            seq![(j as nat, vs_prev, vs_cur)]
        } else {
            Seq::empty()
        };
        assert(spec_edges(eb, vpn, n, j) =~= left + right + ep);
        assert forall|k: int| 0 <= k < spec_edges(eb, vpn, n, j).len() implies {
            let seg = #[trigger] spec_edges(eb, vpn, n, j)[k];
            seg.0 <= j && vpn <= seg.1 < seg.2 <= vpn + n && seg.1 % (pow2(eb * seg.0) as int) == 0
                && seg.2 % (pow2(eb * seg.0) as int) == 0 && (ppn + seg.1 - vpn) % (pow2(
                eb * seg.0,
            ) as int) == 0
        } by {
            let seg = spec_edges(eb, vpn, n, j)[k];
            if k < left.len() {
                assert(seg == (j as nat, ve_cur, ve_prev));
                assert(seg.1 % (pow2(eb * seg.0) as int) == 0);
            } else if k < left.len() + right.len() {
                assert(seg == (j as nat, vs_prev, vs_cur));
                assert(seg.1 % (pow2(eb * seg.0) as int) == 0);
            } else {
                assert(seg == ep[k - left.len() - right.len()]);
            }
        }
    }
}

/// When the whole range is aligned to the chosen level, no finer level
/// contributes an edge.
proof fn lemma_edges_empty_when_aligned(eb: nat, vpn: nat, n: nat, j: int, i: nat)
    requires
        eb >= 1,
        j < i,
        vpn % pow2(eb * i) == 0,
        (vpn + n) % pow2(eb * i) == 0,
    ensures
        spec_edges(eb, vpn, n, j) =~= Seq::<Seg>::empty(),
    decreases j + 1,
{
    if j >= 0 {
        lemma_edges_empty_when_aligned(eb, vpn, n, j - 1, i);
        let a = pow2(eb * j as nat) as int;
        let a1 = pow2(eb * (j + 1) as nat) as int;
        lemma_pow2_pos(eb * j as nat);
        lemma_pow2_pos(eb * (j + 1) as nat);
        lemma_pow2_align_factor(eb, j as nat, i);
        lemma_pow2_align_factor(eb, (j + 1) as nat, i);
        assert((i - (j as nat)) as nat == (i - j) as nat);
        assert((i - ((j + 1) as nat)) as nat == (i - j - 1) as nat);
        lemma_pow2_pos(eb * ((i - j) as nat));
        lemma_pow2_pos(eb * ((i - j - 1) as nat));
        lemma_mod_factor(vpn as int, a, pow2(eb * ((i - j) as nat)) as int);
        lemma_mod_factor(vpn as int + n, a, pow2(eb * ((i - j) as nat)) as int);
        lemma_mod_factor(vpn as int, a1, pow2(eb * ((i - j - 1) as nat)) as int);
        lemma_mod_factor(vpn as int + n, a1, pow2(eb * ((i - j - 1) as nat)) as int);
        lemma_round_aligned(vpn as int, a);
        lemma_round_aligned(vpn as int + n, a);
        lemma_round_aligned(vpn as int, a1);
        lemma_round_aligned(vpn as int + n, a1);
    }
}

/// Every segment the solver produces lies within the requested range,
/// begins and ends aligned to its level, and preserves the
/// virtual-to-physical offset alignment of its level; levels stay below
/// the mode's maximum.
pub proof fn lemma_solve_segs_wf(eb: nat, lv: nat, vpn: nat, ppn: nat, n: nat)
    requires
        eb >= 1,
        lv >= 1,
    ensures
        forall|k: int|
            0 <= k < spec_solve(eb, lv, vpn, ppn, n).len() ==> {
                let seg = #[trigger] spec_solve(eb, lv, vpn, ppn, n)[k];
                seg.0 < lv && vpn <= seg.1 < seg.2 <= vpn + n && seg.1 % (pow2(eb * seg.0) as int)
                    == 0 && seg.2 % (pow2(eb * seg.0) as int) == 0 && (ppn + seg.1 - vpn) % (pow2(
                    eb * seg.0,
                ) as int) == 0
            },
{
    lemma_coarsest_props(eb, vpn, ppn, n, lv - 1);
    match spec_coarsest(eb, vpn, ppn, n, lv - 1) {
        None => {},
        Some(i) => {
            let a = pow2(eb * i) as int;
            lemma_pow2_pos(eb * i);
            lemma_round_up_props(vpn as int, a);
            lemma_round_down_props(vpn as int + n, a);
            lemma_aligned_point_exists(vpn as int, n as int, a);
            let ve = round_up_to(vpn as int, a);
            let vs = round_down_to(vpn as int + n, a);
            let qv = vpn as int / a;
            let qp = ppn as int / a;
            lemma_fundamental_div_mod(vpn as int, a);
            lemma_fundamental_div_mod(ppn as int, a);
            assert(ppn as int == vpn + a * (qp - qv)) by (nonlinear_arith)
                requires
                    vpn == a * qv + vpn as int % a,
                    ppn == a * qp + ppn as int % a,
                    vpn as int % a == ppn as int % a,
            ;
            lemma_mod_multiples_vanish(qp - qv, ve, a);
            assert(ppn + ve - vpn == a * (qp - qv) + ve) by (nonlinear_arith)
                requires
                    ppn as int == vpn + a * (qp - qv),
            ;
            lemma_edges_wf(eb, vpn, ppn, n, i - 1, i);
        },
    }
}

/// The round trip of an aligned request: when the start pages agree
/// modulo the coarsest qualifying alignment, the start is itself aligned
/// to it, and the frame count is a positive exact multiple of it, the
/// solver emits exactly one segment, at that level, covering the whole
/// range.
pub proof fn lemma_solve_single_segment(eb: nat, lv: nat, vpn: nat, ppn: nat, n: nat, i: nat)
    requires
        eb >= 1,
        lv >= 1,
        spec_coarsest(eb, vpn, ppn, n, lv - 1) == Some(i),
        vpn % pow2(eb * i) == 0,
        n % pow2(eb * i) == 0,
        n > 0,
    ensures
        spec_solve(eb, lv, vpn, ppn, n) =~= seq![(i, vpn as int, (vpn + n) as int)],
{
    let a = pow2(eb * i) as int;
    lemma_pow2_pos(eb * i);
    lemma_fundamental_div_mod(vpn as int, a);
    lemma_fundamental_div_mod(n as int, a);
    let q1 = vpn as int / a;
    let q2 = n as int / a;
    assert((vpn + n) as int == a * (q1 + q2)) by (nonlinear_arith)
        requires
            vpn as int == a * q1,
            n as int == a * q2,
    ;
    lemma_mod_multiples_basic(q1 + q2, a);
    assert((q1 + q2) * a == a * (q1 + q2)) by (nonlinear_arith);
    lemma_round_aligned(vpn as int, a);
    lemma_round_aligned(vpn as int + n, a);
    lemma_edges_empty_when_aligned(eb, vpn, n, i - 1, i);
}

/// Whether some segment of `segs` covers page `p`.
pub open spec fn seg_covers(segs: Seq<Seg>, p: int) -> bool {
    exists|k: int| 0 <= k < segs.len() && (#[trigger] segs[k]).1 <= p < segs[k].2
}

/// No two distinct segments overlap.
pub open spec fn segs_disjoint(segs: Seq<Seg>) -> bool {
    forall|k1: int, k2: int|
        0 <= k1 < segs.len() && 0 <= k2 < segs.len() && k1 != k2 ==> ((#[trigger] segs[k1]).2
            <= (#[trigger] segs[k2]).1 || segs[k2].2 <= segs[k1].1)
}

/// Covering a concatenation is covering one of the parts.
proof fn lemma_covers_concat(s1: Seq<Seg>, s2: Seq<Seg>, p: int)
    ensures
        seg_covers(s1 + s2, p) == (seg_covers(s1, p) || seg_covers(s2, p)),
{
    if seg_covers(s1, p) {
        let k = choose|k: int| 0 <= k < s1.len() && (#[trigger] s1[k]).1 <= p < s1[k].2;
        assert((s1 + s2)[k] == s1[k]);
        assert(seg_covers(s1 + s2, p));
    }
    if seg_covers(s2, p) {
        let k = choose|k: int| 0 <= k < s2.len() && (#[trigger] s2[k]).1 <= p < s2[k].2;
        assert((s1 + s2)[s1.len() + k] == s2[k]);
        assert(seg_covers(s1 + s2, p));
    }
    if seg_covers(s1 + s2, p) {
        let k = choose|k: int|
            0 <= k < (s1 + s2).len() && (#[trigger] (s1 + s2)[k]).1 <= p < (s1 + s2)[k].2;
        if k < s1.len() {
            assert((s1 + s2)[k] == s1[k]);
            assert(seg_covers(s1, p));
        } else {
            assert((s1 + s2)[k] == s2[k - s1.len()]);
            assert(seg_covers(s2, p));
        }
    }
}

/// Anything is a multiple of one.
proof fn lemma_mod_one(x: int)
    requires
        x >= 0,
    ensures
        x % 1 == 0,
{
    lemma_fundamental_div_mod(x, 1);
}

/// Covering a possibly-empty single-segment sequence is lying in its
/// range.
proof fn lemma_covers_single(s: Seq<Seg>, lo: int, hi: int, l: nat, p: int)
    requires
        lo <= hi,
        s == if lo != hi {
            seq![(l, lo, hi)]
        } else {
            Seq::<Seg>::empty()
        },
    ensures
        seg_covers(s, p) == (lo <= p < hi),
{
    if lo != hi {
        if lo <= p < hi {
            assert(s[0].1 <= p < s[0].2);
        }
        if seg_covers(s, p) {
            let k = choose|k: int| 0 <= k < s.len() && (#[trigger] s[k]).1 <= p < s[k].2;
            assert(s[k] == (l, lo, hi));
        }
    } else {
        if seg_covers(s, p) {
            let k = choose|k: int| 0 <= k < s.len() && (#[trigger] s[k]).1 <= p < s[k].2;
            assert(false);
        }
    }
}

/// The edge segments of levels `j` down to the leaf are pairwise
/// disjoint and cover exactly the part of the range outside the aligned
/// middle of the next coarser level.
proof fn lemma_edges_cover(eb: nat, vpn: nat, ppn: nat, n: nat, j: int, i: nat)
    requires
        eb >= 1,
        -1 <= j < i,
        n >= pow2(eb * i),
        vpn % pow2(eb * i) == ppn % pow2(eb * i),
    ensures
        segs_disjoint(spec_edges(eb, vpn, n, j)),
        forall|p: int|
            seg_covers(spec_edges(eb, vpn, n, j), p) <==> ((vpn <= p < round_up_to(
                vpn as int,
                pow2(eb * ((j + 1) as nat)) as int,
            )) || (round_down_to((vpn + n) as int, pow2(eb * ((j + 1) as nat)) as int) <= p < vpn
                + n)),
    decreases j + 1,
{
    if j < 0 {
        lemma_mod_one(vpn as int);
        lemma_mod_one(vpn as int + n);
        lemma_round_aligned(vpn as int, 1);
        lemma_round_aligned(vpn as int + n, 1);
        assert((j + 1) as nat == 0);
        assert(eb * ((j + 1) as nat) == 0) by (nonlinear_arith)
            requires
                (j + 1) as nat == 0,
        ;
        vstd::arithmetic::power2::lemma2_to64();
    } else {
        lemma_edges_cover(eb, vpn, ppn, n, j - 1, i);
        lemma_edges_wf(eb, vpn, ppn, n, j - 1, i);
        let a = pow2(eb * j as nat) as int;
        let a1 = pow2(eb * (j + 1) as nat) as int;
        lemma_pow2_pos(eb * j as nat);
        lemma_pow2_pos(eb * (j + 1) as nat);
        lemma_round_up_props(vpn as int, a);
        lemma_round_up_props(vpn as int, a1);
        lemma_round_down_props(vpn as int + n, a);
        lemma_round_down_props(vpn as int + n, a1);
        let ve_cur = round_up_to(vpn as int, a);
        let vs_cur = round_down_to((vpn + n) as int, a);
        let ve_prev = round_up_to(vpn as int, a1);
        let vs_prev = round_down_to((vpn + n) as int, a1);
        lemma_pow2_pos(eb);
        lemma_pow2_align_factor(eb, j as nat, (j + 1) as nat);
        assert((((j + 1) as nat) - (j as nat)) as nat == 1);
        assert(eb * 1 == eb) by (nonlinear_arith);
        lemma_mod_factor(ve_prev, a, pow2(eb) as int);
        lemma_mod_factor(vs_prev, a, pow2(eb) as int);
        lemma_round_up_least(vpn as int, a, ve_prev);
        lemma_round_down_greatest(vpn as int + n, a, vs_prev);
        lemma_pow2_align_factor(eb, (j + 1) as nat, i);
        assert((i - ((j + 1) as nat)) as nat == (i - j - 1) as nat);
        lemma_pow2_pos(eb * ((i - j - 1) as nat));
        assert(pow2(eb * i) >= pow2(eb * (j + 1) as nat)) by (nonlinear_arith)
            requires
                pow2(eb * i) == pow2(eb * (j + 1) as nat) * pow2(eb * ((i - j - 1) as nat)),
                pow2(eb * ((i - j - 1) as nat)) >= 1,
        ;
        lemma_aligned_point_exists(vpn as int, n as int, a1);
        let ep = spec_edges(eb, vpn, n, j - 1);
        let left: Seq<Seg> = if ve_cur != ve_prev {
            seq![(j as nat, ve_cur, ve_prev)]
        } else {
            Seq::empty()
        };
        let right: Seq<Seg> = if vs_prev != vs_cur {
            seq![(j as nat, vs_prev, vs_cur)]
        } else {
            Seq::empty()
        };
        let whole = spec_edges(eb, vpn, n, j);
        assert(whole =~= (left + right) + ep);
        // coverage
        assert forall|p: int|
            seg_covers(whole, p) <==> ((vpn <= p < ve_prev) || (vs_prev <= p < vpn + n)) by {
            lemma_covers_concat(left + right, ep, p);
            lemma_covers_concat(left, right, p);
            lemma_covers_single(left, ve_cur, ve_prev, j as nat, p);
            lemma_covers_single(right, vs_prev, vs_cur, j as nat, p);
        }
        // disjointness
        assert forall|k1: int, k2: int|
            0 <= k1 < whole.len() && 0 <= k2 < whole.len() && k1 != k2 implies ((
        #[trigger] whole[k1]).2 <= (#[trigger] whole[k2]).1 || whole[k2].2 <= whole[k1].1) by {
            let off = left.len() + right.len();
            if k1 >= off && k2 >= off {
                assert(whole[k1] == ep[k1 - off] && whole[k2] == ep[k2 - off]);
            } else if k1 < off && k2 < off {
                assert(left.len() == 1 && right.len() == 1);
                assert(ve_prev <= vs_prev);
            } else {
                let kn = if k1 < off {
                    k1
                } else {
                    k2
                };
                let ko = if k1 < off {
                    k2
                } else {
                    k1
                };
                let new_seg = whole[kn];
                let old_seg = whole[ko];
                assert(old_seg == ep[ko - off]);
                assert(vpn <= old_seg.1 < old_seg.2 <= vpn + n);
                assert(new_seg.1 < new_seg.2);
                if !(new_seg.2 <= old_seg.1 || old_seg.2 <= new_seg.1) {
                    let q = if old_seg.1 >= new_seg.1 {
                        old_seg.1
                    } else {
                        new_seg.1
                    };
                    assert(old_seg.1 <= q < old_seg.2);
                    assert(new_seg.1 <= q < new_seg.2);
                    assert(seg_covers(ep, q)) by {
                        assert(ep[ko - off].1 <= q < ep[ko - off].2);
                    }
                    assert((vpn <= q < ve_cur) || (vs_cur <= q < vpn + n));
                    assert(ve_cur <= q < ve_prev || vs_prev <= q < vs_cur);
                    assert(false);
                }
            }
        }
    }
}

/// The solver's segments are pairwise disjoint and cover exactly the
/// requested range: no page below the start or past the end is covered,
/// and every page of the range is covered once.
pub proof fn lemma_solve_tiles(eb: nat, lv: nat, vpn: nat, ppn: nat, n: nat)
    requires
        eb >= 1,
        lv >= 1,
    ensures
        segs_disjoint(spec_solve(eb, lv, vpn, ppn, n)),
        forall|p: int| seg_covers(spec_solve(eb, lv, vpn, ppn, n), p) <==> vpn <= p < vpn + n,
{
    lemma_coarsest_props(eb, vpn, ppn, n, lv - 1);
    match spec_coarsest(eb, vpn, ppn, n, lv - 1) {
        None => {
            lemma_mod_one(vpn as int);
            lemma_mod_one(ppn as int);
            vstd::arithmetic::power2::lemma2_to64();
            assert(n == 0);
        },
        Some(i) => {
            let a = pow2(eb * i) as int;
            lemma_pow2_pos(eb * i);
            lemma_round_up_props(vpn as int, a);
            lemma_round_down_props(vpn as int + n, a);
            lemma_aligned_point_exists(vpn as int, n as int, a);
            let ve = round_up_to(vpn as int, a);
            let vs = round_down_to((vpn + n) as int, a);
            let mid: Seq<Seg> = if ve != vs {
                seq![(i, ve, vs)]
            } else {
                Seq::empty()
            };
            let ep = spec_edges(eb, vpn, n, i - 1);
            lemma_edges_cover(eb, vpn, ppn, n, i - 1, i);
            lemma_edges_wf(eb, vpn, ppn, n, i - 1, i);
            assert((((i - 1) as int + 1) as nat) == i);
            let whole = spec_solve(eb, lv, vpn, ppn, n);
            assert(whole =~= mid + ep);
            assert forall|p: int| seg_covers(whole, p) <==> vpn <= p < vpn + n by {
                lemma_covers_concat(mid, ep, p);
                lemma_covers_single(mid, ve, vs, i, p);
            }
            assert forall|k1: int, k2: int|
                0 <= k1 < whole.len() && 0 <= k2 < whole.len() && k1 != k2 implies ((
            #[trigger] whole[k1]).2 <= (#[trigger] whole[k2]).1 || whole[k2].2 <= whole[k1].1) by {
                let off = mid.len();
                if k1 >= off && k2 >= off {
                    assert(whole[k1] == ep[k1 - off] && whole[k2] == ep[k2 - off]);
                } else if k1 < off && k2 < off {
                } else {
                    let ko = if k1 < off {
                        k2
                    } else {
                        k1
                    };
                    let old_seg = whole[ko];
                    assert(old_seg == ep[ko - off]);
                    assert(vpn <= old_seg.1 < old_seg.2 <= vpn + n);
                    if !(ve <= old_seg.1 || old_seg.2 <= ve) {
                        let q = if old_seg.1 >= ve {
                            old_seg.1
                        } else {
                            ve
                        };
                        assert(old_seg.1 <= q < old_seg.2);
                        assert(seg_covers(ep, q)) by {
                            assert(ep[ko - off].1 <= q < ep[ko - off].2);
                        }
                        assert((vpn <= q < ve) || (vs <= q < vpn + n));
                        assert(ve <= q < vs || q < ve);
                        assert(false);
                    }
                    assert(old_seg.2 <= ve || vs <= old_seg.1) by {
                        if !(old_seg.2 <= ve) {
                            let q2 = old_seg.1;
                            assert(seg_covers(ep, q2)) by {
                                assert(ep[ko - off].1 <= q2 < ep[ko - off].2);
                            }
                            assert((vpn <= q2 < ve) || (vs <= q2 < vpn + n));
                            if q2 < ve {
                                assert(false);
                            }
                        }
                    }
                }
            }
        },
    }
}

/// The ordered, finite sequence of (level, virtual page range) pairs the
/// solver produced, consumed once from the front.
#[derive(Debug)]
pub struct MapPairs<M: PageMode> {
    pub pairs: Vec<(PageLevel, VirtPageNum, VirtPageNum)>,
    pub pos: usize,
    pub mode: M,
}

impl<M: PageMode> MapPairs<M> {
    /// All produced segments, in order.
    pub open spec fn segs(self) -> Seq<Seg> {
        self.pairs@.map_values(
            |t: (PageLevel, VirtPageNum, VirtPageNum)| (t.0.0 as nat, t.1.0 as int, t.2.0 as int),
        )
    }

    /// The segments not yet handed out.
    pub open spec fn remaining(self) -> Seq<Seg> {
        self.segs().skip(self.pos as int)
    }

    /// The cursor has not run past the end.
    pub open spec fn wf(self) -> bool {
        self.pos <= self.pairs@.len()
    }

    /// Decompose the range of `n` contiguous frames mapped from virtual
    /// page `vpn` to physical page `ppn` into the fewest, largest
    /// segments the alignment of the two starts allows.
    pub fn solve(vpn: VirtPageNum, ppn: PhysPageNum, n: u64, mode: M) -> (r: MapPairs<M>)
        requires
            vpn.0 + n <= pow2(44),
        ensures
            r.wf(),
            r.pos == 0,
            r.mode == mode,
            r.segs() == spec_solve(
                M::spec_entries_bits(),
                M::spec_max_levels(),
                vpn.0 as nat,
                ppn.0 as nat,
                n as nat,
            ),
    {
        let ghost eb = M::spec_entries_bits();
        let ghost lv = M::spec_max_levels();
        let ghost target = spec_solve(eb, lv, vpn.0 as nat, ppn.0 as nat, n as nat);
        proof {
            M::mode_properties();
        }
        let max = M::max_page_levels();
        let mut pairs: Vec<(PageLevel, VirtPageNum, VirtPageNum)> = Vec::new();
        let mut i: u8 = max;
        let mut coarse: Option<u8> = None;
        while i > 0 && coarse.is_none()
            invariant
                i <= max,
                max == lv,
                lv == M::spec_max_levels(),
                eb == M::spec_entries_bits(),
                1 <= lv <= 4,
                1 <= eb <= 12,
                vpn.0 + n <= pow2(44),
                coarse is None ==> spec_coarsest(eb, vpn.0 as nat, ppn.0 as nat, n as nat, lv - 1)
                    == spec_coarsest(eb, vpn.0 as nat, ppn.0 as nat, n as nat, i as int - 1),
                match coarse {
                    Some(c) => c < max && spec_coarsest(
                        eb,
                        vpn.0 as nat,
                        ppn.0 as nat,
                        n as nat,
                        lv - 1,
                    ) == Some(c as nat),
                    None => true,
                },
            decreases i,
        {
            let l = i - 1;
            let align = M::get_layout_for_level(PageLevel(l)).align_in_frames();
            proof {
                lemma_pow2_pos(eb * l as nat);
            }
            if vpn.0 % align == ppn.0 % align && n >= align {
                coarse = Some(l);
            }
            i = l;
        }
        match coarse {
            None => {
                proof {
                    assert(target =~= pairs@.map_values(
                        |t: (PageLevel, VirtPageNum, VirtPageNum)|
                            (t.0.0 as nat, t.1.0 as int, t.2.0 as int),
                    ));
                }
                MapPairs { pairs, pos: 0, mode }
            },
            Some(ci) => {
                let a_i = M::get_layout_for_level(PageLevel(ci)).align_in_frames();
                proof {
                    lemma2_to64();
                    lemma2_to64_rest();
                    lemma_align_bound(eb, ci as nat);
                    lemma_round_up_props(vpn.0 as int, a_i as int);
                    lemma_round_down_props(vpn.0 as int + n, a_i as int);
                }
                let ve_i = round_up_u(vpn.0, a_i);
                let vs_i = round_down_u(vpn.0 + n, a_i);
                if ve_i != vs_i {
                    pairs.push((PageLevel(ci), VirtPageNum(ve_i), VirtPageNum(vs_i)));
                }
                proof {
                    assert(pairs@.map_values(
                        |t: (PageLevel, VirtPageNum, VirtPageNum)|
                            (t.0.0 as nat, t.1.0 as int, t.2.0 as int),
                    ) + spec_edges(eb, vpn.0 as nat, n as nat, ci as int - 1) =~= target);
                }
                let mut ve_prev = ve_i;
                let mut vs_prev = vs_i;
                let mut j: u8 = ci;
                while j > 0
                    invariant
                        j <= ci,
                        ci < lv,
                        lv == M::spec_max_levels(),
                        eb == M::spec_entries_bits(),
                        1 <= lv <= 4,
                        1 <= eb <= 12,
                        vpn.0 + n <= pow2(44),
                        ve_prev == round_up_to(vpn.0 as int, pow2(eb * j as nat) as int),
                        vs_prev == round_down_to(vpn.0 as int + n, pow2(eb * j as nat) as int),
                        pairs@.map_values(
                            |t: (PageLevel, VirtPageNum, VirtPageNum)|
                                (t.0.0 as nat, t.1.0 as int, t.2.0 as int),
                        ) + spec_edges(eb, vpn.0 as nat, n as nat, j as int - 1) == target,
                    decreases j,
                {
                    let l = j - 1;
                    let a = M::get_layout_for_level(PageLevel(l)).align_in_frames();
                    proof {
                        lemma2_to64();
                        lemma2_to64_rest();
                        lemma_align_bound(eb, l as nat);
                        lemma_round_up_props(vpn.0 as int, a as int);
                        lemma_round_down_props(vpn.0 as int + n, a as int);
                    }
                    let ve_cur = round_up_u(vpn.0, a);
                    let vs_cur = round_down_u(vpn.0 + n, a);
                    let ghost pairs_before = pairs@;
                    if ve_cur != ve_prev {
                        pairs.push((PageLevel(l), VirtPageNum(ve_cur), VirtPageNum(ve_prev)));
                    }
                    if vs_prev != vs_cur {
                        pairs.push((PageLevel(l), VirtPageNum(vs_prev), VirtPageNum(vs_cur)));
                    }
                    proof {
                        assert(pairs@.map_values(
                            |t: (PageLevel, VirtPageNum, VirtPageNum)|
                                (t.0.0 as nat, t.1.0 as int, t.2.0 as int),
                        ) + spec_edges(eb, vpn.0 as nat, n as nat, l as int - 1) =~= target);
                    }
                    ve_prev = ve_cur;
                    vs_prev = vs_cur;
                    j = l;
                }
                proof {
                    assert(pairs@.map_values(
                        |t: (PageLevel, VirtPageNum, VirtPageNum)|
                            (t.0.0 as nat, t.1.0 as int, t.2.0 as int),
                    ) =~= target);
                }
                MapPairs { pairs, pos: 0, mode }
            },
        }
    }

    /// The next segment in order, or `None` when all have been produced.
    pub fn next(&mut self) -> (r: Option<(PageLevel, core::ops::Range<VirtPageNum>)>)
        requires
            old(self).wf(),
        ensures
            final(self).wf(),
            final(self).segs() == old(self).segs(),
            old(self).remaining().len() == 0 ==> r is None && final(self).remaining()
                =~= old(self).remaining(),
            old(self).remaining().len() > 0 ==> final(self).remaining() =~= old(
                self,
            ).remaining().skip(1) && match r {
                Some(t) => (t.0.0 as nat, t.1.start.0 as int, t.1.end.0 as int) == old(
                    self,
                ).remaining()[0],
                None => false,
            },
    {
        if self.pos < self.pairs.len() {
            let (lvl, s, e) = self.pairs[self.pos];
            self.pos = self.pos + 1;
            Some((lvl, s..e))
        } else {
            None
        }
    }
}

} // verus!
