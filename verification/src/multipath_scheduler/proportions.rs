//! The proportions of the weights of a plan.
use vstd::arithmetic::power2::pow2;
use vstd::prelude::*;

use crate::multipath_scheduler::candidate::{candidate, law_candidates_are_the_usable_paths};
use crate::multipath_scheduler::copies::{first_weight, lemma_first_weight};
use crate::multipath_scheduler::delays::lemma_zero_times;
use crate::multipath_scheduler::laws::lemma_ranked;
use crate::multipath_scheduler::plan::{
    exponents_for, find_weight, gate_exponent, late, plan_for, ranked_candidates, raw_weight,
    raws_of, smoothed, total, usable_of, weight_before,
};
use crate::multipath_scheduler::weights::{
    law_smoothed_shares_can_be_balanced, lemma_parts_at_most, lemma_raws_plain, lemma_smoothed_of,
    lemma_total_finite, lemma_unit_product, smoothable, smoothed_of,
};
use crate::multipath_scheduler::{Config, Epoch, PathId, PathWeight};
use crate::num::bounds::{lemma_order, lemma_sum_above};
use crate::num::close::{
    close, lemma_close_more, lemma_close_proportion, lemma_close_scale, lemma_close_sum,
    lemma_close_trans, lemma_diff_close, lemma_fraction_close, lemma_gap, lemma_large_one,
    lemma_prod_close, lemma_quot_close, lemma_sum_close, lemma_very_large_one, lemma_zero_prod,
    lemma_zero_quot,
};
use crate::num::double::{fraction, lemma_double, lemma_mag_order, of_whole, signed, F64};
use crate::num::exact::{lemma_whole_exact, one};
use crate::num::facts::{lemma_quot_at_most_one, lemma_zero_one};

verus! {

/// The raw weight of the candidate that arrives at the place `i`.
pub open spec fn raw_at(cfg: Config, inp: Epoch, gates: Seq<F64>, i: int) -> F64 {
    let ranked = ranked_candidates(cfg, inp);
    raw_weight(cfg, inp.paths, ranked[i], ranked[0], gates[ranked[i].slot as int])
}

/// Raw weights with a sum that is neither nothing nor very large, of up to a million paths.
pub open spec fn comparable(cfg: Config, inp: Epoch, gates: Seq<F64>) -> bool {
    let whole = total(raws_of(cfg, inp, gates));
    &&& inp.paths.len() <= 1_000_000
    &&& usable_of(cfg, inp).len() >= 2
    &&& whole.plain()
    &&& 0 < whole.mag() <= 0x1_0000_0000_0000_0000_0000_0000 * one()
}

/// A raw weight is nothing, or a billionth at least.
proof fn lemma_raw_size(cfg: Config, inp: Epoch, gates: Seq<F64>, i: int)
    requires
        comparable(cfg, inp, gates),
        0 <= i < ranked_candidates(cfg, inp).len(),
    ensures
        raws_of(cfg, inp, gates)[i] == raw_at(cfg, inp, gates, i),
        raw_at(cfg, inp, gates, i).plain(),
        raw_at(cfg, inp, gates, i).mag() <= total(raws_of(cfg, inp, gates)).mag(),
        raw_at(cfg, inp, gates, i).mag() == 0 || 2_000_000_000 * raw_at(cfg, inp, gates, i).mag()
            >= one(),
{
    lemma_large_one();
    lemma_zero_one();
    let raws = raws_of(cfg, inp, gates);
    lemma_raws_plain(cfg, inp, gates);
    let r = raw_at(cfg, inp, gates, i);
    assert(raws[i] == r);
    assert(raws[i].plain());
    lemma_parts_at_most(raws, i);
    lemma_mag_order(r, total(raws));
    lemma_mag_order(total(raws), r);
    lemma_fraction_close(1, 1_000_000_000);
    let least = fraction(1, 1_000_000_000);
    lemma_order(r, least);
    lemma_mag_order(r, least);
    lemma_mag_order(r, signed(false, 0));
}

/// A share of a sum.
pub proof fn law_shares_are_parts_of_the_sum(cfg: Config, inp: Epoch, gates: Seq<F64>, i: int)
    requires
        comparable(cfg, inp, gates),
        0 <= i < ranked_candidates(cfg, inp).len(),
    ensures
        ({
            let whole = total(raws_of(cfg, inp, gates));
            let raw = raw_at(cfg, inp, gates, i);
            let share = raw.quot(whole);
            &&& share.plain()
            &&& share.mag() <= one()
            &&& raw.mag() == 0 ==> share.mag() == 0
            &&& raw.mag() > 0 ==> share.mag()
                >= 0x1_0000_0000_0000_0000_0000_0000_0000_0000
            &&& close(share.value() * whole.value(), raw.value() * one(), 1)
        }),
{
    lemma_double();
    lemma_large_one();
    lemma_very_large_one();
    lemma_zero_one();
    lemma_whole_exact(1);
    lemma_raw_size(cfg, inp, gates, i);
    let c = one() as int;
    let whole = total(raws_of(cfg, inp, gates));
    let raw = raw_at(cfg, inp, gates, i);
    lemma_mag_order(whole, signed(false, 0));
    let (r, t) = (raw.mag() as int, whole.mag() as int);
    let q = raw.quot(whole);
    if r == 0 {
        lemma_zero_quot(raw, whole);
        assert(0 * t == 0 && 0 * c == 0) by (nonlinear_arith);
    } else {
        let big = pow2(2000) as int;
        assert(r * c >= 0x10_0000_0000_0000 * t && r * c <= big * t) by (nonlinear_arith)
            requires
                2_000_000_000 * r >= c,
                r <= t,
                0 < t <= 0x1_0000_0000_0000_0000_0000_0000 * c,
                big >= c,
                c >= 0x1_0000_0000_0000_0000_0000_0000_0000_0000_0000_0000_0000_0000_0000_0000_0000_0000,
        {
            assert(2_000_000_000 * (r * c) >= c * c);
            assert(c * c >= (2_000_000_000 * 0x10_0000_0000_0000) * t);
            assert(r * c <= t * c);
        }
        lemma_quot_close(raw, whole);
        lemma_quot_at_most_one(raw, whole);
        lemma_order(q, of_whole(1));
        lemma_mag_order(of_whole(1), q);
        let s = q.mag() as int;
        assert(s >= 0x1_0000_0000_0000_0000_0000_0000_0000_0000) by (nonlinear_arith)
            requires
                2 * (s * t) >= r * c,
                2_000_000_000 * r >= c,
                0 < t <= 0x1_0000_0000_0000_0000_0000_0000 * c,
                c >= 0x1_0000_0000_0000_0000_0000_0000_0000_0000_0000_0000_0000_0000_0000_0000_0000_0000,
                s >= 0,
        {
            assert(4_000_000_000 * (s * t) >= c * c);
            assert(s * t <= s * (0x1_0000_0000_0000_0000_0000_0000 * c));
            assert((4_000_000_000 * 0x1_0000_0000_0000_0000_0000_0000 * s) * c >= c * c);
            assert(4_000_000_000 * 0x1_0000_0000_0000_0000_0000_0000 * s >= c);
        }
    }
}

/// The weight of a path is its smoothed share over the sum of all of them.
proof fn lemma_weight(cfg: Config, inp: Epoch, gates: Seq<F64>, i: int)
    requires
        comparable(cfg, inp, gates),
        smoothable(cfg, inp.prev_weights),
        inp.prev_weights is None || fraction(1, 10).at_most(cfg.smooth_alpha),
        !signed(false, 0).less(cfg.min_share),
        inp.paths.len() <= usize::MAX,
        0 <= i < ranked_candidates(cfg, inp).len(),
        smoothed_of(cfg, inp, gates)[i].mag() == 0 || smoothed_of(cfg, inp, gates)[i].mag()
            >= 0x1_0000_0000_0000_0000_0000_0000_0000,
    ensures
        plan_for(cfg, inp, gates) matches Some(plan) && {
            let x = smoothed_of(cfg, inp, gates)[i];
            let whole = total(smoothed_of(cfg, inp, gates));
            let w = plan.weights[i].weight;
            &&& plan.weights.len() == ranked_candidates(cfg, inp).len()
            &&& plan.weights[i].id == ranked_candidates(cfg, inp)[i].id
            &&& x.plain()
            &&& whole.plain()
            &&& whole.mag() > 0
            &&& w.plain()
            &&& close(w.value() * whole.value(), x.value() * one(), 1)
        },
{
    lemma_double();
    lemma_large_one();
    lemma_zero_one();
    law_candidates_are_the_usable_paths(cfg, inp.now_ms, inp.packet_len_hint, inp.paths);
    lemma_ranked(cfg, inp);
    let raws = raws_of(cfg, inp, gates);
    lemma_order(total(raws), total(raws));
    lemma_mag_order(total(raws), signed(false, 0));
    law_smoothed_shares_can_be_balanced(cfg, inp, gates);
    lemma_smoothed_of(cfg, inp, gates);
    let xs = smoothed_of(cfg, inp, gates);
    lemma_total_finite(xs);
    let whole = total(xs);
    let x = xs[i];
    lemma_order(whole, whole);
    lemma_mag_order(whole, signed(false, 0));
    lemma_parts_at_most(xs, i);
    lemma_mag_order(x, whole);
    lemma_mag_order(whole, x);
    let c = one() as int;
    let (m, t) = (x.mag() as int, whole.mag() as int);
    assert(t <= 4_000_000 * c) by (nonlinear_arith)
        requires
            t <= 4 * xs.len() * c,
            xs.len() <= 1_000_000,
            c >= 0,
    ;
    if m == 0 {
        lemma_zero_quot(x, whole);
        assert(0 * t == 0 && 0 * c == 0) by (nonlinear_arith);
    } else {
        let big = pow2(2000) as int;
        assert(m * c >= 0x10_0000_0000_0000 * t && m * c <= big * t) by (nonlinear_arith)
            requires
                0x1_0000_0000_0000_0000_0000_0000_0000 <= m,
                m <= t,
                0 < t <= 4_000_000 * c,
                big >= c,
                c > 0,
        ;
        lemma_quot_close(x, whole);
    }
    assert(plan_for(cfg, inp, gates) is Some);
    let plan = plan_for(cfg, inp, gates).unwrap();
    assert(plan.weights[i].weight == x.quot(whole));
}

/// Without weights of the epoch before and without a least share, the weights of two paths are
/// in the proportion of their raw weights.
pub proof fn law_weights_are_in_proportion(
    cfg: Config,
    inp: Epoch,
    gates: Seq<F64>,
    i: int,
    j: int,
)
    requires
        comparable(cfg, inp, gates),
        inp.prev_weights is None,
        cfg.min_share.value() <= 0,
        !cfg.min_share.nan(),
        inp.paths.len() <= usize::MAX,
        0 <= i < ranked_candidates(cfg, inp).len(),
        0 <= j < ranked_candidates(cfg, inp).len(),
    ensures
        plan_for(cfg, inp, gates) matches Some(plan) && {
            &&& plan.weights.len() == ranked_candidates(cfg, inp).len()
            &&& plan.weights[i].id == ranked_candidates(cfg, inp)[i].id
            &&& close(
                plan.weights[i].weight.value() * raw_at(cfg, inp, gates, j).value(),
                raw_at(cfg, inp, gates, i).value() * plan.weights[j].weight.value(),
                7,
            )
        },
{
    lemma_large_one();
    lemma_zero_one();
    lemma_whole_exact(1);
    lemma_raw_size(cfg, inp, gates, i);
    lemma_raw_size(cfg, inp, gates, j);
    law_shares_are_parts_of_the_sum(cfg, inp, gates, i);
    law_shares_are_parts_of_the_sum(cfg, inp, gates, j);
    let c = one() as int;
    let xs = smoothed_of(cfg, inp, gates);
    let raws = raws_of(cfg, inp, gates);
    let t1 = total(raws).value();
    assert(xs[i] == raw_at(cfg, inp, gates, i).quot(total(raws)));
    assert(xs[j] == raw_at(cfg, inp, gates, j).quot(total(raws)));
    lemma_weight(cfg, inp, gates, i);
    lemma_weight(cfg, inp, gates, j);
    let plan = plan_for(cfg, inp, gates).unwrap();
    let t2 = total(xs).value();
    let (v, w) = (plan.weights[i].weight.value(), plan.weights[j].weight.value());
    let (a, b) = (raw_at(cfg, inp, gates, i).value(), raw_at(cfg, inp, gates, j).value());
    lemma_two_steps(v, xs[i].value(), a, t1, t2, c);
    lemma_two_steps(w, xs[j].value(), b, t1, t2, c);
    let t = t2 * t1;
    let q = c * c;
    assert(t > 0 && a * q >= 0 && b * q >= 0 && q > 0) by (nonlinear_arith)
        requires
            t == t2 * t1,
            t1 > 0,
            t2 > 0,
            a >= 0,
            b >= 0,
            q == c * c,
            c > 0,
    ;
    lemma_close_proportion(v, a * q, 3, w, b * q, 3, t);
    assert(v * (b * q) == (v * b) * q && (a * q) * w == (a * w) * q) by (nonlinear_arith);
    lemma_close_scale(v * b, a * w, 7, q);
}

/// A share of a share.
proof fn lemma_two_steps(w: int, x: int, raw: int, t1: int, t2: int, c: int)
    requires
        close(w * t2, x * c, 1),
        close(x * t1, raw * c, 1),
        w >= 0,
        x >= 0,
        raw >= 0,
        t1 > 0,
        t2 > 0,
        c > 0,
    ensures
        close(w * (t2 * t1), raw * (c * c), 3),
{
    lemma_close_scale(w * t2, x * c, 1, t1);
    lemma_close_scale(x * t1, raw * c, 1, c);
    assert((w * t2) * t1 == w * (t2 * t1) && (x * c) * t1 == (x * t1) * c && (raw * c) * c == raw
        * (c * c)) by (nonlinear_arith);
    assert((x * t1) * c >= 0 && raw * (c * c) >= 0) by (nonlinear_arith)
        requires
            x >= 0,
            t1 > 0,
            c > 0,
            raw >= 0,
    ;
    lemma_close_trans(w * (t2 * t1), (x * t1) * c, 1, raw * (c * c), 1);
}

/// What the first weight with an identifier was in the epoch before, if there was one.
pub open spec fn known_before(
    prev: Option<Seq<PathWeight>>,
    id: PathId,
    before: Option<F64>,
) -> bool {
    match (prev, before) {
        (None, None) => true,
        (None, Some(w)) => false,
        (Some(ws), None) => forall|k: int| 0 <= k < ws.len() ==> (#[trigger] ws[k]).id != id,
        (Some(ws), Some(w)) => exists|k: int|
            #[trigger] first_weight(ws, id, k) && ws[k].weight == w,
    }
}

proof fn lemma_not_known(ws: Seq<PathWeight>, id: PathId)
    requires
        forall|k: int| 0 <= k < ws.len() ==> (#[trigger] ws[k]).id != id,
    ensures
        find_weight(ws, id) is None,
    decreases ws.len(),
{
    if ws.len() > 0 {
        assert(ws[0].id != id);
        let rest = ws.drop_first();
        assert forall|k: int| 0 <= k < rest.len() implies (#[trigger] rest[k]).id != id by {
            assert(ws[k + 1].id != id);
        }
        lemma_not_known(rest, id);
    }
}

proof fn lemma_known(prev: Option<Seq<PathWeight>>, id: PathId, before: Option<F64>)
    requires
        known_before(prev, id, before),
    ensures
        weight_before(prev, id) == before,
{
    match (prev, before) {
        (Some(ws), Some(w)) => {
            let k = choose|k: int| #[trigger] first_weight(ws, id, k) && ws[k].weight == w;
            lemma_first_weight(ws, id, k);
        },
        (Some(ws), None) => {
            lemma_not_known(ws, id);
        },
        _ => {},
    }
}

/// A share, pulled towards the weight before: the smoothing parameter of the one, and what it
/// leaves of the other.
pub open spec fn pulled(alpha: int, share: int, before: Option<F64>) -> int {
    let c = one() as int;
    match before {
        None => share * c,
        Some(w) => alpha * share + (c - alpha) * w.value(),
    }
}

/// A weight before that can be smoothed with: nothing, or a number from 2^-64 to one.
pub open spec fn usual(before: Option<F64>) -> bool {
    before matches Some(w) ==> w.plain() && w.mag() <= one() && (w.mag() == 0 || one()
        <= 0x1_0000_0000_0000_0000 * w.mag())
}

/// The second part of a smoothed share.
proof fn lemma_remembered(alpha: F64, w: F64)
    requires
        alpha.plain(),
        alpha.mag() <= one() <= 11 * alpha.mag(),
        w.plain(),
        w.mag() <= one(),
        w.mag() == 0 || one() <= 0x1_0000_0000_0000_0000 * w.mag(),
    ensures
        ({
            let c = one() as int;
            let v = of_whole(1).diff(alpha).prod(w);
            &&& v.plain()
            &&& v.mag() <= 2 * one()
            &&& v.mag() == 0 || v.mag() >= 0x1_0000_0000_0000_0000_0000_0000_0000
            &&& close(v.value() * c, (c - alpha.value()) * w.value(), 3)
        }),
{
    lemma_double();
    lemma_large_one();
    lemma_very_large_one();
    lemma_zero_one();
    lemma_whole_exact(1);
    let c = one() as int;
    let d = of_whole(1).diff(alpha);
    lemma_diff_close(of_whole(1), alpha);
    let (a, x, p) = (alpha.mag() as int, d.mag() as int, w.mag() as int);
    let v = d.prod(w);
    if a == c {
        lemma_zero_times(d, w);
        assert(0 * c == 0 && 0 * p == 0) by (nonlinear_arith);
    } else if p == 0 {
        lemma_zero_prod(d, w);
        assert(0 * c == 0 && (c - a) * 0 == 0) by (nonlinear_arith);
    } else {
        lemma_mag_order(alpha, of_whole(1));
        lemma_normal(alpha);
        lemma_gap(alpha, of_whole(1));
        let e = c - a;
        assert(2 * x >= e && x <= 2 * e);
        let big = pow2(2000) as int;
        assert(x * p >= 0x10_0000_0000_0000 * c && x * p <= big * c && x * p
            >= (0x2_0000_0000_0000_0000_0000_0000_0000) * c && x * p <= (2 * c) * c) by (nonlinear_arith)
            requires
                2 * x >= e,
                x <= 2 * e,
                0 < e <= c,
                0x20_0000_0000_0000 * e >= a,
                11 * a >= c,
                c <= 0x1_0000_0000_0000_0000 * p,
                0 < p <= c,
                big >= 2 * c,
                c >= 0x1_0000_0000_0000_0000_0000_0000_0000_0000_0000_0000_0000_0000_0000_0000_0000_0000,
        {
            assert(0x400_0000_0000_0000 * x >= c);
            assert((0x400_0000_0000_0000 * 0x1_0000_0000_0000_0000) * (x * p) >= c * c) by {
                assert((0x400_0000_0000_0000 * x) * (0x1_0000_0000_0000_0000 * p) >= c * c);
            }
            assert(x * p <= (2 * c) * p);
            assert((2 * c) * p <= (2 * c) * c);
            assert((2 * c) * c <= big * c);
        }
        lemma_prod_close(d, w);
        let r = v.mag() as int;
        assert(2 * (r * c) >= x * p);
        assert(r >= 0x1_0000_0000_0000_0000_0000_0000_0000) by (nonlinear_arith)
            requires
                2 * (r * c) >= (0x2_0000_0000_0000_0000_0000_0000_0000) * c,
                c > 0,
        ;
        lemma_close_scale(x, e, 1, p);
        assert(x * p >= 0 && e * p >= 0) by (nonlinear_arith)
            requires
                x >= 0,
                e >= 0,
                p >= 0,
        ;
        lemma_close_trans(r * c, x * p, 1, e * p, 1);
        lemma_share_of(d, w);
    }
}

/// A number of a tenth or so is not one of the smallest.
proof fn lemma_normal(a: F64)
    requires
        a.plain(),
        11 * a.mag() >= one(),
    ensures
        a.low() >= 0x10_0000_0000_0000,
{
    lemma_large_one();
    if a.low() < 0x10_0000_0000_0000 {
        assert(a.mag() == a.low());
    }
}

/// A smoothed share.
proof fn lemma_pulled(cfg: Config, share: F64, before: Option<F64>)
    requires
        share.plain(),
        share.mag() <= one(),
        share.mag() == 0 || share.mag() >= 0x1_0000_0000_0000_0000_0000_0000_0000_0000,
        usual(before),
        before is Some ==> cfg.smooth_alpha.plain() && cfg.smooth_alpha.mag() <= one() <= 11
            * cfg.smooth_alpha.mag(),
    ensures
        ({
            let x = smoothed(cfg, share, before);
            let y = pulled(cfg.smooth_alpha.value(), share.value(), before);
            &&& x.plain()
            &&& x.mag() == 0 || x.mag() >= 0x1_0000_0000_0000_0000_0000_0000_0000
            &&& y >= 0
            &&& close(x.value() * one(), y, 5)
        }),
{
    lemma_double();
    lemma_large_one();
    lemma_very_large_one();
    lemma_zero_one();
    let c = one() as int;
    let s = share.mag() as int;
    match before {
        None => {
            assert(s * c >= 0) by (nonlinear_arith)
                requires
                    s >= 0,
                    c >= 0,
            ;
        },
        Some(w) => {
            let alpha = cfg.smooth_alpha;
            let a = alpha.mag() as int;
            lemma_remembered(alpha, w);
            let v = of_whole(1).diff(alpha).prod(w);
            let u = alpha.prod(share);
            let e = (c - a) * w.value();
            assert(e >= 0) by (nonlinear_arith)
                requires
                    e == (c - a) * w.value(),
                    a <= c,
                    w.value() >= 0,
            ;
            if s == 0 {
                lemma_zero_prod(alpha, share);
                assert(0 * c == 0 && a * 0 == 0) by (nonlinear_arith);
                assert(close(u.value() * c, a * s, 3));
            } else {
                let big = pow2(2000) as int;
                assert(a * s >= 0x10_0000_0000_0000 * c && a * s <= big * c && a * s
                    >= (0x2_0000_0000_0000_0000_0000_0000_0000) * c && a * s <= c * c)
                    by (nonlinear_arith)
                    requires
                        11 * a >= c,
                        0 <= a <= c,
                        0x1_0000_0000_0000_0000_0000_0000_0000_0000 <= s <= c,
                        big >= c,
                        c > 0,
                {
                    assert(11 * (a * s) >= c * s);
                    assert(c * s >= c * 0x1_0000_0000_0000_0000_0000_0000_0000_0000);
                    assert(a * s <= c * s);
                    assert(c * s <= c * c);
                    assert(c * c <= big * c);
                }
                lemma_prod_close(alpha, share);
                let r = u.mag() as int;
                assert(2 * (r * c) >= a * s);
                assert(r >= 0x1_0000_0000_0000_0000_0000_0000_0000) by (nonlinear_arith)
                    requires
                        2 * (r * c) >= (0x2_0000_0000_0000_0000_0000_0000_0000) * c,
                        c > 0,
                ;
                assert(a * s >= 0);
                lemma_close_more(r * c, a * s, 1, 3);
                lemma_share_of(alpha, share);
            }
            assert(a * s >= 0) by (nonlinear_arith)
                requires
                    a >= 0,
                    s >= 0,
            ;
            let (p, q) = (u.mag() as int, v.mag() as int);
            lemma_close_sum(p * c, a * s, q * c, e, 3);
            assert(p <= c);
            lemma_sum_close(u, v);
            let x = u.sum(v);
            lemma_sum_above(u, v);
            lemma_mag_order(u, x);
            lemma_mag_order(v, x);
            let z = x.mag() as int;
            lemma_close_scale(z, p + q, 1, c);
            assert((p + q) * c == p * c + q * c) by (nonlinear_arith);
            assert((p + q) * c >= 0) by (nonlinear_arith)
                requires
                    p >= 0,
                    q >= 0,
                    c >= 0,
            ;
            lemma_close_trans(z * c, (p + q) * c, 1, a * s + e, 3);
        },
    }
}

/// A number times one up to one is not larger.
proof fn lemma_share_of(a: F64, b: F64)
    requires
        a.plain(),
        b.plain(),
        a.mag() <= one(),
        b.mag() <= one(),
    ensures
        a.prod(b).mag() <= one(),
{
    lemma_zero_one();
    lemma_whole_exact(1);
    lemma_order(a, of_whole(1));
    lemma_order(b, of_whole(1));
    lemma_unit_product(a, b);
    lemma_order(a.prod(b), of_whole(1));
    lemma_mag_order(of_whole(1), a.prod(b));
}

/// Without a least share, the weights of two paths are in the proportion of their shares, each
/// pulled towards the weight that the path had before, if it had one.
pub proof fn law_weights_are_smoothed(
    cfg: Config,
    inp: Epoch,
    gates: Seq<F64>,
    i: int,
    j: int,
    before_i: Option<F64>,
    before_j: Option<F64>,
)
    requires
        comparable(cfg, inp, gates),
        smoothable(cfg, inp.prev_weights),
        inp.prev_weights is Some ==> fraction(1, 10).at_most(cfg.smooth_alpha),
        cfg.min_share.value() <= 0,
        inp.paths.len() <= usize::MAX,
        0 <= i < ranked_candidates(cfg, inp).len(),
        0 <= j < ranked_candidates(cfg, inp).len(),
        known_before(inp.prev_weights, ranked_candidates(cfg, inp)[i].id, before_i),
        known_before(inp.prev_weights, ranked_candidates(cfg, inp)[j].id, before_j),
        usual(before_i),
        usual(before_j),
    ensures
        plan_for(cfg, inp, gates) matches Some(plan) && {
            let alpha = cfg.smooth_alpha.value();
            let whole = total(raws_of(cfg, inp, gates));
            let (s, t) = (
                raw_at(cfg, inp, gates, i).quot(whole).value(),
                raw_at(cfg, inp, gates, j).quot(whole).value(),
            );
            &&& plan.weights.len() == ranked_candidates(cfg, inp).len()
            &&& plan.weights[i].id == ranked_candidates(cfg, inp)[i].id
            &&& close(
                plan.weights[i].weight.value() * pulled(alpha, t, before_j),
                pulled(alpha, s, before_i) * plan.weights[j].weight.value(),
                15,
            )
        },
{
    lemma_large_one();
    lemma_zero_one();
    lemma_whole_exact(1);
    lemma_raw_size(cfg, inp, gates, i);
    lemma_raw_size(cfg, inp, gates, j);
    law_shares_are_parts_of_the_sum(cfg, inp, gates, i);
    law_shares_are_parts_of_the_sum(cfg, inp, gates, j);
    let alpha = cfg.smooth_alpha;
    if inp.prev_weights is Some {
        lemma_fraction_close(1, 10);
        lemma_order(alpha, of_whole(1));
        lemma_order(fraction(1, 10), alpha);
        lemma_mag_order(of_whole(1), alpha);
        lemma_mag_order(alpha, fraction(1, 10));
    }
    let xs = smoothed_of(cfg, inp, gates);
    let raws = raws_of(cfg, inp, gates);
    let ranked = ranked_candidates(cfg, inp);
    lemma_known(inp.prev_weights, ranked[i].id, before_i);
    lemma_known(inp.prev_weights, ranked[j].id, before_j);
    let (s, t) = (
        raw_at(cfg, inp, gates, i).quot(total(raws)),
        raw_at(cfg, inp, gates, j).quot(total(raws)),
    );
    assert(xs[i] == smoothed(cfg, s, before_i));
    assert(xs[j] == smoothed(cfg, t, before_j));
    lemma_pulled(cfg, s, before_i);
    lemma_pulled(cfg, t, before_j);
    lemma_weight(cfg, inp, gates, i);
    lemma_weight(cfg, inp, gates, j);
    let plan = plan_for(cfg, inp, gates).unwrap();
    let whole = total(xs).value();
    let c = one() as int;
    let (v, w) = (plan.weights[i].weight.value(), plan.weights[j].weight.value());
    let (a, b) = (pulled(alpha.value(), s.value(), before_i), pulled(
        alpha.value(),
        t.value(),
        before_j,
    ));
    let (x, y) = (xs[i].value(), xs[j].value());
    assert(x * c >= 0 && y * c >= 0) by (nonlinear_arith)
        requires
            x >= 0,
            y >= 0,
            c >= 0,
    ;
    lemma_close_trans(v * whole, x * c, 1, a, 5);
    lemma_close_trans(w * whole, y * c, 1, b, 5);
    lemma_close_proportion(v, a, 7, w, b, 7, whole);
}

/// Where no path has a raw weight, the fastest one carries all the load, and nothing is sent
/// twice.
pub proof fn law_without_weights_the_fastest_carries_all(cfg: Config, inp: Epoch, gates: Seq<F64>)
    requires
        inp.paths.len() <= usize::MAX,
        usable_of(cfg, inp).len() >= 2,
        forall|i: int|
            0 <= i < ranked_candidates(cfg, inp).len() ==> (#[trigger] raw_at(
                cfg,
                inp,
                gates,
                i,
            )).plain() && raw_at(cfg, inp, gates, i).mag() == 0,
    ensures
        plan_for(cfg, inp, gates) matches Some(plan) && {
            &&& plan.weights.len() == 1
            &&& plan.weights[0].id == ranked_candidates(cfg, inp)[0].id
            &&& plan.weights[0].weight.value() == one()
            &&& plan.redundancy is Off
            &&& plan.valid_until_ms == inp.now_ms + inp.epoch_ms
        },
{
    lemma_zero_one();
    lemma_whole_exact(1);
    let raws = raws_of(cfg, inp, gates);
    assert forall|i: int| 0 <= i < raws.len() implies (#[trigger] raws[i]).plain()
        && raws[i].mag() == 0 by {
        assert(raws[i] == raw_at(cfg, inp, gates, i));
    }
    lemma_nothing_adds_up(raws);
    lemma_order(total(raws), signed(false, 0));
}

/// Nothing, added up, is nothing.
proof fn lemma_nothing_adds_up(xs: Seq<F64>)
    requires
        forall|i: int| 0 <= i < xs.len() ==> (#[trigger] xs[i]).plain() && xs[i].mag() == 0,
    ensures
        total(xs).plain(),
        total(xs).mag() == 0,
    decreases xs.len(),
{
    lemma_double();
    lemma_zero_one();
    if xs.len() > 0 {
        let front = xs.drop_last();
        assert forall|i: int| 0 <= i < front.len() implies (#[trigger] front[i]).plain()
            && front[i].mag() == 0 by {
            assert(xs[i].plain());
        }
        lemma_nothing_adds_up(front);
        assert(xs.last() == xs[xs.len() - 1]);
    }
}

/// A plan holds until the end of its epoch.
pub proof fn law_plans_hold_for_their_epoch(cfg: Config, inp: Epoch, gates: Seq<F64>)
    ensures
        plan_for(cfg, inp, gates) is Some <==> usable_of(cfg, inp).len() > 0,
        plan_for(cfg, inp, gates) matches Some(plan) ==> plan.valid_until_ms == inp.now_ms
            + inp.epoch_ms,
{
}

/// The exponents of the gates, one for each path: that of a usable path that arrives beyond the
/// budget behind the fastest, and nothing for every other path.
pub proof fn law_gates_are_for_late_paths(cfg: Config, inp: Epoch, k: int)
    requires
        0 <= k < inp.paths.len() <= usize::MAX,
    ensures
        ({
            let c = candidate(cfg, inp.now_ms, inp.packet_len_hint, inp.paths[k], k as usize);
            let fastest = ranked_candidates(cfg, inp)[0];
            let e = exponents_for(cfg, inp);
            &&& e.len() == inp.paths.len()
            &&& cfg.enable_blest && usable_of(cfg, inp).len() >= 2 && inp.paths[k].usable() && late(
                cfg,
                c,
                fastest,
            ) ==> e[k] == gate_exponent(cfg, c, fastest)
            &&& !cfg.enable_blest || !inp.paths[k].usable() || !late(cfg, c, fastest) || usable_of(
                cfg,
                inp,
            ).len() < 2 ==> e[k].value() == 0
        }),
{
    lemma_zero_one();
}

} // verus!
