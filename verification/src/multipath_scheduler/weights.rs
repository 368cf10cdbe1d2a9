//! The weights of a plan add up to one, and none is below the least share.
use vstd::arithmetic::power2::{
    lemma2_to64, lemma2_to64_rest, lemma_pow2_adds, lemma_pow2_pos, pow2,
};
use vstd::arithmetic::div_mod::lemma_fundamental_div_mod;
use vstd::prelude::*;

use crate::multipath_scheduler::candidate::{
    law_candidates_are_the_usable_paths, law_sorting_is_stable,
};
use crate::multipath_scheduler::least::{grantable, granted, lemma_granted};
use crate::multipath_scheduler::plan::{
    evened, find_weight, plan_for, raised, ranked_candidates, raws_of, shares, smoothed,
    smoothed_shares, total, usable_of, weight_before,
};
use crate::multipath_scheduler::{Config, Epoch, PathWeight};
use crate::num::bounds::{
    lemma_error, lemma_order, lemma_prod_pattern, lemma_quot_monotone, lemma_quot_pattern,
    lemma_sum_above, lemma_sum_pattern, lemma_units_at_most, lemma_units_error,
};
use crate::num::double::{fraction, lemma_double, lemma_mag_order, of_whole, signed, F64};
use crate::num::exact::{lemma_fraction_digits, lemma_whole_exact, one};
use crate::num::facts::{lemma_fraction_at_most_one, lemma_quot_at_most_one, lemma_zero_one};
use crate::num::format::{
    double, lemma_magnitude_of_digits, lemma_nearest, lemma_nearest_at_least, lemma_nearest_at_most,
    Exact,
};

verus! {

/// The exact sum of some numbers, in units.
pub open spec fn exact_sum(xs: Seq<F64>) -> int
    decreases xs.len(),
{
    if xs.len() == 0 {
        0
    } else {
        exact_sum(xs.drop_last()) + xs.last().value()
    }
}

/// A number from zero to one.
pub open spec fn unit(w: F64) -> bool {
    w.plain() && w.at_most(of_whole(1))
}

/// Every number is finite and not negative.
pub open spec fn all_plain(xs: Seq<F64>) -> bool {
    forall|i: int| 0 <= i < xs.len() ==> (#[trigger] xs[i]).plain()
}

/// Sums of numbers that are not negative are not negative.
proof fn lemma_total_nonneg(xs: Seq<F64>)
    requires
        all_plain(xs),
    ensures
        total(xs).nonneg(),
        total(xs).finite() && xs.len() > 0 ==> total(xs.drop_last()).plain(),
    decreases xs.len(),
{
    if xs.len() > 0 {
        let front = xs.drop_last();
        assert(all_plain(front));
        lemma_total_nonneg(front);
        assert(xs.last().plain());
        if total(front).finite() {
            lemma_sum_pattern(total(front), xs.last());
        }
    }
}

/// A finite sum has finite parts.
pub proof fn lemma_parts_finite(xs: Seq<F64>)
    requires
        total(xs).finite(),
    ensures
        forall|i: int| 0 <= i < xs.len() ==> (#[trigger] xs[i]).finite(),
    decreases xs.len(),
{
    if xs.len() > 0 {
        let front = xs.drop_last();
        assert(total(front).finite() && xs.last().finite());
        lemma_parts_finite(front);
        assert forall|i: int| 0 <= i < xs.len() implies (#[trigger] xs[i]).finite() by {
            if i < front.len() {
                assert(front[i].finite());
            }
        }
    }
}

/// No part is larger than the sum.
pub proof fn lemma_parts_at_most(xs: Seq<F64>, i: int)
    requires
        all_plain(xs),
        total(xs).finite(),
        0 <= i < xs.len(),
    ensures
        total(xs).plain(),
        xs[i].low() <= total(xs).low(),
    decreases xs.len(),
{
    lemma_total_nonneg(xs);
    let front = xs.drop_last();
    lemma_sum_above(total(front), xs.last());
    if i < front.len() {
        assert(all_plain(front));
        lemma_parts_at_most(front, i);
        assert(front[i] == xs[i]);
    }
}

/// The rounded sum is close to the exact one.
pub proof fn lemma_total_error(xs: Seq<F64>)
    requires
        all_plain(xs),
        total(xs).finite(),
        xs.len() <= 0x4_0000_0000_0000,
    ensures
        total(xs).plain(),
        exact_sum(xs) >= 0,
        0x20_0000_0000_0000 * (total(xs).mag() - exact_sum(xs)) <= 2 * xs.len() * exact_sum(xs),
        0x20_0000_0000_0000 * (exact_sum(xs) - total(xs).mag()) <= 2 * xs.len() * exact_sum(xs),
    decreases xs.len(),
{
    lemma_double();
    lemma_total_nonneg(xs);
    if xs.len() > 0 {
        let front = xs.drop_last();
        assert(all_plain(front));
        lemma_total_error(front);
        let (t, x) = (total(front).mag(), xs.last().mag());
        lemma_sum_pattern(total(front), xs.last());
        lemma_units_error(t + x);
        let (r, s, n) = (total(xs).mag() as int, exact_sum(front), xs.len() as int);
        let u = 0x20_0000_0000_0000int;
        assert(xs.last().plain());
        assert(t <= 2 * s) by (nonlinear_arith)
            requires
                u * (t - s) <= 2 * (n - 1) * s,
                n <= 0x4_0000_0000_0000,
                n >= 1,
                s >= 0,
                u == 0x20_0000_0000_0000,
        ;
        assert(u * (r - (s + x)) <= 2 * n * (s + x) && u * ((s + x) - r) <= 2 * n * (s + x))
            by (nonlinear_arith)
            requires
                u * (r - (t + x)) <= t + x,
                u * ((t + x) - r) <= t + x,
                u * (t - s) <= 2 * (n - 1) * s,
                u * (s - t) <= 2 * (n - 1) * s,
                t <= 2 * s,
                n >= 1,
                s >= 0,
                x >= 0,
        ;
    }
}

/// The error of one share.
pub proof fn lemma_share_error(x: F64, whole: F64)
    requires
        x.plain(),
        whole.plain(),
        x.low() <= whole.low(),
        whole.low() > 0,
    ensures
        unit(x.quot(whole)),
        ({
            let (w, m, s) = (x.quot(whole).mag(), x.mag(), whole.mag());
            &&& 0x20_0000_0000_0000 * (w * s - m * one()) <= m * one() + 0x10_0000_0000_0000 * s
            &&& 0x20_0000_0000_0000 * (m * one() - w * s) <= m * one() + 0x10_0000_0000_0000 * s
        }),
{
    lemma_double();
    lemma_pow2_pos(1074);
    lemma_zero_one();
    lemma_mag_order(x, whole);
    lemma_quot_at_most_one(x, whole);
    lemma_quot_pattern(x, whole);
    lemma_order(x.quot(whole), of_whole(1));
    let (w, m, s) = (x.quot(whole).mag(), x.mag(), whole.mag());
    let p = m * one();
    lemma_error(double(), p, s);
    let h = double().hidden;
    assert(0x20_0000_0000_0000 * (w * s - p) <= p + 0x10_0000_0000_0000 * s
        && 0x20_0000_0000_0000 * (p - w * s) <= p + 0x10_0000_0000_0000 * s) by (nonlinear_arith)
        requires
            h == 0x10_0000_0000_0000,
            w * s >= p ==> (2 * h * (w * s - p) <= p || 2 * (w * s - p) <= s),
            w * s < p ==> (2 * h * (p - w * s) <= p || 2 * (p - w * s) <= s),
            s >= 0,
            p >= 0,
    ;
}

/// The error of the sum of shares, in terms of the exact sum.
proof fn lemma_shares_error(xs: Seq<F64>, whole: F64)
    requires
        all_plain(xs),
        whole.plain(),
        whole.low() > 0,
        forall|i: int| 0 <= i < xs.len() ==> (#[trigger] xs[i]).low() <= whole.low(),
    ensures
        forall|i: int| 0 <= i < xs.len() ==> unit(#[trigger] shares(xs, whole)[i]),
        exact_sum(shares(xs, whole)) >= 0,
        exact_sum(xs) >= 0,
        ({
            let (w, x, s) = (exact_sum(shares(xs, whole)), exact_sum(xs), whole.mag());
            let n = xs.len();
            &&& 0x20_0000_0000_0000 * (w * s - x * one()) <= x * one() + (n
                * 0x10_0000_0000_0000) * s
            &&& 0x20_0000_0000_0000 * (x * one() - w * s) <= x * one() + (n
                * 0x10_0000_0000_0000) * s
        }),
    decreases xs.len(),
{
    let all = shares(xs, whole);
    if xs.len() == 0 {
        assert(0 * one() == 0 && 0 * whole.mag() == 0) by (nonlinear_arith);
    } else {
        let front = xs.drop_last();
        assert(all_plain(front));
        assert forall|i: int| 0 <= i < front.len() implies (#[trigger] front[i]).low()
            <= whole.low() by {
            assert(xs[i].low() <= whole.low());
        }
        lemma_shares_error(front, whole);
        assert(all.drop_last() =~= shares(front, whole));
        assert(xs.last().low() <= whole.low());
        lemma_share_error(xs.last(), whole);
        assert forall|i: int| 0 <= i < xs.len() implies unit(#[trigger] all[i]) by {
            if i < front.len() {
                assert(unit(shares(front, whole)[i]));
            }
        }
        let (a, b) = (exact_sum(shares(front, whole)), exact_sum(front));
        let (w, m, s) = (all.last().mag() as int, xs.last().mag() as int, whole.mag() as int);
        let n = xs.len() as int;
        let c = one() as int;
        assert(0x20_0000_0000_0000 * ((a + w) * s - (b + m) * c) <= (b + m) * c + (n
            * 0x10_0000_0000_0000) * s && 0x20_0000_0000_0000 * ((b + m) * c - (a + w) * s) <= (b
            + m) * c + (n * 0x10_0000_0000_0000) * s) by (nonlinear_arith)
            requires
                0x20_0000_0000_0000 * (a * s - b * c) <= b * c + ((n - 1) * 0x10_0000_0000_0000)
                    * s,
                0x20_0000_0000_0000 * (b * c - a * s) <= b * c + ((n - 1) * 0x10_0000_0000_0000)
                    * s,
                0x20_0000_0000_0000 * (w * s - m * c) <= m * c + 0x10_0000_0000_0000 * s,
                0x20_0000_0000_0000 * (m * c - w * s) <= m * c + 0x10_0000_0000_0000 * s,
        ;
    }
}

/// Numbers add up to one, but for an error of `k` parts in 2^53.
pub open spec fn adds_up_within(ws: Seq<F64>, k: nat) -> bool {
    &&& 0x20_0000_0000_0000 * (exact_sum(ws) - one()) <= k * one()
    &&& 0x20_0000_0000_0000 * (one() - exact_sum(ws)) <= k * one()
}

/// Numbers add up to one, but for a rounding error that grows with their count `n`: less than
/// `6 * n + 8` parts in 2^53.
pub open spec fn adds_up_to_one(ws: Seq<F64>) -> bool {
    adds_up_within(ws, 6 * ws.len() + 8)
}

/// Shares of a sum add up to one.
pub proof fn lemma_shares_add_up(xs: Seq<F64>)
    requires
        all_plain(xs),
        total(xs).finite(),
        signed(false, 0).less(total(xs)),
        xs.len() <= 0x4_0000_0000_0000,
    ensures
        adds_up_within(shares(xs, total(xs)), 5 * xs.len() + 2),
        adds_up_to_one(shares(xs, total(xs))),
        forall|i: int| 0 <= i < xs.len() ==> unit(#[trigger] shares(xs, total(xs))[i]),
{
    lemma_total_error(xs);
    let whole = total(xs);
    lemma_order(whole, whole);
    lemma_mag_order(whole, whole);
    assert forall|i: int| 0 <= i < xs.len() implies (#[trigger] xs[i]).low() <= whole.low() by {
        lemma_parts_at_most(xs, i);
    }
    lemma_shares_error(xs, whole);
    lemma_one_is_large();
    let w = exact_sum(shares(xs, whole));
    let (x, s, n, c) = (exact_sum(xs), whole.mag() as int, xs.len() as int, one() as int);
    let u = 0x20_0000_0000_0000int;
    assert(x <= 2 * s) by (nonlinear_arith)
        requires
            u * (x - s) <= 2 * n * x,
            u == 0x20_0000_0000_0000,
            n <= 0x4_0000_0000_0000,
            x >= 0,
    ;
    assert((u * (w - c)) * s <= ((5 * n + 2) * c) * s && (u * (c - w)) * s <= ((5 * n + 2) * c) * s)
        by (nonlinear_arith)
        requires
            u == 0x20_0000_0000_0000,
            u * (w * s - x * c) <= x * c + (n * 0x10_0000_0000_0000) * s,
            u * (x * c - w * s) <= x * c + (n * 0x10_0000_0000_0000) * s,
            u * (s - x) <= 2 * n * x,
            u * (x - s) <= 2 * n * x,
            x <= 2 * s,
            x >= 0,
            s > 0,
            n >= 0,
            c >= 0x10_0000_0000_0000,
    {
        assert(u * (w * s - s * c) == u * (w * s - x * c) + (u * (x - s)) * c);
        assert((u * (x - s)) * c <= (2 * n * x) * c);
        assert((u * (s - x)) * c <= (2 * n * x) * c);
        assert((2 * n * x) * c + x * c == ((2 * n + 1) * c) * x);
        assert(((2 * n + 1) * c) * x <= ((2 * n + 1) * c) * (2 * s));
        assert((n * 0x10_0000_0000_0000) * s <= (n * c) * s);
    }
    assert(u * (w - c) <= (5 * n + 2) * c && u * (c - w) <= (5 * n + 2) * c) by (nonlinear_arith)
        requires
            (u * (w - c)) * s <= ((5 * n + 2) * c) * s,
            (u * (c - w)) * s <= ((5 * n + 2) * c) * s,
            s > 0,
    ;
    assert((5 * n + 2) * c <= (6 * n + 8) * c) by (nonlinear_arith)
        requires
            n >= 0,
            c >= 0,
    ;
}

pub proof fn lemma_one_is_large()
    ensures
        one() >= 0x10_0000_0000_0000,
{
    lemma_pow2_adds(52, 1022);
    lemma_pow2_pos(1022);
    lemma2_to64_rest();
}

/// The least share is no more than one. Where there are weights of the epoch before, they are
/// shares, and so is the parameter of smoothing.
pub open spec fn smoothable(cfg: Config, prev: Option<Seq<PathWeight>>) -> bool {
    &&& !cfg.min_share.nan()
    &&& cfg.min_share.at_most(of_whole(1))
    &&& prev matches Some(ws) ==> unit(cfg.smooth_alpha) && forall|i: int|
        0 <= i < ws.len() ==> unit((#[trigger] ws[i]).weight)
}

/// The shares have a sum to be set against.
pub open spec fn balanceable(cfg: Config, xs: Seq<F64>) -> bool {
    if signed(false, 0).less(cfg.min_share) {
        fraction(1, 1_000_000_000).at_most(total(raised(xs, cfg.min_share)))
    } else {
        signed(false, 0).less(total(xs))
    }
}

/// The weight found for a path is one of the weights.
pub proof fn lemma_found(ws: Seq<PathWeight>, id: u64)
    requires
        forall|i: int| 0 <= i < ws.len() ==> unit((#[trigger] ws[i]).weight),
    ensures
        find_weight(ws, id) matches Some(w) ==> unit(w),
    decreases ws.len(),
{
    if ws.len() > 0 {
        assert(unit(ws[0].weight));
        let rest = ws.drop_first();
        assert forall|i: int| 0 <= i < rest.len() implies unit((#[trigger] rest[i]).weight) by {
            assert(unit(ws[i + 1].weight));
        }
        lemma_found(rest, id);
    }
}

/// A product of two shares is a share.
pub proof fn lemma_unit_product(a: F64, b: F64)
    requires
        unit(a),
        unit(b),
    ensures
        unit(a.prod(b)),
{
    lemma_double();
    lemma_zero_one();
    lemma_pow2_pos(1074);
    lemma_order(a, of_whole(1));
    lemma_order(b, of_whole(1));
    lemma_mag_order(a, of_whole(1));
    lemma_mag_order(b, of_whole(1));
    lemma_prod_pattern(a, b);
    let p = a.mag() * b.mag();
    assert(2 * p <= (2 * one()) * one()) by (nonlinear_arith)
        requires
            p == a.mag() * b.mag(),
            a.mag() <= one(),
            b.mag() <= one(),
    ;
    lemma_nearest_at_most(double(), Exact::Ratio { p, q: one() }, of_whole(1).low());
    lemma_order(a.prod(b), of_whole(1));
}

/// What a share leaves of one is a share.
proof fn lemma_complement(a: F64)
    requires
        unit(a),
    ensures
        unit(of_whole(1).diff(a)),
{
    lemma_double();
    lemma_zero_one();
    lemma_order(a, of_whole(1));
    lemma_mag_order(a, of_whole(1));
    let s = (one() - a.mag()) as nat;
    let n = a.negated();
    assert(n.value() == -(a.mag() as int));
    lemma_nearest(double(), Exact::Ratio { p: s, q: 1 });
    lemma_units_at_most(s, of_whole(1).low());
    lemma_order(of_whole(1).diff(a), of_whole(1));
}

/// A smoothed share is a number up to two.
proof fn lemma_smoothed(cfg: Config, share: F64, before: Option<F64>)
    requires
        unit(share),
        before matches Some(p) ==> unit(p) && unit(cfg.smooth_alpha),
    ensures
        smoothed(cfg, share, before).plain(),
        smoothed(cfg, share, before).mag() <= 2 * one(),
        before is Some ==> cfg.smooth_alpha.prod(share).low() <= smoothed(
            cfg,
            share,
            before,
        ).low(),
{
    lemma_double();
    lemma_zero_one();
    lemma_whole_exact(2);
    lemma_order(share, of_whole(1));
    lemma_mag_order(share, of_whole(1));
    match before {
        Some(p) => {
            let a = cfg.smooth_alpha.prod(share);
            let b = of_whole(1).diff(cfg.smooth_alpha).prod(p);
            lemma_unit_product(cfg.smooth_alpha, share);
            lemma_complement(cfg.smooth_alpha);
            lemma_unit_product(of_whole(1).diff(cfg.smooth_alpha), p);
            lemma_order(a, of_whole(1));
            lemma_order(b, of_whole(1));
            lemma_mag_order(a, of_whole(1));
            lemma_mag_order(b, of_whole(1));
            lemma_sum_pattern(a, b);
            lemma_sum_above(a, b);
            lemma_units_at_most(a.mag() + b.mag(), of_whole(2).low());
            lemma_mag_order(a.sum(b), of_whole(2));
        },
        None => {},
    }
}

/// A sum of not too many numbers up to two is finite.
pub proof fn lemma_total_finite(xs: Seq<F64>)
    requires
        all_plain(xs),
        forall|i: int| 0 <= i < xs.len() ==> (#[trigger] xs[i]).mag() <= 2 * one(),
        xs.len() <= 0x4_0000_0000_0000,
    ensures
        total(xs).plain(),
        total(xs).mag() <= 4 * xs.len() * one(),
    decreases xs.len(),
{
    lemma_double();
    lemma_zero_one();
    if xs.len() > 0 {
        let front = xs.drop_last();
        assert(all_plain(front));
        assert forall|i: int| 0 <= i < front.len() implies (#[trigger] front[i]).mag() <= 2
            * one() by {
            assert(xs[i].mag() <= 2 * one());
        }
        lemma_total_finite(front);
        let (t, x) = (total(front).mag(), xs.last().mag());
        assert(xs.last().plain() && x <= 2 * one());
        lemma_sum_pattern(total(front), xs.last());
        let (n, c) = (xs.len(), one());
        lemma_magnitude_of_digits(double(), 1074, 0x10_0000_0000_0000);
        assert(t + x <= 0x10_0000_0000_0000 * c) by (nonlinear_arith)
            requires
                t <= 4 * (n - 1) * c,
                x <= 2 * c,
                n <= 0x4_0000_0000_0000,
        ;
        lemma_units_at_most(t + x, (1074 * 0x10_0000_0000_0000 + 0x10_0000_0000_0000) as nat);
        lemma_units_error(t + x);
        let r = total(xs).mag();
        assert(r <= 4 * n * c) by (nonlinear_arith)
            requires
                0x20_0000_0000_0000 * (r - (t + x)) <= t + x,
                t + x <= 0x10_0000_0000_0000 * c,
                t <= 4 * (n - 1) * c,
                x <= 2 * c,
                c > 0,
        ;
    }
}

/// Raw weights that have a finite sum are finite and not negative.
pub proof fn lemma_raws_plain(cfg: Config, inp: Epoch, gates: Seq<F64>)
    requires
        total(raws_of(cfg, inp, gates)).finite(),
    ensures
        all_plain(raws_of(cfg, inp, gates)),
{
    let raws = raws_of(cfg, inp, gates);
    let ranked = ranked_candidates(cfg, inp);
    lemma_parts_finite(raws);
    lemma_fraction_at_most_one(1, 1_000_000_000);
    lemma_zero_one();
    let least = fraction(1, 1_000_000_000);
    lemma_billionth();
    lemma_order(least, least);
    lemma_mag_order(least, least);
    assert forall|i: int| 0 <= i < raws.len() implies (#[trigger] raws[i]).plain() by {
        let r = raws[i];
        assert(r.finite());
        if r.negative() {
            assert(r.value() <= 0);
            assert(r.less(least));
        }
    }
}

/// A billionth is a positive number.
pub proof fn lemma_billionth()
    ensures
        fraction(1, 1_000_000_000).plain(),
        fraction(1, 1_000_000_000).low() > 0,
        1_000_000_000 * fraction(1, 1_000_000_000).mag() <= 2 * one(),
{
    lemma_double();
    lemma_pow2_pos(1074);
    lemma_whole_exact(1);
    lemma_whole_exact(1_000_000_000);
    lemma_fraction_at_most_one(1, 1_000_000_000);
    let c = one();
    lemma_quot_pattern(of_whole(1), of_whole(1_000_000_000));
    lemma_error(double(), c * c, 1_000_000_000 * c);
    lemma_one_is_large();
    let (h, m) = (double().hidden, fraction(1, 1_000_000_000).mag());
    lemma_mag_order(fraction(1, 1_000_000_000), fraction(1, 1_000_000_000));
    lemma_pow2_adds(52, 1022);
    lemma_pow2_adds(40, 982);
    lemma_pow2_pos(982);
    lemma2_to64_rest();
    lemma2_to64();
    assert(c >= 1_000_000_000 * 0x10_0000_0000_0000);
    assert(c * c >= h * (1_000_000_000 * c)) by (nonlinear_arith)
        requires
            c >= 1_000_000_000 * 0x10_0000_0000_0000,
            h == 0x10_0000_0000_0000,
    ;
    let q = 1_000_000_000 * c;
    assert(m > 0 && 1_000_000_000 * m <= 2 * c) by (nonlinear_arith)
        requires
            q == 1_000_000_000 * c,
            m * q >= c * c ==> 2 * h * (m * q - c * c) <= c * c,
            m * q < c * c ==> 2 * h * (c * c - m * q) <= c * c,
            h == 0x10_0000_0000_0000,
            c > 0,
    ;
}

/// The smoothed shares of an input, as the plan sets them against their sum.
pub open spec fn smoothed_of(cfg: Config, inp: Epoch, gates: Seq<F64>) -> Seq<F64> {
    smoothed_shares(cfg, ranked_candidates(cfg, inp), raws_of(cfg, inp, gates), inp.prev_weights)
}

/// Smoothed shares are numbers up to two.
pub proof fn lemma_smoothed_of(cfg: Config, inp: Epoch, gates: Seq<F64>)
    requires
        total(raws_of(cfg, inp, gates)).finite(),
        signed(false, 0).less(total(raws_of(cfg, inp, gates))),
        smoothable(cfg, inp.prev_weights),
        ranked_candidates(cfg, inp).len() <= 0x4_0000_0000_0000,
    ensures
        all_plain(smoothed_of(cfg, inp, gates)),
        forall|i: int|
            0 <= i < smoothed_of(cfg, inp, gates).len() ==> (#[trigger] smoothed_of(
                cfg,
                inp,
                gates,
            )[i]).mag() <= 2 * one(),
{
    let raws = raws_of(cfg, inp, gates);
    let ranked = ranked_candidates(cfg, inp);
    let xs = smoothed_of(cfg, inp, gates);
    lemma_raws_plain(cfg, inp, gates);
    lemma_shares_add_up(raws);
    assert forall|i: int| 0 <= i < xs.len() implies (#[trigger] xs[i]).plain() && xs[i].mag() <= 2
        * one() by {
        let before = weight_before(inp.prev_weights, ranked[i].id);
        if inp.prev_weights is Some {
            lemma_found(inp.prev_weights.unwrap(), ranked[i].id);
        }
        assert(unit(shares(raws, total(raws))[i]));
        lemma_smoothed(cfg, shares(raws, total(raws))[i], before);
    }
}

/// No number at all, or one from zero to two.
pub open spec fn fair(x: F64) -> bool {
    x.nan() || (x.plain() && x.mag() <= 2 * one())
}

/// Raw weights are not negative.
pub proof fn lemma_raw_nonneg(cfg: Config, inp: Epoch, gates: Seq<F64>, i: int)
    requires
        0 <= i < raws_of(cfg, inp, gates).len(),
        !raws_of(cfg, inp, gates)[i].nan(),
    ensures
        raws_of(cfg, inp, gates)[i].nonneg(),
{
    let r = raws_of(cfg, inp, gates)[i];
    let least = fraction(1, 1_000_000_000);
    lemma_billionth();
    lemma_mag_order(least, least);
    lemma_mag_order(r, least);
    if r.negative() {
        assert(r.value() <= 0);
        assert(r.less(least));
    }
}

/// Smoothed shares are numbers up to two, where they are numbers.
pub proof fn lemma_smoothed_fair(cfg: Config, inp: Epoch, gates: Seq<F64>)
    requires
        !total(raws_of(cfg, inp, gates)).at_most(signed(false, 0)),
        smoothable(cfg, inp.prev_weights),
        ranked_candidates(cfg, inp).len() <= 0x4_0000_0000_0000,
    ensures
        forall|i: int|
            0 <= i < smoothed_of(cfg, inp, gates).len() ==> fair(
                #[trigger] smoothed_of(cfg, inp, gates)[i],
            ),
{
    lemma_zero_one();
    let raws = raws_of(cfg, inp, gates);
    let ranked = ranked_candidates(cfg, inp);
    let xs = smoothed_of(cfg, inp, gates);
    let whole = total(raws);
    if whole.finite() {
        lemma_raws_plain(cfg, inp, gates);
        lemma_total_nonneg(raws);
        lemma_order(whole, whole);
        lemma_smoothed_of(cfg, inp, gates);
        assert forall|i: int| 0 <= i < xs.len() implies fair(#[trigger] xs[i]) by {
            assert(xs[i].plain());
        }
    } else {
        assert(whole.nan() || !whole.negative());
        assert forall|i: int| 0 <= i < xs.len() implies fair(#[trigger] xs[i]) by {
            let before = weight_before(inp.prev_weights, ranked[i].id);
            if inp.prev_weights is Some {
                lemma_found(inp.prev_weights.unwrap(), ranked[i].id);
            }
            let share = raws[i].quot(whole);
            if !raws[i].nan() {
                lemma_raw_nonneg(cfg, inp, gates, i);
            }
            if !share.nan() {
                assert(share == signed(false, 0));
                lemma_order(share, of_whole(1));
                lemma_smoothed(cfg, share, before);
            }
        }
    }
}

/// Raising numbers to a least share makes all of them numbers, finite and not negative.
pub proof fn lemma_raised(xs: Seq<F64>, least: F64)
    requires
        forall|i: int| 0 <= i < xs.len() ==> fair(#[trigger] xs[i]),
        signed(false, 0).less(least),
        least.at_most(of_whole(1)),
    ensures
        least.plain(),
        all_plain(raised(xs, least)),
        forall|i: int|
            0 <= i < xs.len() ==> (#[trigger] raised(xs, least)[i]).mag() <= 2 * one()
                && least.low() <= raised(xs, least)[i].low() && (!xs[i].nan() ==> xs[i].low()
                <= raised(xs, least)[i].low()),
        unit(least),
        least.low() > 0,
{
    lemma_zero_one();
    lemma_mag_order(least, of_whole(1));
    lemma_mag_order(of_whole(1), least);
    lemma_mag_order(least, signed(false, 0));
    assert(least.plain());
    assert forall|i: int| 0 <= i < xs.len() implies (#[trigger] raised(xs, least)[i]).plain()
        && raised(xs, least)[i].mag() <= 2 * one() && least.low() <= raised(xs, least)[i].low()
        && (!xs[i].nan() ==> xs[i].low() <= raised(xs, least)[i].low()) by {
        assert(fair(xs[i]));
        if !xs[i].nan() {
            lemma_order(xs[i], least);
        }
    }
}

/// Shares that are raised to the least share and set against their sum add up to one.
pub proof fn lemma_evened(cfg: Config, inp: Epoch, gates: Seq<F64>)
    requires
        !total(raws_of(cfg, inp, gates)).at_most(signed(false, 0)),
        smoothable(cfg, inp.prev_weights),
        ranked_candidates(cfg, inp).len() <= 0x4_0000_0000_0000,
        signed(false, 0).less(cfg.min_share),
        balanceable(cfg, smoothed_of(cfg, inp, gates)),
    ensures
        ({
            let xs = smoothed_of(cfg, inp, gates);
            let up = raised(xs, cfg.min_share);
            let ws = evened(xs, cfg.min_share);
            &&& ws == shares(up, total(up))
            &&& ws.len() == xs.len()
            &&& adds_up_within(ws, 5 * ws.len() + 2)
            &&& adds_up_to_one(ws)
            &&& forall|i: int| 0 <= i < ws.len() ==> unit(#[trigger] ws[i])
            &&& unit(cfg.min_share)
            &&& cfg.min_share.low() > 0
        }),
{
    let xs = smoothed_of(cfg, inp, gates);
    let up = raised(xs, cfg.min_share);
    lemma_smoothed_fair(cfg, inp, gates);
    lemma_raised(xs, cfg.min_share);
    lemma_total_finite(up);
    lemma_billionth();
    lemma_order(fraction(1, 1_000_000_000), total(up));
    lemma_order(total(up), fraction(1, 1_000_000_000));
    lemma_shares_add_up(up);
}

/// The weights of a plan lie between zero and one and add up to one. The law leaves out
/// inputs whose raw weights overflow while there is no least share, and those whose smoothed
/// shares have no sum to be set against.
pub proof fn law_weights_add_up_to_one(cfg: Config, inp: Epoch, gates: Seq<F64>)
    requires
        inp.paths.len() <= 0x4_0000_0000_0000,
        inp.paths.len() <= usize::MAX,
        signed(false, 0).less(cfg.min_share) || total(raws_of(cfg, inp, gates)).finite(),
        smoothable(cfg, inp.prev_weights),
        !total(raws_of(cfg, inp, gates)).at_most(signed(false, 0)) ==> balanceable(
            cfg,
            smoothed_of(cfg, inp, gates),
        ),
    ensures
        plan_for(cfg, inp, gates) matches Some(plan) ==> {
            let ws = plan.weights.map_values(|w: PathWeight| w.weight);
            &&& plan.weights.len() > 0
            &&& adds_up_to_one(ws)
            &&& forall|i: int| 0 <= i < ws.len() ==> unit(#[trigger] ws[i])
        },
{
    lemma_zero_one();
    law_candidates_are_the_usable_paths(cfg, inp.now_ms, inp.packet_len_hint, inp.paths);
    let usable = usable_of(cfg, inp);
    law_sorting_is_stable(usable);
    let raws = raws_of(cfg, inp, gates);
    if plan_for(cfg, inp, gates) is Some {
        let plan = plan_for(cfg, inp, gates).unwrap();
        let ws = plan.weights.map_values(|w: PathWeight| w.weight);
        if usable.len() == 1 || total(raws).at_most(signed(false, 0)) {
            assert(ws =~= seq![of_whole(1)]);
            assert(ws.drop_last() =~= seq![]);
            assert(exact_sum(ws.drop_last()) == 0);
            assert(exact_sum(ws) == one());
        } else {
            let xs = smoothed_of(cfg, inp, gates);
            if signed(false, 0).less(cfg.min_share) {
                let even = evened(xs, cfg.min_share);
                lemma_evened(cfg, inp, gates);
                if grantable(xs.len(), cfg.min_share) {
                    lemma_granted(even, cfg.min_share);
                    assert(ws =~= granted(even, cfg.min_share));
                } else {
                    assert(ws =~= even);
                }
            } else {
                lemma_raws_plain(cfg, inp, gates);
                lemma_total_nonneg(raws);
                lemma_order(total(raws), total(raws));
                lemma_smoothed_of(cfg, inp, gates);
                lemma_total_finite(xs);
                lemma_shares_add_up(xs);
                assert(ws =~= shares(xs, total(xs)));
            }
        }
    }
}

/// A bound on the exact sum.
proof fn lemma_exact_sum_bound(xs: Seq<F64>, b: nat)
    requires
        all_plain(xs),
        forall|i: int| 0 <= i < xs.len() ==> (#[trigger] xs[i]).mag() <= b,
    ensures
        exact_sum(xs) <= xs.len() * b,
    decreases xs.len(),
{
    if xs.len() > 0 {
        let front = xs.drop_last();
        assert(all_plain(front));
        assert forall|i: int| 0 <= i < front.len() implies (#[trigger] front[i]).mag() <= b by {
            assert(xs[i].mag() <= b);
        }
        lemma_exact_sum_bound(front, b);
        assert(xs.last().plain() && xs.last().mag() <= b);
        assert(front.len() * b + b == xs.len() * b) by (nonlinear_arith)
            requires
                front.len() + 1 == xs.len(),
        ;
    } else {
        assert(0 * b == 0) by (nonlinear_arith);
    }
}

/// Some part is at least half of an even share.
proof fn lemma_some_part_is_large(xs: Seq<F64>) -> (k: int)
    requires
        all_plain(xs),
        total(xs).finite(),
        signed(false, 0).less(total(xs)),
        xs.len() <= 0x4_0000_0000_0000,
    ensures
        0 <= k < xs.len(),
        2 * xs.len() * xs[k].mag() >= total(xs).mag(),
{
    lemma_total_error(xs);
    lemma_order(total(xs), total(xs));
    lemma_mag_order(total(xs), total(xs));
    let (n, s, x) = (xs.len() as int, total(xs).mag() as int, exact_sum(xs));
    assert(n > 0);
    if forall|i: int| 0 <= i < xs.len() ==> 2 * n * (#[trigger] xs[i]).mag() < s {
        let b = (s - 1) / (2 * n);
        lemma_fundamental_div_mod(s - 1, 2 * n);
        assert(b >= 0) by (nonlinear_arith)
            requires
                s - 1 == (2 * n) * b + (s - 1) % (2 * n),
                0 <= (s - 1) % (2 * n) < 2 * n,
                s >= 1,
                n > 0,
        ;
        assert forall|i: int| 0 <= i < xs.len() implies (#[trigger] xs[i]).mag() <= b by {
            let m = xs[i].mag() as int;
            assert(m <= b) by (nonlinear_arith)
                requires
                    2 * n * m < s,
                    s - 1 == (2 * n) * b + (s - 1) % (2 * n),
                    0 <= (s - 1) % (2 * n) < 2 * n,
                    n > 0,
            ;
        }
        lemma_exact_sum_bound(xs, b as nat);
        assert(2 * x < s) by (nonlinear_arith)
            requires
                x <= n * b,
                (2 * n) * b <= s - 1,
        ;
        assert(2 * s <= 3 * x) by (nonlinear_arith)
            requires
                0x20_0000_0000_0000 * (s - x) <= 2 * n * x,
                n <= 0x4_0000_0000_0000,
                x >= 0,
        ;
    }
    choose|k: int| 0 <= k < xs.len() && 2 * n * (#[trigger] xs[k]).mag() >= s
}

/// A share of at least a 2^21st keeps at least a 2^25th when it is smoothed with a weight of at
/// least a tenth.
proof fn lemma_smoothed_is_large(cfg: Config, raw: F64, whole: F64, before: Option<F64>)
    requires
        raw.plain(),
        whole.plain(),
        raw.low() <= whole.low(),
        whole.low() > 0,
        0x20_0000 * raw.mag() >= whole.mag(),
        before matches Some(p) ==> unit(p) && unit(cfg.smooth_alpha) && fraction(1, 10).at_most(
            cfg.smooth_alpha,
        ),
    ensures
        smoothed(cfg, raw.quot(whole), before).mag() >= pow2(1049),
{
    lemma_double();
    lemma_zero_one();
    lemma_share_error(raw, whole);
    lemma_quot_pattern(raw, whole);
    let share = raw.quot(whole);
    let c = one();
    lemma_pow2_adds(21, 1053);
    lemma_pow2_adds(25, 1049);
    lemma_pow2_adds(52, 1001);
    lemma_pow2_adds(52, 997);
    lemma_pow2_adds(4, 1049);
    lemma2_to64();
    lemma2_to64_rest();
    lemma_magnitude_of_digits(double(), 1001, 0x10_0000_0000_0000);
    lemma_magnitude_of_digits(double(), 997, 0x10_0000_0000_0000);
    let (p1, p2) = (
        (1001 * 0x10_0000_0000_0000 + 0x10_0000_0000_0000) as nat,
        (997 * 0x10_0000_0000_0000 + 0x10_0000_0000_0000) as nat,
    );
    let w = pow2(1053);
    assert(2 * (raw.mag() * c) >= (2 * w) * whole.mag()) by (nonlinear_arith)
        requires
            c == 0x20_0000 * w,
            0x20_0000 * raw.mag() >= whole.mag(),
    ;
    lemma_nearest_at_least(double(), Exact::Ratio { p: raw.mag() * c, q: whole.mag() }, p1);
    lemma_mag_order(signed(false, p1), share);
    lemma_smoothed(cfg, share, before);
    if before is Some {
        let a = cfg.smooth_alpha;
        lemma_tenth();
        lemma_order(fraction(1, 10), a);
        lemma_mag_order(fraction(1, 10), a);
        lemma_prod_pattern(a, share);
        let v = pow2(1049);
        assert(2 * (a.mag() * share.mag()) >= (2 * v) * c) by (nonlinear_arith)
            requires
                10 * a.mag() >= c,
                share.mag() >= w,
                w == 16 * v,
        ;
        lemma_pow2_pos(1074);
        lemma_nearest_at_least(double(), Exact::Ratio { p: a.mag() * share.mag(), q: c }, p2);
        lemma_mag_order(signed(false, p2), smoothed(cfg, share, before));
    }
}

proof fn lemma_tenth()
    ensures
        fraction(1, 10).plain(),
        10 * fraction(1, 10).mag() >= one(),
{
    lemma2_to64_rest();
    lemma_fraction_digits(1, 10, 56, 0x19_9999_9999_999a);
    lemma_pow2_adds(56, 1018);
}

/// Of up to a million paths, without weights of the epoch before or with a smoothing weight of
/// at least a tenth, the smoothed shares always have a sum to be set against.
pub proof fn law_smoothed_shares_can_be_balanced(cfg: Config, inp: Epoch, gates: Seq<F64>)
    requires
        inp.paths.len() <= 1_000_000,
        total(raws_of(cfg, inp, gates)).finite(),
        signed(false, 0).less(total(raws_of(cfg, inp, gates))),
        smoothable(cfg, inp.prev_weights),
        inp.prev_weights is None || fraction(1, 10).at_most(cfg.smooth_alpha),
    ensures
        balanceable(cfg, smoothed_of(cfg, inp, gates)),
{
    lemma_double();
    law_candidates_are_the_usable_paths(cfg, inp.now_ms, inp.packet_len_hint, inp.paths);
    law_sorting_is_stable(usable_of(cfg, inp));
    let ranked = ranked_candidates(cfg, inp);
    let raws = raws_of(cfg, inp, gates);
    let xs = smoothed_of(cfg, inp, gates);
    lemma_raws_plain(cfg, inp, gates);
    let k = lemma_some_part_is_large(raws);
    let whole = total(raws);
    lemma_parts_at_most(raws, k);
    lemma_order(whole, whole);
    let (n, m, s) = (raws.len(), raws[k].mag(), whole.mag());
    assert(0x20_0000 * m >= s) by (nonlinear_arith)
        requires
            2 * n * m >= s,
            n <= 1_000_000,
    ;
    let before = weight_before(inp.prev_weights, ranked[k].id);
    if inp.prev_weights is Some {
        lemma_found(inp.prev_weights.unwrap(), ranked[k].id);
    }
    assert(raws[k].plain());
    lemma_smoothed_is_large(cfg, raws[k], whole, before);
    lemma_smoothed_of(cfg, inp, gates);
    assert(xs[k].plain() && xs[k].mag() >= pow2(1049));
    lemma_pow2_pos(1049);
    if signed(false, 0).less(cfg.min_share) {
        let up = raised(xs, cfg.min_share);
        lemma_smoothed_fair(cfg, inp, gates);
        lemma_raised(xs, cfg.min_share);
        lemma_total_finite(up);
        lemma_parts_at_most(up, k);
        lemma_mag_order(xs[k], total(up));
        lemma_mag_order(total(up), xs[k]);
        lemma_billionth();
        lemma_pow2_adds(25, 1049);
        lemma2_to64();
        lemma_mag_order(total(up), fraction(1, 1_000_000_000));
        lemma_order(fraction(1, 1_000_000_000), total(up));
    } else {
        lemma_total_finite(xs);
        lemma_parts_at_most(xs, k);
        lemma_mag_order(xs[k], xs[k]);
        lemma_order(total(xs), total(xs));
    }
}

/// Where there is enough to grant the least share to every usable path, no weight of a plan is
/// below it. Otherwise none is below that share over the sum that the weights are set against.
pub proof fn law_least_share(cfg: Config, inp: Epoch, gates: Seq<F64>)
    requires
        inp.paths.len() <= 0x4_0000_0000_0000,
        inp.paths.len() <= usize::MAX,
        smoothable(cfg, inp.prev_weights),
        signed(false, 0).less(cfg.min_share),
        !total(raws_of(cfg, inp, gates)).at_most(signed(false, 0)) ==> balanceable(
            cfg,
            smoothed_of(cfg, inp, gates),
        ),
    ensures
        plan_for(cfg, inp, gates) matches Some(plan) ==> {
            let n = usable_of(cfg, inp).len();
            let whole = total(raised(smoothed_of(cfg, inp, gates), cfg.min_share));
            forall|i: int|
                0 <= i < plan.weights.len() ==> {
                    let w = (#[trigger] plan.weights[i]).weight;
                    &&& grantable(n, cfg.min_share) ==> cfg.min_share.at_most(w)
                    &&& !grantable(n, cfg.min_share) && plan.weights.len() == n && n >= 2
                        ==> cfg.min_share.quot(whole).at_most(w)
                }
        },
{
    lemma_zero_one();
    law_candidates_are_the_usable_paths(cfg, inp.now_ms, inp.packet_len_hint, inp.paths);
    let usable = usable_of(cfg, inp);
    law_sorting_is_stable(usable);
    let least = cfg.min_share;
    let raws = raws_of(cfg, inp, gates);
    let xs = smoothed_of(cfg, inp, gates);
    let up = raised(xs, least);
    let even = evened(xs, least);
    if usable.len() >= 2 && !total(raws).at_most(signed(false, 0)) {
        let plan = plan_for(cfg, inp, gates).unwrap();
        lemma_evened(cfg, inp, gates);
        lemma_smoothed_fair(cfg, inp, gates);
        lemma_raised(xs, least);
        lemma_total_finite(up);
        lemma_billionth();
        lemma_order(fraction(1, 1_000_000_000), total(up));
        if grantable(xs.len(), least) {
            lemma_granted(even, least);
        }
        assert forall|i: int| 0 <= i < plan.weights.len() implies {
            let w = (#[trigger] plan.weights[i]).weight;
            if grantable(xs.len(), least) {
                least.at_most(w)
            } else {
                least.quot(total(up)).at_most(w)
            }
        } by {
            if grantable(xs.len(), least) {
                assert(plan.weights[i].weight == granted(even, least)[i]);
            } else {
                assert(plan.weights[i].weight == up[i].quot(total(up)));
                assert(up[i].plain() && least.low() <= up[i].low());
                lemma_quot_monotone(least, total(up), up[i], total(up));
                lemma_order(least.quot(total(up)), up[i].quot(total(up)));
            }
        }
    }
}

/// There is enough to grant a least share to some paths where it adds up to no more than one.
pub proof fn law_small_shares_can_be_granted(n: nat, least: F64)
    requires
        n < 0x20_0000_0000_0000,
        least.plain(),
        n * least.mag() <= one(),
    ensures
        grantable(n, least),
{
    lemma_double();
    lemma_zero_one();
    lemma_pow2_pos(1074);
    lemma_whole_exact(n);
    lemma_prod_pattern(of_whole(n), least);
    let (m, c) = (least.mag(), one());
    assert(2 * ((n * c) * m) <= (2 * c) * c) by (nonlinear_arith)
        requires
            n * m <= c,
    ;
    lemma_nearest_at_most(double(), Exact::Ratio { p: (n * c) * m, q: c }, of_whole(1).low());
    lemma_order(of_whole(n).prod(least), of_whole(1));
}

} // verus!
