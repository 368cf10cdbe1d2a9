//! What an update of the bandwidth estimate comes to, but for rounding.
use vstd::arithmetic::power2::{
    lemma2_to64, lemma2_to64_rest, lemma_pow2_adds, lemma_pow2_pos, pow2,
};
use vstd::prelude::*;

use crate::clock::span;
use crate::num::bounds::{
    lemma_error, lemma_order, lemma_quot_pattern, lemma_units_at_least, lemma_units_at_most,
    lemma_units_error,
};
use crate::num::close::{
    close, kept_within, least, lemma_close_kept, lemma_close_order, lemma_close_scale,
    lemma_close_trans, lemma_diff_below, lemma_diff_close, lemma_fraction_close, lemma_gap,
    lemma_kept_scaled, lemma_large_one, lemma_prod_close, lemma_quot_close, lemma_threshold,
    lemma_zero_quot, most, parts,
};
use crate::num::double::{
    fraction, lemma_double, lemma_mag_order, lemma_whole_monotone, of_whole, signed, F64,
};
use crate::num::exact::{lemma_fraction_digits, lemma_whole_exact, one};
use crate::num::facts::{lemma_nearest_exact, lemma_zero_one};
use crate::num::format::{
    double, lemma_nearest, lemma_nearest_at_least, lemma_nearest_at_most, lemma_nearest_monotone,
    Exact,
};
use crate::stats::bandwidth::laws::{
    bounded, ceiling_bps, law_a_tenth_of_a_second_between_updates, lemma_congestion,
    lemma_four_fifths, lemma_larger, lemma_patterns, lemma_queueing, lemma_tenths, lemma_window,
    lemma_within,
};
use crate::stats::bandwidth::{
    beta, cap_bps, clean, congestion, floor_bps, p_high, queueing, seconds, tau_high, uncongested,
    Bandwidth, Measurement,
};

verus! {

/// The queueing delay is what the smoothed round trip has over the smallest, which counts as a
/// millisecond at least, in parts of the smallest, and five at most.
pub proof fn law_queueing_is_relative_to_the_smallest_round_trip(srtt_ms: F64, minrtt_ms: F64)
    requires
        srtt_ms.finite(),
        minrtt_ms.finite(),
    ensures
        ({
            let base = most(minrtt_ms.value(), one() as int);
            let excess = srtt_ms.value() - base;
            let q = queueing(srtt_ms, minrtt_ms);
            &&& q.plain()
            &&& excess <= 0 ==> q.mag() == 0
            &&& excess > 0 ==> close(q.mag() * base, least(excess, 5 * base) * one(), 3)
        }),
{
    lemma_double();
    lemma_zero_one();
    lemma_large_one();
    lemma_whole_exact(1);
    lemma_whole_exact(5);
    lemma_queueing(srtt_ms, minrtt_ms);
    let zero = signed(false, 0);
    let b = minrtt_ms.larger(of_whole(1));
    let base = most(minrtt_ms.value(), one() as int);
    assert(b.plain() && b.mag() == base);
    lemma_mag_order(of_whole(1), b);
    lemma_mag_order(b, of_whole(1));
    let excess = srtt_ms.value() - base;
    let c = one() as int;
    let d = srtt_ms.diff(b);
    let e = d.larger(zero);
    let raw = e.quot(b);
    if excess < 0 {
        lemma_diff_below(srtt_ms, b);
        lemma_mag_order(d, zero);
        assert(e.mag() == 0 && e.finite());
        lemma_zero_quot(e, b);
    } else if excess == 0 {
        lemma_diff_close(srtt_ms, b);
        lemma_mag_order(d, zero);
        assert(e.mag() == 0 && e.finite());
        lemma_zero_quot(e, b);
    } else {
        lemma_diff_close(srtt_ms, b);
        lemma_gap(b, srtt_ms);
        assert(e == d);
        let x = d.mag() as int;
        assert(2 * x >= excess);
        assert(x * c >= 0x10_0000_0000_0000 * base) by (nonlinear_arith)
            requires
                2 * x >= excess,
                0x20_0000_0000_0000 * excess >= base,
                excess > 0,
                c >= 0x1_0000_0000_0000_0000_0000_0000_0000_0000,
        ;
        lemma_quot_close(d, b);
        lemma_close_scale(x, excess, 1, c);
        let y = (raw.mag() * b.mag()) as int;
        assert(x * c >= 0 && excess * c >= 0) by (nonlinear_arith)
            requires
                x >= 0,
                excess >= 0,
                c >= 0,
        ;
        lemma_close_trans(y, x * c, 1, excess * c, 1);
        let z = (5 * c) * base;
        assert(z >= 0 && (5 * base) * c == z) by (nonlinear_arith)
            requires
                z == (5 * c) * base,
                c >= 0,
                base >= 0,
        ;
        assert(close(z, z, 3)) by (nonlinear_arith)
            requires
                z >= 0,
        ;
        lemma_close_order(y, excess * c, z, z, 3);
        lemma_larger(raw, of_whole(5));
        lemma_mag_order(raw, of_whole(5));
        lemma_mag_order(of_whole(5), raw);
        let q = queueing(srtt_ms, minrtt_ms);
        assert(q.mag() * base == least(y, z)) by (nonlinear_arith)
            requires
                q.mag() == least(raw.mag() as int, 5 * c),
                y == raw.mag() * base,
                z == (5 * c) * base,
                base > 0,
        ;
        assert(least(excess * c, z) == least(excess, 5 * base) * c) by (nonlinear_arith)
            requires
                z == (5 * base) * c,
                c > 0,
        ;
    }
}

/// The floor, in units.
pub open spec fn floor() -> int {
    5_000_000 * one() as int
}

/// The cap, in units.
pub open spec fn cap() -> int {
    1_000_000_000 * one() as int
}

/// An update `now` counts: a tenth of a second has passed, and not more than the clock holds.
pub open spec fn counts(bw: Bandwidth, now: int) -> bool {
    100_000_000 <= span(bw.last_update, now) < 1_000_000_000 * 0x1_0000_0000_0000_0000
}

pub proof fn lemma_counts(bw: Bandwidth, now: int)
    requires
        counts(bw, now),
    ensures
        !seconds(span(bw.last_update, now)).less(fraction(1, 10)),
{
    let m = Measurement {
        tx_bytes: 0,
        srtt_ms: signed(false, 0),
        rttvar_ms: signed(false, 0),
        minrtt_ms: signed(false, 0),
        loss_rate: signed(false, 0),
    };
    law_a_tenth_of_a_second_between_updates(bw, now, m);
    if seconds(span(bw.last_update, now)).less(fraction(1, 10)) {
        assert(bw.updated(now, m) == bw);
        assert(bw.last_update == now);
    }
}

/// What congestion of the strength `g` leaves: three tenths of it are taken off.
proof fn lemma_left_close(g: F64)
    requires
        !g.nan(),
        0 <= g.value() <= one(),
    ensures
        ({
            let left = of_whole(1).diff(beta().prod(g));
            &&& left.plain()
            &&& left.mag() <= one()
            &&& 2 * left.mag() >= one()
            &&& close(10 * left.value(), 10 * one() - 3 * g.value(), 3)
        }),
{
    lemma_double();
    lemma_zero_one();
    lemma_large_one();
    lemma_whole_exact(1);
    lemma_tenths();
    lemma2_to64();
    lemma2_to64_rest();
    lemma_fraction_digits(3, 10, 54, 0x13_3333_3333_3333);
    lemma_pow2_adds(54, 1020);
    lemma_pow2_pos(1020);
    lemma_mag_order(g, of_whole(1));
    lemma_mag_order(of_whole(1), g);
    lemma_mag_order(g, signed(false, 0));
    let u = parts();
    let c = one() as int;
    let x = g.mag() as int;
    assert(g.value() == x);
    let b = beta().mag() as int;
    let w = pow2(1020) as int;
    assert(10 * b - 3 * c == -2 * w && c == 2 * u * w);
    let m = beta().prod(g);
    let e = Exact::Ratio { p: beta().mag() * g.mag(), q: one() };
    assert(2 * (b * x) <= (2 * b) * c) by (nonlinear_arith)
        requires
            x <= c,
            b >= 0,
    ;
    lemma_nearest(double(), e);
    lemma_nearest_at_most(double(), e, beta().low());
    lemma_error(double(), beta().mag() * g.mag(), one());
    let y = m.mag() as int;
    lemma_mag_order(m, beta());
    lemma_mag_order(beta(), m);
    lemma_mag_order(m, signed(false, 0));
    if x == 0 {
        assert(b * x == 0) by (nonlinear_arith)
            requires
                x == 0,
        ;
        lemma_nearest_exact(double(), e, 0);
    }
    let n = m.negated();
    assert(of_whole(1).value() + n.value() == c - y);
    // the product, twice in units
    let p = b * x;
    assert(u * (y * c - p) <= p + u * c && u * (p - y * c) <= p + u * c) by {
        assert(p >= 0) by (nonlinear_arith)
            requires
                p == b * x,
                b >= 0,
                x >= 0,
        ;
        assert(u * (2 * (y * c - p)) == 2 * (u * (y * c - p)) && u * (2 * (p - y * c)) == 2 * (u * (
        p - y * c))) by (nonlinear_arith);
    }
    assert(u * (10 * y - 3 * x) <= 6 * c && u * (3 * x - 10 * y) <= 6 * c) by (nonlinear_arith)
        requires
            u * (y * c - p) <= p + u * c,
            u * (p - y * c) <= p + u * c,
            p == b * x,
            10 * b - 3 * c == -2 * w,
            c == 2 * u * w,
            0 <= x <= c,
            u == 0x20_0000_0000_0000,
            w > 0,
            c >= 0x1_0000_0000_0000_0000_0000_0000_0000_0000,
    {
        // u (10 y - 3 x) c = 10 u (y c - p) + x u (10 b - 3 c)
        assert(u * ((10 * y - 3 * x) * c) == 10 * (u * (y * c - p)) + u * (x * (10 * b - 3 * c)));
        assert(u * (x * (10 * b - 3 * c)) == -(x * c));
        assert(10 * p <= 3 * (x * c));
        assert(x * c <= c * c);
        assert(10 * (u * c) <= c * c);
        assert(u * ((10 * y - 3 * x) * c) <= (6 * c) * c);
        assert(u * ((3 * x - 10 * y) * c) <= (6 * c) * c);
    }
    let s = (c - y) as nat;
    lemma_units_at_most(s, of_whole(1).low());
    lemma_units_error(s);
    lemma_nearest(double(), Exact::Ratio { p: s, q: 1 });
    let left = of_whole(1).diff(m);
    lemma_mag_order(left, of_whole(1));
}

/// What is kept between the floor and the cap.
pub proof fn lemma_clamped_value(x: F64)
    requires
        x.plain(),
    ensures
        x.clamped(floor_bps(), cap_bps()).plain(),
        x.clamped(floor_bps(), cap_bps()).value() == kept_within(x.value(), floor(), cap()),
{
    lemma_large_one();
    lemma_within(x);
    lemma_order(x, floor_bps());
    lemma_order(cap_bps(), x);
    assert(5_000_000 * one() <= 1_000_000_000 * one()) by (nonlinear_arith);
}

/// An estimate or throughput `base` under congestion of the strength `g`.
proof fn lemma_reduced(base: F64, g: F64)
    requires
        base.plain(),
        floor() <= base.mag() <= 0x100_0000_0000_0000_0000 * one(),
        !g.nan(),
        0 <= g.value() <= one(),
    ensures
        ({
            let c = one() as int;
            let r = base.prod(of_whole(1).diff(beta().prod(g))).clamped(floor_bps(), cap_bps());
            &&& r.plain()
            &&& close(
                (10 * c) * r.value(),
                kept_within(
                    base.value() * (10 * c - 3 * g.value()),
                    (10 * c) * floor(),
                    (10 * c) * cap(),
                ),
                5,
            )
        }),
{
    lemma_large_one();
    lemma_left_close(g);
    let left = of_whole(1).diff(beta().prod(g));
    let raw = base.prod(left);
    let c = one() as int;
    let (b, l, r) = (base.mag() as int, left.mag() as int, raw.mag() as int);
    let m = pow2(2000) as int;
    let z = 10 * c - 3 * g.value();
    assert(b * l >= 0x10_0000_0000_0000 * c && b * l <= m * c) by (nonlinear_arith)
        requires
            5_000_000 * c <= b <= 0x100_0000_0000_0000_0000 * c,
            c <= 2 * l,
            l <= c,
            c >= 0x1_0000_0000_0000_0000_0000_0000_0000_0000,
            m >= 0x1_0000_0000_0000_0000_0000_0000_0000_0000_0000_0000_0000_0000 * c,
    ;
    lemma_prod_close(base, left);
    let r = raw.mag() as int;
    // r c is close to b l, and ten l to z
    lemma_close_scale(r * c, b * l, 1, 10);
    lemma_close_scale(10 * l, z, 3, b);
    assert(b * (10 * l) == 10 * (b * l)) by (nonlinear_arith);
    assert(b * z >= 0 && b * l >= 0) by (nonlinear_arith)
        requires
            b >= 0,
            z >= 0,
            l >= 0,
    ;
    lemma_close_trans(10 * (r * c), 10 * (b * l), 1, b * z, 3);
    assert(10 * (r * c) == (10 * c) * r) by (nonlinear_arith);
    let (lo, hi) = ((10 * c) * floor(), (10 * c) * cap());
    assert(0 <= lo <= hi) by (nonlinear_arith)
        requires
            lo == (10 * c) * (5_000_000 * c),
            hi == (10 * c) * (1_000_000_000 * c),
            c >= 0,
    ;
    lemma_close_kept((10 * c) * r, b * z, 5, lo, hi);
    lemma_clamped_value(raw);
    lemma_kept_scaled(r, floor(), cap(), 10 * c);
}

/// In a window with a normalised queueing delay of a fifth or more, or with a loss rate of a
/// hundredth or more, the larger of the estimate and the throughput loses three tenths of the
/// strength of the congestion, and is kept between the floor and the cap.
pub proof fn law_congestion_takes_up_to_three_tenths(bw: Bandwidth, now: int, m: Measurement)
    requires
        bounded(bw),
        counts(bw, now),
        5 * queueing(m.srtt_ms, m.minrtt_ms).value() >= one() || (m.loss_rate.plain() && 100
            * m.loss_rate.value() >= one()),
    ensures
        ({
            let c = one() as int;
            let next = bw.updated(now, m);
            let start = bw.starting_point(m.rttvar_ms, m.minrtt_ms);
            let base = most(start.value(), next.throughput.value());
            let g = congestion(queueing(m.srtt_ms, m.minrtt_ms), m.loss_rate).value();
            &&& 0 <= g <= c
            &&& close(
                (10 * c) * next.b_hat.value(),
                kept_within(base * (10 * c - 3 * g), (10 * c) * floor(), (10 * c) * cap()),
                5,
            )
        }),
{
    lemma_large_one();
    lemma_patterns();
    lemma_counts(bw, now);
    lemma_window(bw, now, m);
    let q = queueing(m.srtt_ms, m.minrtt_ms);
    lemma_queueing(m.srtt_ms, m.minrtt_ms);
    lemma_threshold(q, 1, 5);
    lemma_threshold(q, 1, 20);
    if m.loss_rate.plain() {
        lemma_threshold(m.loss_rate, 1, 100);
        lemma_threshold(m.loss_rate, 1, 500);
    }
    assert(!clean(q, m.loss_rate) && !uncongested(q, m.loss_rate));
    let g = congestion(q, m.loss_rate);
    lemma_congestion(q, m.loss_rate);
    let next = bw.updated(now, m);
    let start = bw.starting_point(m.rttvar_ms, m.minrtt_ms);
    let thr = next.throughput;
    let base = start.larger(thr);
    lemma_within(start);
    lemma_larger(start, thr);
    lemma_mag_order(start, thr);
    lemma_mag_order(thr, start);
    lemma_mag_order(thr, ceiling_bps());
    lemma_reduced(base, g);
}

/// Where the smoothed round trip is twice the smallest or more, the estimate becomes seven tenths
/// of the larger of where it starts from and the throughput, kept between the floor and the cap.
pub proof fn law_double_round_trips_take_three_tenths(bw: Bandwidth, now: int, m: Measurement)
    requires
        bounded(bw),
        counts(bw, now),
        m.srtt_ms.finite(),
        m.minrtt_ms.finite(),
        m.srtt_ms.value() >= 2 * most(m.minrtt_ms.value(), one() as int),
    ensures
        ({
            let next = bw.updated(now, m);
            let start = bw.starting_point(m.rttvar_ms, m.minrtt_ms);
            let base = most(start.value(), next.throughput.value());
            close(10 * next.b_hat.value(), kept_within(7 * base, 10 * floor(), 10 * cap()), 5)
        }),
{
    lemma_double();
    lemma_zero_one();
    lemma_large_one();
    lemma_whole_exact(1);
    lemma_whole_exact(5);
    let c = one() as int;
    let b = m.minrtt_ms.larger(of_whole(1));
    let d = m.srtt_ms.diff(b);
    assert(b.plain() && b.mag() == most(m.minrtt_ms.value(), c));
    lemma_mag_order(of_whole(1), b);
    lemma_mag_order(b, of_whole(1));
    lemma_diff_close(m.srtt_ms, b);
    lemma_units_at_least((m.srtt_ms.mag() - b.mag()) as nat, b.low());
    lemma_order(d, signed(false, 0));
    lemma_order(signed(false, 0), d);
    assert(d.larger(signed(false, 0)) == d);
    lemma_quot_at_least_one(d, b);
    let raw = d.quot(b);
    lemma_larger(raw, of_whole(5));
    lemma_whole_monotone(1, 5);
    let q = queueing(m.srtt_ms, m.minrtt_ms);
    lemma_queueing(m.srtt_ms, m.minrtt_ms);
    assert(q.low() >= of_whole(1).low());
    lemma_mag_order(of_whole(1), q);
    lemma_full_strength(q, m.loss_rate);
    law_congestion_takes_up_to_three_tenths(bw, now, m);
    let next = bw.updated(now, m);
    let start = bw.starting_point(m.rttvar_ms, m.minrtt_ms);
    let base = most(start.value(), next.throughput.value());
    let r = next.b_hat.value();
    assert(base * (7 * c) == (7 * base) * c) by (nonlinear_arith);
    assert((10 * c) * floor() == (10 * floor()) * c && (10 * c) * cap() == (10 * cap()) * c && (10
        * c) * r == (10 * r) * c) by (nonlinear_arith);
    lemma_kept_scaled(7 * base, 10 * floor(), 10 * cap(), c);
    lemma_close_scale(10 * r, kept_within(7 * base, 10 * floor(), 10 * cap()), 5, c);
}

/// A number, divided by one that is not above it, is one at least.
proof fn lemma_quot_at_least_one(a: F64, b: F64)
    requires
        a.plain(),
        b.plain(),
        0 < b.low() <= a.low(),
    ensures
        a.quot(b).nonneg(),
        a.quot(b).low() >= of_whole(1).low(),
{
    lemma_double();
    lemma_zero_one();
    lemma_whole_exact(1);
    lemma_quot_pattern(a, b);
    lemma_mag_order(b, a);
    let c = one();
    let x = Exact::Ratio { p: a.mag() * c, q: b.mag() };
    assert(2 * (a.mag() * c) >= (2 * c) * b.mag()) by (nonlinear_arith)
        requires
            a.mag() >= b.mag(),
    ;
    lemma_nearest_at_least(double(), x, of_whole(1).low());
}

/// A queueing delay of a whole round trip is full congestion.
proof fn lemma_full_strength(q: F64, loss_rate: F64)
    requires
        q.plain(),
        q.mag() >= one(),
    ensures
        congestion(q, loss_rate).value() == one(),
{
    lemma_double();
    lemma_zero_one();
    lemma_large_one();
    lemma_whole_exact(1);
    lemma_tenths();
    lemma_four_fifths();
    lemma_pow2_pos(1019);
    lemma_pow2_pos(1021);
    let w1 = of_whole(1);
    let d = q.diff(tau_high());
    let keep = w1.diff(tau_high());
    lemma_diff_close(q, tau_high());
    lemma_diff_close(w1, tau_high());
    lemma_nearest_monotone(
        double(),
        (one() - tau_high().mag()) as nat,
        (q.mag() - tau_high().mag()) as nat,
        1,
    );
    lemma_mag_order(keep, signed(false, 0));
    lemma_quot_at_least_one(d, keep);
    let raw = d.quot(keep);
    lemma_order(raw, w1);
    lemma_order(w1, raw);
    let g_q = raw.clamped(signed(false, 0), w1);
    assert(g_q.value() == one());
    lemma_congestion(q, loss_rate);
}

/// The strength of the congestion in eighths of units: how far the queueing delay has come from
/// a fifth to one, or the loss rate from nothing to a hundredth, whichever is more.
pub open spec fn strength(q: int, loss: int) -> int {
    let c = one() as int;
    most(kept_within(10 * q - 2 * c, 0, 8 * c), kept_within(800 * loss, 0, 8 * c))
}

/// The part of the strength that comes from queueing.
proof fn lemma_queue_strength(q: F64)
    requires
        q.plain(),
        q.mag() <= 5 * one(),
    ensures
        ({
            let c = one() as int;
            let g = q.diff(tau_high()).quot(of_whole(1).diff(tau_high())).clamped(
                signed(false, 0),
                of_whole(1),
            );
            let x = kept_within(10 * q.value() - 2 * c, 0, 8 * c);
            &&& !g.nan()
            &&& parts() * (8 * g.value() - x) <= 64 * c
            &&& parts() * (x - 8 * g.value()) <= 64 * c
        }),
{
    lemma_double();
    lemma_zero_one();
    lemma_large_one();
    lemma_whole_exact(1);
    lemma_tenths();
    lemma_four_fifths();
    lemma_pow2_pos(1019);
    lemma_pow2_adds(2, 1019);
    lemma2_to64();
    let u = parts();
    let c = one() as int;
    let (zero, w1) = (signed(false, 0), of_whole(1));
    let (t, keep) = (tau_high(), w1.diff(tau_high()));
    let d = q.diff(t);
    let raw = d.quot(keep);
    let w = pow2(1019) as int;
    assert(10 * t.mag() - 2 * c == 4 * w);
    assert(c == 4 * u * w);
    lemma_mag_order(keep, zero);
    let y = 10 * (q.mag() - t.mag());
    if q.mag() < t.mag() {
        lemma_diff_below(q, t);
        lemma_nearest(double(), Exact::Ratio { p: d.mag() * one(), q: keep.mag() });
        assert(raw.value() <= 0);
        assert(raw.clamped(zero, w1).value() == 0);
    } else if q.mag() == t.mag() {
        lemma_diff_close(q, t);
        lemma_mag_order(d, zero);
        lemma_zero_quot(d, keep);
    } else {
        lemma_diff_close(q, t);
        lemma_gap(t, q);
        let (x, e) = (d.mag() as int, q.mag() - t.mag());
        let k = keep.mag() as int;
        assert(2 * x >= e);
        assert(x * c >= 0x10_0000_0000_0000 * k) by (nonlinear_arith)
            requires
                x >= 0x10_0000_0000_0000,
                0 <= k <= c,
        ;
        let m = pow2(2000) as int;
        assert(x * c <= m * k) by (nonlinear_arith)
            requires
                x <= 10 * c,
                2 * k >= c,
                c > 0,
                m >= 0x1_0000_0000_0000_0000_0000_0000_0000_0000_0000_0000_0000_0000 * c,
        ;
        lemma_quot_close(d, keep);
        let r = raw.mag() as int;
        lemma_close_scale(x, e, 1, c);
        assert(x * c >= 0 && e * c > 0) by (nonlinear_arith)
            requires
                x >= 0,
                e > 0,
                c > 0,
        ;
        lemma_close_trans(r * k, x * c, 1, e * c, 1);
        lemma_close_scale(r * k, e * c, 3, 10);
        assert(r > 0) by {
            if r == 0 {
                assert(r * k == 0) by (nonlinear_arith)
                    requires
                        r == 0,
                ;
            }
        }
        assert(10 * k == 8 * c + 16 * w);
        assert(close(8 * c, 10 * k, 2));
        lemma_close_scale(8 * c, 10 * k, 2, r);
        assert(r * (10 * k) == 10 * (r * k) && r * (8 * c) == (8 * r) * c && 10 * (e * c) == y * c)
            by (nonlinear_arith)
            requires
                y == 10 * e,
        ;
        assert(r * k >= 0) by (nonlinear_arith)
            requires
                r >= 0,
                k >= 0,
        ;
        lemma_close_trans((8 * r) * c, 10 * (r * k), 2, y * c, 3);
        lemma_close_scale(8 * r, y, 6, c);
        lemma_order(raw, w1);
        lemma_order(w1, raw);
        let g = raw.clamped(zero, w1);
        assert(g.value() == least(r, c));
        assert(10 * q.mag() - 2 * c == y + 4 * w);
    }
}

/// The part of the strength that comes from losses.
proof fn lemma_loss_strength(loss: F64)
    requires
        loss.plain(),
        loss.mag() <= one(),
        loss.mag() == 0 || loss.mag() >= 0x10_0000_0000_0000,
    ensures
        ({
            let c = one() as int;
            let g = loss.quot(p_high()).clamped(signed(false, 0), of_whole(1));
            let x = kept_within(800 * loss.value(), 0, 8 * c);
            &&& !g.nan()
            &&& parts() * (8 * g.value() - x) <= 64 * c
            &&& parts() * (x - 8 * g.value()) <= 64 * c
        }),
{
    lemma_double();
    lemma_zero_one();
    lemma_large_one();
    lemma_whole_exact(1);
    lemma_fraction_close(1, 100);
    let u = parts();
    let c = one() as int;
    let (zero, w1) = (signed(false, 0), of_whole(1));
    let f = p_high();
    let k = f.mag() as int;
    lemma_mag_order(f, zero);
    let raw = loss.quot(f);
    if loss.mag() == 0 {
        lemma_zero_quot(loss, f);
    } else {
        let x = loss.mag() as int;
        assert(close(100 * k, c, 1));
        let m = pow2(2000) as int;
        assert(x * c >= 0x10_0000_0000_0000 * k && x * c <= m * k) by (nonlinear_arith)
            requires
                0x10_0000_0000_0000 <= x <= c,
                0 <= k <= c,
                200 * k >= c,
                c > 0,
                m >= 0x1_0000_0000_0000_0000_0000_0000_0000_0000_0000_0000_0000_0000 * c,
        ;
        lemma_quot_close(loss, f);
        let r = raw.mag() as int;
        lemma_close_scale(r * k, x * c, 1, 800);
        assert(r > 0) by {
            if r == 0 {
                assert(r * k == 0 && x * c > 0) by (nonlinear_arith)
                    requires
                        r == 0,
                        x > 0,
                        c > 0,
                ;
            }
        }
        assert(close(8 * c, 800 * k, 2));
        lemma_close_scale(8 * c, 800 * k, 2, r);
        let y = 800 * x;
        assert(r * (800 * k) == 800 * (r * k) && r * (8 * c) == (8 * r) * c && 800 * (x * c) == y
            * c) by (nonlinear_arith)
            requires
                y == 800 * x,
        ;
        assert(r * k >= 0 && y * c >= 0) by (nonlinear_arith)
            requires
                r >= 0,
                k >= 0,
                y >= 0,
                c >= 0,
        ;
        lemma_close_trans((8 * r) * c, 800 * (r * k), 2, y * c, 1);
        lemma_close_scale(8 * r, y, 4, c);
        lemma_order(raw, w1);
        lemma_order(w1, raw);
        let g = raw.clamped(zero, w1);
        assert(g.value() == least(r, c));
    }
}

/// The strength of the congestion goes from none, at a normalised queueing delay of a fifth and
/// without loss, to full, at a delay of one or a loss rate of a hundredth; the larger of the two
/// counts.
pub proof fn law_congestion_strength(q: F64, loss_rate: F64)
    requires
        q.plain(),
        q.mag() <= 5 * one(),
        loss_rate.plain(),
        loss_rate.mag() <= one(),
        loss_rate.mag() == 0 || loss_rate.mag() >= 0x10_0000_0000_0000,
    ensures
        ({
            let c = one() as int;
            let g = congestion(q, loss_rate).value();
            let x = strength(q.value(), loss_rate.value());
            parts() * (8 * g - x) <= 64 * c && parts() * (x - 8 * g) <= 64 * c
        }),
{
    lemma_queue_strength(q);
    lemma_loss_strength(loss_rate);
}

} // verus!
