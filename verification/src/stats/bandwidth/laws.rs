//! What holds of every bandwidth estimate.
use vstd::arithmetic::power2::{
    lemma2_to64, lemma2_to64_rest, lemma_pow2_adds, lemma_pow2_pos, pow2,
};
use vstd::prelude::*;

use crate::clock::span;
use crate::num::bounds::{
    lemma_error, lemma_nearest_ratio_monotone, lemma_order, lemma_prod_pattern, lemma_quot_pattern,
    lemma_sum_above, lemma_sum_pattern, lemma_units_at_least, lemma_units_at_most,
    lemma_units_error,
};
use crate::num::double::{
    fraction, lemma_double, lemma_mag_order, lemma_whole_monotone, of_whole, signed, F64, INFINITE,
};
use crate::num::exact::{lemma_fraction_digits, lemma_whole_exact, one};
use crate::num::facts::{
    lemma_fraction_at_most_one, lemma_nearest_exact, lemma_quot_at_most_one, lemma_whole_finite,
    lemma_zero_one,
};
use crate::num::format::{
    double, lemma_magnitude_of_digits, lemma_nearest, lemma_nearest_at_least, lemma_nearest_at_most,
    lemma_nearest_is, Exact,
};
use crate::stats::bandwidth::{
    adjusted, alpha_per_s, beta, blended, cap_bps, clean, congestion, floor_bps, gamma,
    growth_limit, headroom, initial_bps, queueing, seconds, tau_high, uncongested, Bandwidth,
    Measurement,
};

verus! {

/// The number 2^64, in units.
pub open spec fn big() -> nat {
    0x1_0000_0000_0000_0000 * one()
}

/// The pattern of `k` times 2^64, with digits `t` and exponent `e`.
proof fn lemma_large(k: nat, t: nat, e: nat)
    requires
        0x10_0000_0000_0000 <= t < 0x20_0000_0000_0000,
        1074 <= e,
        t * pow2((e - 1074) as nat) == k * 0x1_0000_0000_0000_0000,
    ensures
        double().magnitude((e * 0x10_0000_0000_0000 + t) as nat) == k * big(),
{
    let j = (e - 1074) as nat;
    lemma_double();
    lemma_magnitude_of_digits(double(), e, t);
    lemma_pow2_adds(1074, j);
    let c = one();
    assert(t * (c * pow2(j)) == k * (0x1_0000_0000_0000_0000 * c)) by (nonlinear_arith)
        requires
            t * pow2(j) == k * 0x1_0000_0000_0000_0000,
    ;
}

/// Ten times 2^64 bytes per second: what the largest byte count gives in a tenth of a second.
pub open spec fn ceiling_bps() -> F64 {
    signed(false, 1089 * 0x10_0000_0000_0000 + 0x14_0000_0000_0000)
}

pub proof fn lemma_patterns()
    ensures
        ceiling_bps().plain(),
        ceiling_bps().mag() == 10 * big(),
        double().magnitude(1090 * 0x10_0000_0000_0000 + 0x14_0000_0000_0000) == 20 * big(),
        double().magnitude(1091 * 0x10_0000_0000_0000 + 0x14_0000_0000_0000) == 40 * big(),
        double().magnitude(1087 * 0x10_0000_0000_0000 + 0x18_0000_0000_0000) == 3 * big(),
        double().magnitude(1088 * 0x10_0000_0000_0000 + 0x1c_0000_0000_0000) == 7 * big(),
        double().magnitude(1086 * 0x10_0000_0000_0000 + 0x10_0000_0000_0000)
            == big(),
        one() > 0,
        big() == 0x1_0000_0000_0000_0000 * one(),
{
    lemma2_to64();
    lemma_pow2_pos(1074);
    lemma_large(10, 0x14_0000_0000_0000, 1089);
    lemma_large(20, 0x14_0000_0000_0000, 1090);
    lemma_large(40, 0x14_0000_0000_0000, 1091);
    lemma_large(3, 0x18_0000_0000_0000, 1087);
    lemma_large(7, 0x1c_0000_0000_0000, 1088);
    lemma_large(1, 0x10_0000_0000_0000, 1086);
}

/// Tenths and fifths, as the format holds them.
pub proof fn lemma_tenths()
    ensures
        fraction(1, 10).plain(),
        fraction(1, 10).mag() == 0x19_9999_9999_999a * pow2(1018),
        10 * fraction(1, 10).mag() >= one(),
        fraction(1, 5).plain(),
        fraction(1, 5).mag() == 0x19_9999_9999_999a * pow2(1019),
        fraction(3, 10).plain(),
        10 * fraction(3, 10).mag() <= 3 * one(),
        fraction(3, 10).low() > 0,
        fraction(7, 10).plain(),
        10 * fraction(7, 10).mag() <= 7 * one(),
        fraction(11, 10).plain(),
        fraction(11, 10).mag() <= 2 * one(),
        fraction(1, 10).low() == 1018 * 0x10_0000_0000_0000 + 0x19_9999_9999_999a,
        one() == 0x100_0000_0000_0000 * pow2(1018),
        one() == 0x80_0000_0000_0000 * pow2(1019),
        one() == 0x20_0000_0000_0000 * pow2(1021),
{
    lemma2_to64();
    lemma2_to64_rest();
    lemma_fraction_digits(1, 10, 56, 0x19_9999_9999_999a);
    lemma_fraction_digits(1, 5, 55, 0x19_9999_9999_999a);
    lemma_fraction_digits(3, 10, 54, 0x13_3333_3333_3333);
    lemma_fraction_digits(7, 10, 53, 0x16_6666_6666_6666);
    lemma_fraction_digits(11, 10, 52, 0x11_9999_9999_999a);
    lemma_pow2_adds(56, 1018);
    lemma_pow2_adds(55, 1019);
    lemma_pow2_adds(54, 1020);
    lemma_pow2_adds(53, 1021);
    lemma_pow2_adds(52, 1022);
}

/// The share that the estimate keeps when it moves: four fifths, rounded.
pub proof fn lemma_four_fifths()
    ensures
        of_whole(1).diff(gamma()).plain(),
        of_whole(1).diff(gamma()).mag() == 0x19_9999_9999_999a * pow2(1021),
{
    lemma_double();
    lemma_tenths();
    lemma_whole_exact(1);
    lemma_pow2_pos(1019);
    lemma_pow2_adds(2, 1019);
    lemma2_to64();
    lemma_magnitude_of_digits(double(), 1021, 0x19_9999_9999_999a);
    lemma_magnitude_of_digits(double(), 1021, 0x19_9999_9999_9999);
    lemma_magnitude_of_digits(double(), 1021, 0x19_9999_9999_999b);
    let b = (1021 * 0x10_0000_0000_0000 + 0x19_9999_9999_999a) as nat;
    let s = (one() - fraction(1, 5).mag()) as nat;
    let x = Exact::Ratio { p: s, q: 1 };
    lemma_nearest_is(double(), x, b);
    let g = gamma().negated();
    assert(g.value() == -(fraction(1, 5).mag() as int));
    assert(of_whole(1).value() + g.value() == s);
}

/// A time of a tenth of a second or more, within the range of the clock.
pub open spec fn settled(dt: F64) -> bool {
    dt.plain() && fraction(1, 10).low() <= dt.low() && dt.low() <= 1090 * 0x10_0000_0000_0000
        + 0x14_0000_0000_0000
}

/// Times in seconds are numbers.
pub proof fn lemma_seconds(nanos: int)
    requires
        nanos >= 0,
    ensures
        seconds(nanos).plain(),
        seconds(nanos).low() <= 1090 * 0x10_0000_0000_0000 + 0x14_0000_0000_0000,
        !seconds(nanos).less(fraction(1, 10)) ==> settled(seconds(nanos)),
{
    lemma_double();
    lemma_patterns();
    lemma_tenths();
    let secs = (nanos / 1_000_000_000) as u64;
    let rest = (nanos % 1_000_000_000) as nat;
    lemma_whole_finite(secs);
    lemma_whole_exact(rest);
    lemma_whole_exact(1_000_000_000);
    lemma_zero_one();
    let (a, b) = (of_whole(secs as nat), of_whole(rest));
    let c = of_whole(1_000_000_000);
    assert(rest * one() <= 1_000_000_000 * one()) by (nonlinear_arith)
        requires
            rest <= 1_000_000_000,
    ;
    lemma_quot_at_most_one(b, c);
    let q = b.quot(c);
    lemma_order(q, of_whole(1));
    lemma_sum_pattern(a, q);
    lemma_mag_order(a, signed(false, 0x43f0_0000_0000_0000));
    lemma_mag_order(q, of_whole(1));
    lemma_units_at_most(a.mag() + q.mag(), 1090 * 0x10_0000_0000_0000 + 0x14_0000_0000_0000);
    lemma_order(seconds(nanos), fraction(1, 10));
}

/// An estimate between its floor and its cap, and a throughput up to what the largest byte
/// count gives.
pub open spec fn bounded(bw: Bandwidth) -> bool {
    &&& within(bw.b_hat)
    &&& bw.throughput.plain()
    &&& bw.throughput.at_most(ceiling_bps())
}

/// A number from the floor to the cap.
pub open spec fn within(b: F64) -> bool {
    b.plain() && floor_bps().at_most(b) && b.at_most(cap_bps())
}

pub proof fn lemma_within(b: F64)
    requires
        b.plain(),
    ensures
        within(b) <==> floor_bps().low() <= b.low() <= cap_bps().low(),
        within(b) <==> 5_000_000 * one() <= b.mag() <= 1_000_000_000 * one(),
        floor_bps().plain(),
        cap_bps().plain(),
        floor_bps().mag() == 5_000_000 * one(),
        cap_bps().mag() == 1_000_000_000 * one(),
        floor_bps().low() <= cap_bps().low(),
{
    lemma_whole_exact(5_000_000);
    lemma_whole_exact(1_000_000_000);
    lemma_whole_monotone(5_000_000, 1_000_000_000);
    lemma_order(floor_bps(), b);
    lemma_order(b, cap_bps());
    lemma_mag_order(floor_bps(), b);
    lemma_mag_order(b, cap_bps());
    lemma_mag_order(b, floor_bps());
    lemma_mag_order(cap_bps(), b);
}

/// Whatever is kept between the floor and the cap lies there, and not above what it was unless
/// that is below the floor.
pub proof fn lemma_clamped(x: F64)
    requires
        x.nonneg(),
    ensures
        within(x.clamped(floor_bps(), cap_bps())),
        x.low() >= floor_bps().low() ==> x.clamped(floor_bps(), cap_bps()).low() <= x.low(),
        x.low() < floor_bps().low() ==> x.clamped(floor_bps(), cap_bps()) == floor_bps(),
{
    lemma_whole_exact(5_000_000);
    lemma_whole_exact(1_000_000_000);
    lemma_within(floor_bps());
    lemma_within(cap_bps());
    lemma_order(x, floor_bps());
    lemma_order(cap_bps(), x);
    if x.finite() {
        lemma_within(x);
    }
}

/// The throughput since the last update.
pub proof fn lemma_instant(bw: Bandwidth, dt: F64, tx_bytes: u64)
    requires
        settled(dt),
    ensures
        bw.instant_throughput(dt, tx_bytes).plain(),
        bw.instant_throughput(dt, tx_bytes).low() <= ceiling_bps().low(),
{
    lemma_double();
    lemma_patterns();
    lemma_tenths();
    let bytes = if tx_bytes >= bw.last_tx_bytes {
        (tx_bytes - bw.last_tx_bytes) as u64
    } else {
        0
    };
    let a = of_whole(bytes as nat);
    lemma_whole_finite(bytes);
    lemma_mag_order(fraction(1, 10), dt);
    lemma_mag_order(a, signed(false, 0x43f0_0000_0000_0000));
    lemma_quot_pattern(a, dt);
    let (p, q, c) = (a.mag() * one(), dt.mag(), ceiling_bps().mag());
    assert(2 * p <= (2 * c) * q) by (nonlinear_arith)
        requires
            p == a.mag() * one(),
            a.mag() <= big(),
            c == 10 * big(),
            10 * q >= one(),
            one() > 0,
    ;
    lemma_nearest_at_most(double(), Exact::Ratio { p, q }, ceiling_bps().low());
    lemma_order(dt, dt);
    lemma_mag_order(ceiling_bps(), signed(false, INFINITE as nat));
}

/// A number times a share of tenths.
proof fn lemma_tenths_of(share: F64, x: F64, k: nat, b: nat)
    requires
        share.plain(),
        x.plain(),
        x.low() <= ceiling_bps().low(),
        10 * share.mag() <= k * one(),
        double().magnitude(b) == k * big(),
        b < INFINITE,
    ensures
        share.prod(x).plain(),
        share.prod(x).low() <= b,
        k == 3 ==> share.prod(x).mag() <= 3 * big(),
        k == 7 ==> share.prod(x).mag() <= 7 * big(),
{
    lemma_double();
    lemma_patterns();
    lemma_prod_pattern(share, x);
    lemma_mag_order(x, ceiling_bps());
    let (p, q) = (share.mag() * x.mag(), one());
    let m = double().magnitude(b);
    assert(2 * p <= (2 * m) * q) by (nonlinear_arith)
        requires
            p == share.mag() * x.mag(),
            10 * share.mag() <= k * q,
            x.mag() <= 10 * big(),
            m == k * big(),
    ;
    lemma_nearest_at_most(double(), Exact::Ratio { p, q }, b);
    lemma_mag_order(share.prod(x), signed(false, b));
}

/// The smoothed throughput stays below the ceiling.
pub proof fn lemma_smoothed(bw: Bandwidth, dt: F64, tx_bytes: u64)
    requires
        settled(dt),
        bw.throughput.plain(),
        bw.throughput.low() <= ceiling_bps().low(),
    ensures
        bw.smoothed_throughput(dt, tx_bytes).plain(),
        bw.smoothed_throughput(dt, tx_bytes).low() <= ceiling_bps().low(),
{
    lemma_double();
    lemma_patterns();
    lemma_tenths();
    lemma_instant(bw, dt, tx_bytes);
    let x = bw.instant_throughput(dt, tx_bytes);
    let (b3, b7) = (
        1087 * 0x10_0000_0000_0000 + 0x18_0000_0000_0000,
        1088 * 0x10_0000_0000_0000 + 0x1c_0000_0000_0000,
    );
    lemma_tenths_of(fraction(3, 10), x, 3, b3 as nat);
    lemma_tenths_of(fraction(7, 10), bw.throughput, 7, b7 as nat);
    let (u, v) = (fraction(3, 10).prod(x), fraction(7, 10).prod(bw.throughput));
    lemma_sum_pattern(u, v);
    lemma_units_at_most(u.mag() + v.mag(), ceiling_bps().low());
}

/// The estimate that an update starts from stays within the bounds.
pub proof fn lemma_start(bw: Bandwidth, rttvar_ms: F64, minrtt_ms: F64)
    requires
        within(bw.b_hat),
    ensures
        within(bw.starting_point(rttvar_ms, minrtt_ms)),
{
    lemma_double();
    lemma_pow2_pos(1074);
    lemma_within(bw.b_hat);
    lemma_whole_exact(30_000_000);
    lemma_whole_exact(2_000_000_000);
    lemma_whole_exact(2);
    let s = initial_bps().sum(bw.b_hat);
    let x = initial_bps().mag() + bw.b_hat.mag();
    lemma_sum_pattern(initial_bps(), bw.b_hat);
    lemma_units_at_most(x, of_whole(2_000_000_000).low());
    lemma_units_at_least(x, initial_bps().low());
    lemma_mag_order(s, of_whole(2_000_000_000));
    lemma_mag_order(initial_bps(), s);
    let two = of_whole(2);
    lemma_quot_pattern(s, two);
    let y = Exact::Ratio { p: s.mag() * one(), q: two.mag() };
    let (m, c) = (s.mag(), one());
    assert(2 * (m * c) <= (2 * (1_000_000_000 * c)) * (2 * c)) by (nonlinear_arith)
        requires
            m <= 2_000_000_000 * c,
    ;
    lemma_nearest_at_most(double(), y, cap_bps().low());
    assert(2 * (m * c) >= (2 * (5_000_000 * c)) * (2 * c)) by (nonlinear_arith)
        requires
            m >= 30_000_000 * c,
    ;
    lemma_nearest_at_least(double(), y, floor_bps().low());
    lemma_within(s.quot(two));
}

/// A number times one that is not above one.
proof fn lemma_share_of(share: F64, x: F64)
    requires
        share.plain(),
        x.plain(),
        share.mag() <= one(),
    ensures
        share.prod(x).plain(),
        share.prod(x).low() <= x.low(),
        x.prod(share).plain(),
        x.prod(share).low() <= x.low(),
{
    lemma_double();
    lemma_pow2_pos(1074);
    lemma_prod_pattern(share, x);
    lemma_prod_pattern(x, share);
    let (p, m) = (share.mag() * x.mag(), x.mag());
    assert(p == x.mag() * share.mag()) by (nonlinear_arith)
        requires
            p == share.mag() * x.mag(),
    ;
    assert(2 * p <= (2 * m) * one()) by (nonlinear_arith)
        requires
            p == share.mag() * m,
            share.mag() <= one(),
    ;
    lemma_nearest_at_most(double(), Exact::Ratio { p, q: one() }, x.low());
}

/// Blending an estimate with a target gives a number.
proof fn lemma_blended(b: F64, target: F64)
    requires
        within(b),
        target.plain(),
        target.mag() <= 20 * big(),
    ensures
        blended(b, target).plain(),
{
    lemma_double();
    lemma_patterns();
    lemma_within(b);
    lemma_tenths();
    lemma_four_fifths();
    lemma_pow2_pos(1021);
    let keep = of_whole(1).diff(gamma());
    lemma_share_of(keep, b);
    lemma_share_of(gamma(), target);
    let (u, v) = (keep.prod(b), gamma().prod(target));
    lemma_mag_order(u, b);
    lemma_mag_order(v, target);
    lemma_sum_pattern(u, v);
    lemma_units_at_most(u.mag() + v.mag(), 1091 * 0x10_0000_0000_0000 + 0x14_0000_0000_0000);
}

/// The queueing delay is a number from zero to five.
pub proof fn lemma_queueing(srtt_ms: F64, minrtt_ms: F64)
    ensures
        queueing(srtt_ms, minrtt_ms).plain(),
        queueing(srtt_ms, minrtt_ms).low() <= of_whole(5).low(),
{
    lemma_double();
    lemma_zero_one();
    lemma_whole_exact(5);
    lemma_whole_exact(1);
    let base = minrtt_ms.larger(of_whole(1));
    let d = srtt_ms.diff(base);
    let q = d.larger(signed(false, 0));
    lemma_mag_order(minrtt_ms, of_whole(1));
    lemma_mag_order(of_whole(1), minrtt_ms);
    assert(base.nonneg() && base.low() > 0);
    lemma_nearest(
        double(),
        Exact::Ratio {
            p: if srtt_ms.value() < base.value() {
                (base.value() - srtt_ms.value()) as nat
            } else {
                (srtt_ms.value() - base.value()) as nat
            },
            q: 1,
        },
    );
    lemma_mag_order(d, signed(false, 0));
    lemma_mag_order(signed(false, 0), d);
    assert(q.nonneg());
    let r = q.quot(base);
    if q.finite() && base.finite() {
        lemma_quot_pattern(q, base);
        lemma_order(r, of_whole(5));
    } else {
        if r.nonneg() {
            lemma_order(r, of_whole(5));
        }
    }
}

/// The strength of congestion lies between none and full.
pub proof fn lemma_congestion(qnorm: F64, loss_rate: F64)
    requires
        qnorm.plain(),
    ensures
        !congestion(qnorm, loss_rate).nan(),
        0 <= congestion(qnorm, loss_rate).value() <= one(),
{
    lemma_double();
    lemma_zero_one();
    lemma_whole_exact(1);
    lemma_tenths();
    lemma_four_fifths();
    lemma_pow2_pos(1021);
    let zero = signed(false, 0);
    let w1 = of_whole(1);
    let d = qnorm.diff(tau_high());
    let keep = w1.diff(tau_high());
    lemma_mag_order(keep, zero);
    lemma_nearest(
        double(),
        Exact::Ratio {
            p: if qnorm.value() < tau_high().value() {
                (tau_high().value() - qnorm.value()) as nat
            } else {
                (qnorm.value() - tau_high().value()) as nat
            },
            q: 1,
        },
    );
    let raw = d.quot(keep);
    lemma_nearest(
        double(),
        Exact::Ratio { p: d.mag() * one(), q: keep.mag() },
    );
    assert(!raw.nan());
}

/// What congestion leaves of an estimate is a share from zero to one.
proof fn lemma_left(g: F64)
    requires
        !g.nan(),
        0 <= g.value() <= one(),
    ensures
        of_whole(1).diff(beta().prod(g)).plain(),
        of_whole(1).diff(beta().prod(g)).mag() <= one(),
{
    lemma_double();
    lemma_zero_one();
    lemma_whole_exact(1);
    lemma_tenths();
    lemma_pow2_pos(1074);
    lemma_mag_order(g, of_whole(1));
    lemma_mag_order(of_whole(1), g);
    lemma_mag_order(g, signed(false, 0));
    let m = beta().prod(g);
    let x = Exact::Ratio { p: beta().mag() * g.mag(), q: one() };
    assert(2 * (beta().mag() * g.mag()) <= (2 * beta().mag()) * one()) by (nonlinear_arith)
        requires
            g.mag() <= one(),
    ;
    lemma_nearest(double(), x);
    lemma_nearest_at_most(double(), x, beta().low());
    if g.mag() == 0 {
        assert(beta().mag() * g.mag() == 0) by (nonlinear_arith)
            requires
                g.mag() == 0,
        ;
        lemma_nearest_exact(double(), x, 0);
    }
    lemma_mag_order(m, beta());
    lemma_mag_order(beta(), m);
    lemma_mag_order(m, signed(false, 0));
    let n = m.negated();
    let s = of_whole(1).value() + n.value();
    assert(0 < s <= one());
    let y = Exact::Ratio { p: s as nat, q: 1 };
    lemma_nearest(double(), y);
    lemma_units_at_most(s as nat, of_whole(1).low());
    lemma_mag_order(of_whole(1).diff(m), of_whole(1));
    lemma_mag_order(of_whole(1), of_whole(1).diff(m));
}

/// The larger of two numbers that are not negative.
pub proof fn lemma_larger(a: F64, b: F64)
    requires
        a.nonneg(),
        b.nonneg(),
    ensures
        a.larger(b).low() == if a.low() < b.low() {
            b.low()
        } else {
            a.low()
        },
        a.larger(b) == a || a.larger(b) == b,
        a.smaller(b).low() == if b.low() < a.low() {
            b.low()
        } else {
            a.low()
        },
        a.smaller(b) == a || a.smaller(b) == b,
{
    lemma_order(a, b);
    lemma_order(b, a);
}

/// The target of a clean window.
proof fn lemma_target(b: F64, throughput: F64, dt: F64)
    requires
        within(b),
        throughput.plain(),
        throughput.low() <= ceiling_bps().low(),
        settled(dt),
    ensures
        ({
            let t = throughput.prod(headroom()).smaller(growth_limit(b, dt));
            t.plain() && t.mag() <= 20 * big() && t.low()
                <= growth_limit(b, dt).low()
        }),
        growth_limit(b, dt).nonneg(),
        b.low() <= growth_limit(b, dt).low(),
{
    lemma_double();
    lemma_patterns();
    lemma_tenths();
    lemma_whole_exact(1);
    let bb = (1090 * 0x10_0000_0000_0000 + 0x14_0000_0000_0000) as nat;
    let u = throughput.prod(headroom());
    lemma_prod_pattern(throughput, headroom());
    lemma_mag_order(throughput, ceiling_bps());
    let (p, q) = (throughput.mag() * headroom().mag(), one());
    assert(2 * p <= (2 * (20 * big())) * q) by (nonlinear_arith)
        requires
            p == throughput.mag() * headroom().mag(),
            throughput.mag() <= 10 * big(),
            headroom().mag() <= 2 * q,
    ;
    lemma_nearest_at_most(double(), Exact::Ratio { p, q }, bb);
    lemma_mag_order(u, signed(false, bb));
    lemma_share_of(alpha_per_s(), dt);
    let r = alpha_per_s().prod(dt);
    let grow = of_whole(1).sum(r);
    lemma_sum_pattern(of_whole(1), r);
    lemma_sum_above(of_whole(1), r);
    lemma_mag_order(r, dt);
    lemma_mag_order(dt, signed(false, bb));
    lemma_units_at_most(one() + r.mag(), 1091 * 0x10_0000_0000_0000 + 0x14_0000_0000_0000);
    lemma_prod_pattern(b, grow);
    lemma_mag_order(of_whole(1), grow);
    let (s, m) = (b.mag() * grow.mag(), b.mag());
    assert(2 * s >= (2 * m) * one()) by (nonlinear_arith)
        requires
            s == m * grow.mag(),
            grow.mag() >= one(),
    ;
    lemma_nearest_at_least(double(), Exact::Ratio { p: s, q: one() }, b.low());
    lemma_larger(u, growth_limit(b, dt));
}

/// A window keeps the estimate within the bounds; a congested one does not leave it above both
/// the estimate and the throughput.
proof fn lemma_adjusted(b: F64, throughput: F64, dt: F64, qnorm: F64, loss_rate: F64)
    requires
        within(b),
        throughput.plain(),
        throughput.low() <= ceiling_bps().low(),
        settled(dt),
        qnorm.plain(),
    ensures
        within(adjusted(b, throughput, dt, qnorm, loss_rate)),
        !clean(qnorm, loss_rate) && !uncongested(qnorm, loss_rate) ==> adjusted(
            b,
            throughput,
            dt,
            qnorm,
            loss_rate,
        ).at_most(b.larger(throughput)),
{
    lemma_double();
    lemma_patterns();
    lemma_within(b);
    let r = adjusted(b, throughput, dt, qnorm, loss_rate);
    if clean(qnorm, loss_rate) {
        if signed(false, 0).less(throughput) {
            let target = throughput.prod(headroom()).smaller(growth_limit(b, dt));
            lemma_target(b, throughput, dt);
            lemma_blended(b, target);
            lemma_clamped(blended(b, target));
        }
    } else if uncongested(qnorm, loss_rate) {
        let target = b.larger(throughput);
        lemma_larger(b, throughput);
        lemma_mag_order(throughput, ceiling_bps());
        lemma_blended(b, target);
        lemma_clamped(blended(b, target));
    } else {
        let g = congestion(qnorm, loss_rate);
        lemma_congestion(qnorm, loss_rate);
        lemma_left(g);
        let left = of_whole(1).diff(beta().prod(g));
        let base = b.larger(throughput);
        lemma_larger(b, throughput);
        lemma_share_of(left, base);
        lemma_clamped(base.prod(left));
        lemma_order(r, base);
    }
}

/// A new estimate lies within the bounds.
pub proof fn law_initial_is_bounded(now: int)
    ensures
        bounded(Bandwidth::initial(now)),
{
    lemma_patterns();
    lemma_whole_exact(30_000_000);
    lemma_within(initial_bps());
    lemma_order(signed(false, 0), ceiling_bps());
}

/// Whatever is measured, the estimate stays between the floor and the cap, and the throughput
/// neither grows beyond all bounds nor stops being a number.
pub proof fn law_updates_stay_bounded(bw: Bandwidth, now: int, m: Measurement)
    requires
        bounded(bw),
    ensures
        bounded(bw.updated(now, m)),
{
    lemma_patterns();
    lemma_order(bw.throughput, ceiling_bps());
    let nanos = span(bw.last_update, now);
    lemma_seconds(nanos);
    let dt = seconds(nanos);
    if !dt.less(fraction(1, 10)) {
        lemma_smoothed(bw, dt, m.tx_bytes);
        lemma_start(bw, m.rttvar_ms, m.minrtt_ms);
        lemma_queueing(m.srtt_ms, m.minrtt_ms);
        let throughput = bw.smoothed_throughput(dt, m.tx_bytes);
        lemma_adjusted(
            bw.starting_point(m.rttvar_ms, m.minrtt_ms),
            throughput,
            dt,
            queueing(m.srtt_ms, m.minrtt_ms),
            m.loss_rate,
        );
        lemma_order(throughput, ceiling_bps());
    }
}

/// A measurement counts if and only if a tenth of a second has passed since the last one that
/// did.
pub proof fn law_a_tenth_of_a_second_between_updates(bw: Bandwidth, now: int, m: Measurement)
    requires
        span(bw.last_update, now) < 1_000_000_000 * 0x1_0000_0000_0000_0000,
    ensures
        span(bw.last_update, now) < 100_000_000 ==> bw.updated(now, m) == bw,
        span(bw.last_update, now) >= 100_000_000 ==> bw.updated(now, m).last_update == now,
{
    lemma_double();
    lemma_tenths();
    lemma_zero_one();
    let nanos = span(bw.last_update, now);
    let secs = nanos / 1_000_000_000;
    let rest = (nanos % 1_000_000_000) as nat;
    let dt = seconds(nanos);
    lemma_seconds(nanos);
    lemma_whole_finite(secs as u64);
    lemma_whole_exact(rest);
    lemma_whole_exact(1_000_000_000);
    lemma_whole_exact(1);
    lemma_whole_exact(10);
    let (a, b, c) = (of_whole(secs as nat), of_whole(rest), of_whole(1_000_000_000));
    let q = b.quot(c);
    let t = fraction(1, 10);
    assert(rest * one() <= 1_000_000_000 * one()) by (nonlinear_arith)
        requires
            rest <= 1_000_000_000,
    ;
    lemma_quot_at_most_one(b, c);
    lemma_quot_pattern(b, c);
    lemma_sum_above(a, q);
    lemma_order(dt, t);
    let u = one();
    if secs >= 1 {
        lemma_whole_monotone(1, secs as nat);
        lemma_fraction_at_most_one(1, 10);
        lemma_order(t, of_whole(1));
    } else if rest >= 100_000_000 {
        assert((u * u) * (1_000_000_000 * u) <= ((rest * u) * u) * (10 * u)) by (nonlinear_arith)
            requires
                rest >= 100_000_000,
        ;
        lemma_quot_pattern(of_whole(1), of_whole(10));
        lemma_nearest_ratio_monotone(double(), u * u, 10 * u, (rest * u) * u, 1_000_000_000 * u);
    } else {
        lemma_whole_exact(0);
        lemma_sum_pattern(a, q);
        lemma_units_at_most(q.mag(), q.low());
        let below = (t.low() - 1) as nat;
        lemma_magnitude_of_digits(double(), 1018, 0x19_9999_9999_9999);
        let m = double().magnitude(below);
        let w = pow2(1018);
        assert(2 * ((rest * u) * u) <= (2 * m) * (1_000_000_000 * u)) by (nonlinear_arith)
            requires
                rest <= 99_999_999,
                m == 0x19_9999_9999_9999 * w,
                u == 0x100_0000_0000_0000 * w,
        ;
        lemma_nearest_at_most(
            double(),
            Exact::Ratio { p: (rest * u) * u, q: 1_000_000_000 * u },
            below,
        );
    }
}

/// An estimator that was new at the time `start`, after a history of measurements, each with
/// its time.
pub open spec fn after(start: int, history: Seq<(int, Measurement)>) -> Bandwidth
    decreases history.len(),
{
    if history.len() == 0 {
        Bandwidth::initial(start)
    } else {
        after(start, history.drop_last()).updated(history.last().0, history.last().1)
    }
}

/// In every state that a new estimator reaches, the estimate is a number from the floor to the
/// cap, whatever is measured and whenever.
pub proof fn law_estimates_stay_between_floor_and_cap(
    start: int,
    history: Seq<(int, Measurement)>,
)
    ensures
        bounded(after(start, history)),
        floor_bps().at_most(after(start, history).b_hat),
        after(start, history).b_hat.at_most(cap_bps()),
    decreases history.len(),
{
    if history.len() == 0 {
        law_initial_is_bounded(start);
    } else {
        law_estimates_stay_between_floor_and_cap(start, history.drop_last());
        law_updates_stay_bounded(
            after(start, history.drop_last()),
            history.last().0,
            history.last().1,
        );
    }
}

/// In a congested window the estimate does not end above both where it started from and the
/// throughput.
pub proof fn law_congestion_never_raises(bw: Bandwidth, now: int, m: Measurement)
    requires
        bounded(bw),
        !seconds(span(bw.last_update, now)).less(fraction(1, 10)),
        !clean(queueing(m.srtt_ms, m.minrtt_ms), m.loss_rate),
        !uncongested(queueing(m.srtt_ms, m.minrtt_ms), m.loss_rate),
    ensures
        bw.updated(now, m).b_hat.at_most(
            bw.starting_point(m.rttvar_ms, m.minrtt_ms).larger(bw.updated(now, m).throughput),
        ),
{
    lemma_window(bw, now, m);
}

/// A clean window without traffic leaves the estimate where it started from.
pub proof fn law_idle_windows_keep_the_estimate(bw: Bandwidth, now: int, m: Measurement)
    requires
        bw.throughput == signed(false, 0),
        m.tx_bytes <= bw.last_tx_bytes,
        !seconds(span(bw.last_update, now)).less(fraction(1, 10)),
        clean(queueing(m.srtt_ms, m.minrtt_ms), m.loss_rate),
    ensures
        bw.updated(now, m).b_hat == bw.starting_point(m.rttvar_ms, m.minrtt_ms),
        !bw.path_changed(m.rttvar_ms, m.minrtt_ms) ==> bw.updated(now, m).b_hat == bw.b_hat,
        bw.updated(now, m).throughput == bw.throughput,
{
    lemma_double();
    lemma_patterns();
    let dt = seconds(span(bw.last_update, now));
    lemma_seconds(span(bw.last_update, now));
    lemma_whole_exact(0);
    lemma_zero_one();
    lemma_tenths();
    lemma_quot_pattern(of_whole(0), dt);
    lemma_pow2_pos(1074);
    let x = Exact::Ratio { p: of_whole(0).mag() * one(), q: dt.mag() };
    assert(0nat * one() == 0);
    assert(2 * double().magnitude(0) == 0);
    assert(0nat * dt.mag() == 0) by (nonlinear_arith);
    lemma_nearest_exact(double(), x, 0);
    lemma_order(signed(false, 0), dt);
    lemma_order(signed(false, 0), signed(false, 0));
}

/// What holds of the window that an update looks at.
pub proof fn lemma_window(bw: Bandwidth, now: int, m: Measurement)
    requires
        bounded(bw),
        !seconds(span(bw.last_update, now)).less(fraction(1, 10)),
    ensures
        ({
            let next = bw.updated(now, m);
            let qnorm = queueing(m.srtt_ms, m.minrtt_ms);
            let b = bw.starting_point(m.rttvar_ms, m.minrtt_ms);
            let dt = seconds(span(bw.last_update, now));
            &&& !clean(qnorm, m.loss_rate) && !uncongested(qnorm, m.loss_rate)
                ==> next.b_hat.at_most(b.larger(next.throughput))
            &&& within(b)
            &&& settled(dt)
            &&& next.throughput.plain()
            &&& next.throughput.low() <= ceiling_bps().low()
        }),
{
    lemma_patterns();
    lemma_order(bw.throughput, ceiling_bps());
    let nanos = span(bw.last_update, now);
    lemma_seconds(nanos);
    let dt = seconds(nanos);
    lemma_smoothed(bw, dt, m.tx_bytes);
    lemma_start(bw, m.rttvar_ms, m.minrtt_ms);
    lemma_queueing(m.srtt_ms, m.minrtt_ms);
    lemma_adjusted(
        bw.starting_point(m.rttvar_ms, m.minrtt_ms),
        bw.smoothed_throughput(dt, m.tx_bytes),
        dt,
        queueing(m.srtt_ms, m.minrtt_ms),
        m.loss_rate,
    );
}

/// In a clean window the estimate grows by no more than a tenth in a second, but for a
/// rounding error of less than one part in 2^50.
pub proof fn law_growth_is_a_tenth_per_second(bw: Bandwidth, now: int, m: Measurement)
    requires
        bounded(bw),
        !seconds(span(bw.last_update, now)).less(fraction(1, 10)),
        clean(queueing(m.srtt_ms, m.minrtt_ms), m.loss_rate),
    ensures
        ({
            let limit = growth_limit(
                bw.starting_point(m.rttvar_ms, m.minrtt_ms),
                seconds(span(bw.last_update, now)),
            );
            0x4_0000_0000_0000 * bw.updated(now, m).b_hat.value() <= 0x4_0000_0000_0001
                * limit.value()
        }),
{
    lemma_window(bw, now, m);
    let b = bw.starting_point(m.rttvar_ms, m.minrtt_ms);
    let dt = seconds(span(bw.last_update, now));
    let throughput = bw.updated(now, m).throughput;
    let limit = growth_limit(b, dt);
    let target = throughput.prod(headroom()).smaller(limit);
    lemma_within(b);
    lemma_target(b, throughput, dt);
    lemma_mag_order(b, limit);
    lemma_mag_order(target, limit);
    lemma_pow2_pos(1074);
    if signed(false, 0).less(throughput) {
        lemma_growth(b, target, limit.mag());
        let raw = blended(b, target);
        lemma_whole_exact(1_000_000_000);
        lemma_whole_exact(5_000_000);
        lemma_order(raw, floor_bps());
        lemma_order(cap_bps(), raw);
    }
}

/// The two parts of a blend, neither of whose numbers is above `limit`.
proof fn lemma_growth_parts(b: F64, target: F64, limit: nat)
    requires
        within(b),
        target.plain(),
        b.mag() <= limit,
        target.mag() <= limit,
    ensures
        ({
            let (u, v) = (of_whole(1).diff(gamma()).prod(b), gamma().prod(target));
            &&& u.plain()
            &&& v.plain()
            &&& u.low() <= b.low()
            &&& v.low() <= target.low()
            &&& u.mag() >= 0x10_0000_0000_0000
            &&& 0x1000_0000_0000_0000_0000_0000_0000 * (u.mag() + v.mag())
                <= 0x1000_0000_0000_00c0_0000_0000_0002 * limit
                + 0x1000_0000_0000_0000_0000_0000_0000
        }),
{
    lemma_double();
    lemma_patterns();
    lemma_tenths();
    lemma_four_fifths();
    lemma_within(b);
    lemma_pow2_pos(1019);
    lemma_pow2_adds(2, 1019);
    lemma2_to64();
    let keep = of_whole(1).diff(gamma());
    let (u, v) = (keep.prod(b), gamma().prod(target));
    let w = pow2(1019);
    let c = one();
    lemma_share_of(keep, b);
    lemma_share_of(gamma(), target);
    lemma_prod_pattern(keep, b);
    lemma_prod_pattern(gamma(), target);
    lemma_error(double(), keep.mag() * b.mag(), c);
    lemma_error(double(), gamma().mag() * target.mag(), c);
    let (k, g) = (keep.mag(), gamma().mag());
    let (x, y) = (u.mag(), v.mag());
    assert(k * b.mag() >= 0x10_0000_0000_0000 * c) by (nonlinear_arith)
        requires
            b.mag() >= 5_000_000 * c,
            5 * k >= 4 * c,
            c >= 0x10_0000_0000_0000,
    ;
    assert((x * c) * 0x20_0000_0000_0000 <= (k * limit) * 0x20_0000_0000_0001) by (nonlinear_arith)
        requires
            x * c <= k * b.mag() || 2 * 0x10_0000_0000_0000 * (x * c - k * b.mag()) <= k * b.mag(),
            b.mag() <= limit,
    ;
    assert((y * c) * 0x20_0000_0000_0000 <= (g * limit) * 0x20_0000_0000_0001 + c
        * 0x20_0000_0000_0000) by (nonlinear_arith)
        requires
            y * c <= g * target.mag() || 2 * 0x10_0000_0000_0000 * (y * c - g * target.mag()) <= g
                * target.mag() || 2 * (y * c - g * target.mag()) <= c,
            target.mag() <= limit,
    ;
    assert(k + g == 0x80_0000_0000_0002 * w);
    assert(c == 0x80_0000_0000_0000 * w);
    assert((0x1000_0000_0000_0000_0000_0000_0000 * (x + y)) * w
        <= (0x1000_0000_0000_00c0_0000_0000_0002 * limit + 0x1000_0000_0000_0000_0000_0000_0000) * w)
        by (nonlinear_arith)
        requires
            (x * c) * 0x20_0000_0000_0000 <= (k * limit) * 0x20_0000_0000_0001,
            (y * c) * 0x20_0000_0000_0000 <= (g * limit) * 0x20_0000_0000_0001 + c
                * 0x20_0000_0000_0000,
            k + g == 0x80_0000_0000_0002 * w,
            c == 0x80_0000_0000_0000 * w,
            limit >= 0,
            w > 0,
    ;
    let (p, q) = (
        0x1000_0000_0000_0000_0000_0000_0000 * (x + y),
        0x1000_0000_0000_00c0_0000_0000_0002 * limit + 0x1000_0000_0000_0000_0000_0000_0000,
    );
    assert(p <= q) by (nonlinear_arith)
        requires
            p * w <= q * w,
            w > 0,
    ;
    let e = Exact::Ratio { p: k * b.mag(), q: c };
    lemma_magnitude_of_digits(double(), 0, 0x10_0000_0000_0000);
    assert(2 * (k * b.mag()) >= (2 * 0x10_0000_0000_0000) * c);
    lemma_nearest_at_least(double(), e, 0x10_0000_0000_0000);
    lemma_mag_order(signed(false, 0x10_0000_0000_0000), u);
}

/// Blending an estimate with a target, neither above `limit`.
proof fn lemma_growth(b: F64, target: F64, limit: nat)
    requires
        within(b),
        target.plain(),
        target.mag() <= 20 * big(),
        b.mag() <= limit,
        target.mag() <= limit,
    ensures
        blended(b, target).plain(),
        0x4_0000_0000_0000 * blended(b, target).mag() <= 0x4_0000_0000_0001 * limit,
{
    lemma_double();
    lemma_patterns();
    lemma_within(b);
    lemma_growth_parts(b, target, limit);
    let (u, v) = (of_whole(1).diff(gamma()).prod(b), gamma().prod(target));
    let s = u.mag() + v.mag();
    lemma_sum_pattern(u, v);
    lemma_mag_order(u, b);
    lemma_mag_order(v, target);
    lemma_units_at_most(s, 1091 * 0x10_0000_0000_0000 + 0x14_0000_0000_0000);
    lemma_units_error(s);
    assert(limit >= 0x10_0000_0000_0000) by {
        lemma_pow2_adds(52, 1022);
        lemma_pow2_pos(1022);
        lemma2_to64_rest();
    }
}

} // verus!
