//! What windows without congestion do to the bandwidth estimate, but for rounding.
use vstd::arithmetic::power2::{lemma2_to64_rest, lemma_pow2_adds, lemma_pow2_pos, pow2};
use vstd::prelude::*;

use crate::clock::span;
use crate::num::bounds::{lemma_order, lemma_prod_pattern};
use crate::num::close::{
    close, kept_within, least, lemma_close_kept, lemma_close_more, lemma_close_order,
    lemma_close_quotient, lemma_close_scale, lemma_close_sum, lemma_close_trans, lemma_diff_close,
    lemma_fraction_close, lemma_kept_scaled, lemma_large_one, lemma_part_close, lemma_prod_close,
    lemma_quot_close, lemma_sum_close, lemma_threshold, lemma_whole_close, lemma_zero_prod,
    lemma_zero_quot, most, parts,
};
use crate::num::double::{fraction, lemma_double, lemma_mag_order, of_whole, signed, F64};
use crate::num::exact::{lemma_whole_exact, one};
use crate::num::facts::lemma_zero_one;
use crate::num::format::{double, lemma_nearest, lemma_nearest_at_most, Exact};
use crate::stats::bandwidth::formula::{cap, counts, floor, lemma_clamped_value, lemma_counts};
use crate::stats::bandwidth::laws::{
    bounded, ceiling_bps, lemma_four_fifths, lemma_larger, lemma_patterns, lemma_queueing,
    lemma_seconds, lemma_window, lemma_within, within,
};
use crate::stats::bandwidth::{
    alpha_per_s, blended, clean, gamma, growth_limit, headroom, initial_bps, queueing, seconds,
    uncongested, Bandwidth, Measurement,
};

verus! {

/// Nanoseconds become seconds.
pub proof fn law_seconds_are_a_billion_nanoseconds(nanos: int)
    requires
        0 <= nanos < 1_000_000_000 * 0x1_0000_0000_0000_0000,
    ensures
        seconds(nanos).plain(),
        close(1_000_000_000 * seconds(nanos).value(), nanos * one(), 4),
{
    lemma_double();
    lemma_large_one();
    lemma_zero_one();
    let c = one() as int;
    let secs = (nanos / 1_000_000_000) as u64;
    let rest = (nanos % 1_000_000_000) as nat;
    assert(nanos == 1_000_000_000 * secs + rest);
    lemma_whole_close(secs);
    lemma_whole_exact(rest);
    lemma_whole_exact(1_000_000_000);
    let (a, b, g) = (of_whole(secs as nat), of_whole(rest), of_whole(1_000_000_000));
    let q = b.quot(g);
    let (x, y) = (a.mag() as int, q.mag() as int);
    lemma_close_scale(x, secs * c, 1, 1_000_000_000);
    let (s, r) = (1_000_000_000 * (secs * c), rest * c);
    assert(0 <= secs * c <= 0x1_0000_0000_0000_0000 * c && 0 <= rest * c <= 1_000_000_000 * c)
        by (nonlinear_arith)
        requires
            secs < 0x1_0000_0000_0000_0000,
            rest < 1_000_000_000,
            c >= 0,
    ;
    lemma_close_more(1_000_000_000 * x, s, 1, 2);
    if rest == 0 {
        lemma_zero_quot(b, g);
        assert(close(1_000_000_000 * y, r, 2)) by (nonlinear_arith)
            requires
                y == 0,
                r == rest * c,
                rest == 0,
        ;
    } else {
        assert(b.mag() * one() >= 0x10_0000_0000_0000 * g.mag()) by (nonlinear_arith)
            requires
                b.mag() == rest * one(),
                g.mag() == 1_000_000_000 * one(),
                rest >= 1,
                one() >= 0x1_0000_0000_0000_0000_0000_0000_0000_0000,
        ;
        lemma_quot_close(b, g);
        assert(y * g.mag() == (1_000_000_000 * y) * c) by (nonlinear_arith)
            requires
                g.mag() == 1_000_000_000 * c,
        ;
        assert(b.mag() * one() == r * c) by (nonlinear_arith)
            requires
                b.mag() == rest * one(),
                c == one(),
                r == rest * c,
        ;
        lemma_close_scale(1_000_000_000 * y, r, 1, c);
        lemma_close_more(1_000_000_000 * y, r, 1, 2);
    }
    lemma_close_sum(1_000_000_000 * x, s, 1_000_000_000 * y, r, 2);
    assert(nanos * c == s + r) by (nonlinear_arith)
        requires
            nanos == 1_000_000_000 * secs + rest,
            s == 1_000_000_000 * (secs * c),
            r == rest * c,
    ;
    lemma_sum_close(a, q);
    let t = seconds(nanos).mag() as int;
    lemma_close_scale(t, x + y, 1, 1_000_000_000);
    lemma_close_trans(1_000_000_000 * t, 1_000_000_000 * (x + y), 1, nanos * c, 2);
}

/// The bytes sent since the last update.
pub open spec fn fresh_bytes(bw: Bandwidth, tx_bytes: u64) -> int {
    most(tx_bytes - bw.last_tx_bytes, 0)
}

/// The throughput since the last update is the number of bytes over the time.
pub proof fn law_throughput_is_bytes_over_time(bw: Bandwidth, now: int, tx_bytes: u64)
    requires
        counts(bw, now),
    ensures
        ({
            let nanos = span(bw.last_update, now);
            let t = bw.instant_throughput(seconds(nanos), tx_bytes);
            &&& t.plain()
            &&& fresh_bytes(bw, tx_bytes) == 0 ==> t.mag() == 0
            &&& fresh_bytes(bw, tx_bytes) > 0 ==> 0x4_0000_0000_0000_0000 * t.mag() >= one()
            &&& t.mag() <= 0x100_0000_0000_0000_0000 * one()
            &&& close(
                t.value() * nanos,
                (1_000_000_000 * fresh_bytes(bw, tx_bytes)) * one(),
                8,
            )
        }),
{
    lemma_double();
    lemma_large_one();
    lemma_zero_one();
    lemma_counts(bw, now);
    let nanos = span(bw.last_update, now);
    law_seconds_are_a_billion_nanoseconds(nanos);
    let c = one() as int;
    let n = fresh_bytes(bw, tx_bytes);
    let dt = seconds(nanos);
    lemma_seconds(nanos);
    lemma_whole_close(n as u64);
    let b = of_whole(n as nat);
    let t = b.quot(dt);
    let (d, x) = (dt.mag() as int, b.mag() as int);
    lemma_mag_order(dt, signed(false, 0));
    assert(nanos * c >= 100_000_000 * c && nanos * c <= (1_000_000_000 * 0x1_0000_0000_0000_0000)
        * c) by (nonlinear_arith)
        requires
            100_000_000 <= nanos < 1_000_000_000 * 0x1_0000_0000_0000_0000,
            c >= 0,
    ;
    assert(11 * d >= c && d <= 0x2_0000_0000_0000_0000 * c);
    lemma_order(signed(false, 0), dt);
    assert(bw.instant_throughput(dt, tx_bytes) == t);
    if n == 0 {
        lemma_zero_quot(b, dt);
        assert(0 * nanos == 0 && (1_000_000_000 * 0) * c == 0) by (nonlinear_arith);
    } else {
        assert(n * c >= c && n * c <= 0x1_0000_0000_0000_0000 * c) by (nonlinear_arith)
            requires
                1 <= n < 0x1_0000_0000_0000_0000,
                c >= 0,
        ;
        let m = pow2(2000) as int;
        assert(x * c >= 0x10_0000_0000_0000 * d && x * c <= m * d) by (nonlinear_arith)
            requires
                2 * x >= c,
                x <= 0x2_0000_0000_0000_0000 * c,
                11 * d >= c,
                d <= 0x2_0000_0000_0000_0000 * c,
                c >= 0x1_0000_0000_0000_0000_0000_0000_0000_0000,
                m >= 0x1_0000_0000_0000_0000_0000_0000_0000_0000_0000_0000_0000_0000 * c,
        ;
        lemma_quot_close(b, dt);
        let r = t.mag() as int;
        let w = n * c;
        lemma_close_scale(x, w, 1, c);
        assert(x * c >= 0 && w * c >= 0 && r * d >= 0) by (nonlinear_arith)
            requires
                x >= 0,
                w >= 0,
                c >= 0,
                r >= 0,
                d >= 0,
        ;
        lemma_close_trans(r * d, x * c, 1, w * c, 1);
        lemma_close_quotient(r * d, w * c, 3, 1_000_000_000 * d, nanos * c, 4);
        let e = d * c;
        assert(e > 0 && (r * d) * (nanos * c) == (r * nanos) * e && (w * c) * (1_000_000_000 * d)
            == ((1_000_000_000 * n) * c) * e) by (nonlinear_arith)
            requires
                e == d * c,
                d > 0,
                c > 0,
                w == n * c,
        ;
        lemma_close_scale(r * nanos, (1_000_000_000 * n) * c, 8, e);
        // the size of the quotient
        let p = r * d;
        assert(2 * p >= w * c && p <= 2 * (w * c));
        assert(0x4_0000_0000_0000_0000 * r >= c) by (nonlinear_arith)
            requires
                2 * p >= w * c,
                p == r * d,
                w >= c,
                d <= 0x2_0000_0000_0000_0000 * c,
                c > 0,
                r >= 0,
        {
            assert(2 * (r * d) >= c * c);
            assert(r * d <= r * (0x2_0000_0000_0000_0000 * c));
            assert((0x4_0000_0000_0000_0000 * r) * c >= c * c);
        }
        assert(r <= 0x100_0000_0000_0000_0000 * c) by (nonlinear_arith)
            requires
                p <= 2 * (w * c),
                p == r * d,
                w <= 0x1_0000_0000_0000_0000 * c,
                11 * d >= c,
                c > 0,
                r >= 0,
        {
            assert(11 * (r * d) >= r * c);
            assert(w * c <= (0x1_0000_0000_0000_0000 * c) * c);
            assert(r * c <= (22 * 0x1_0000_0000_0000_0000 * c) * c);
        }
    }
}

/// The smoothed throughput takes three tenths from the new throughput and seven tenths from the
/// old one; without an old one, it is the new one.
pub proof fn law_throughput_is_smoothed(bw: Bandwidth, now: int, m: Measurement)
    requires
        bounded(bw),
        counts(bw, now),
    ensures
        ({
            let nanos = span(bw.last_update, now);
            let fresh = (1_000_000_000 * fresh_bytes(bw, m.tx_bytes)) * one();
            let next = bw.updated(now, m).throughput;
            let old = bw.throughput;
            &&& old.mag() == 0 ==> close(next.value() * nanos, fresh, 8)
            &&& old.mag() >= 0x1000_0000_0000_0000 ==> close(
                (10 * next.value()) * nanos,
                3 * fresh + (7 * old.value()) * nanos,
                16,
            )
        }),
{
    lemma_double();
    lemma_large_one();
    lemma_patterns();
    lemma_counts(bw, now);
    let nanos = span(bw.last_update, now);
    let dt = seconds(nanos);
    law_throughput_is_bytes_over_time(bw, now, m.tx_bytes);
    let c = one() as int;
    let n = fresh_bytes(bw, m.tx_bytes);
    let fresh = (1_000_000_000 * n) * c;
    let t = bw.instant_throughput(dt, m.tx_bytes);
    let old = bw.throughput;
    lemma_order(old, ceiling_bps());
    lemma_mag_order(old, ceiling_bps());
    lemma_mag_order(old, signed(false, 0));
    if old.mag() >= 0x1000_0000_0000_0000 {
        let (u, v) = (fraction(3, 10).prod(t), fraction(7, 10).prod(old));
        lemma_part_close(7, 10, old);
        let x = t.mag() as int;
        if n == 0 {
            lemma_fraction_close(3, 10);
            lemma_zero_prod(fraction(3, 10), t);
            assert(close(10 * u.value(), 3 * x, 3));
        } else {
            lemma_part_close(3, 10, t);
        }
        let y = 7 * old.mag();
        lemma_close_sum(10 * u.value(), 3 * x, 10 * v.value(), y as int, 3);
        assert(u.mag() + v.mag() <= 0x1_0000_0000_0000_0000_0000_0000_0000 * c);
        lemma_sum_close(u, v);
        let s = u.sum(v);
        let (z, w) = (s.mag() as int, (u.mag() + v.mag()) as int);
        lemma_close_scale(z, w, 1, 10);
        lemma_close_trans(10 * z, 10 * w, 1, 3 * x + y, 3);
        lemma_close_scale(10 * z, 3 * x + y, 5, nanos);
        lemma_close_scale(x * nanos, fresh, 8, 3);
        let p = y * nanos;
        assert(fresh >= 0 && p >= 0 && x * nanos >= 0) by (nonlinear_arith)
            requires
                fresh == (1_000_000_000 * n) * c,
                n >= 0,
                c >= 0,
                p == y * nanos,
                y >= 0,
                nanos >= 0,
                x >= 0,
        ;
        lemma_close_sum(3 * (x * nanos), 3 * fresh, p, p, 8);
        assert((3 * x + y) * nanos == 3 * (x * nanos) + p) by (nonlinear_arith)
            requires
                p == y * nanos,
        ;
        lemma_close_trans((10 * z) * nanos, (3 * x + y) * nanos, 5, 3 * fresh + p, 8);
        lemma_close_more((10 * z) * nanos, 3 * fresh + p, 14, 16);
        lemma_order(signed(false, 0), old);
        assert(bw.updated(now, m).throughput == s);
    } else if old.mag() == 0 {
        lemma_order(signed(false, 0), old);
        assert(bw.updated(now, m).throughput == t);
    }
}

/// The distance of two numbers.
proof fn lemma_distance(a: F64, b: F64)
    requires
        a.plain(),
        b.plain(),
    ensures
        ({
            let d = a.diff(b).magnitude_of();
            &&& d.plain()
            &&& close(d.value(), most(a.value() - b.value(), b.value() - a.value()), 1)
        }),
{
    lemma_double();
    if b.mag() <= a.mag() {
        lemma_diff_close(a, b);
    } else {
        lemma_diff_close(b, a);
        lemma_mag_order(a, signed(false, 0));
        lemma_mag_order(b, signed(false, 0));
        let p = (b.mag() - a.mag()) as nat;
        lemma_nearest(double(), Exact::Ratio { p, q: 1 });
        assert(a.value() + b.negated().value() == -(p as int));
        assert(a.diff(b).low() == b.diff(a).low());
    }
}

/// A path counts as another one where its smallest round trip has moved by more than three times
/// the variation and by more than twenty milliseconds; the update then starts halfway to a new
/// connection's estimate, and from the old estimate otherwise. At the limit, rounding decides.
pub proof fn law_another_path_starts_halfway(bw: Bandwidth, rttvar_ms: F64, minrtt_ms: F64)
    requires
        within(bw.b_hat),
        bw.last_minrtt_ms.plain(),
        minrtt_ms.plain(),
        rttvar_ms.plain(),
        rttvar_ms.mag() <= 0x1_0000_0000_0000_0000 * one(),
    ensures
        ({
            let c = one() as int;
            let (last, new) = (bw.last_minrtt_ms.value(), minrtt_ms.value());
            let moved = most(new - last, last - new);
            let limit = most(3 * rttvar_ms.value(), 20 * c);
            let start = bw.starting_point(rttvar_ms, minrtt_ms);
            &&& last > 0 && parts() * moved >= (parts() + 8) * limit ==> close(
                2 * start.value(),
                30_000_000 * c + bw.b_hat.value(),
                3,
            )
            &&& last == 0 || parts() * moved <= (parts() - 8) * limit ==> start == bw.b_hat
            &&& start == bw.b_hat || close(
                2 * start.value(),
                30_000_000 * c + bw.b_hat.value(),
                3,
            )
        }),
{
    lemma_double();
    lemma_large_one();
    lemma_zero_one();
    let u = parts();
    let c = one() as int;
    lemma_distance(minrtt_ms, bw.last_minrtt_ms);
    let jump = minrtt_ms.diff(bw.last_minrtt_ms).magnitude_of();
    let (last, new) = (bw.last_minrtt_ms.value(), minrtt_ms.value());
    let moved = most(new - last, last - new);
    let limit = most(3 * rttvar_ms.value(), 20 * c);
    lemma_whole_exact(3);
    lemma_whole_exact(20);
    lemma_whole_exact(2);
    lemma_whole_exact(30_000_000);
    let t = of_whole(3).prod(rttvar_ms);
    let w20 = of_whole(20);
    let v = rttvar_ms.mag() as int;
    lemma_prod_pattern(of_whole(3), rttvar_ms);
    if 3 * v <= 20 * c {
        assert(2 * ((3 * c) * v) <= (2 * (20 * c)) * c) by (nonlinear_arith)
            requires
                3 * v <= 20 * c,
                c >= 0,
        ;
        lemma_nearest_at_most(
            double(),
            Exact::Ratio { p: of_whole(3).mag() * rttvar_ms.mag(), q: one() },
            w20.low(),
        );
    } else {
        let big = pow2(2000) as int;
        assert((3 * c) * v >= 0x10_0000_0000_0000 * c && (3 * c) * v <= big * c) by (nonlinear_arith)
            requires
                3 * v >= 20 * c,
                v <= 0x1_0000_0000_0000_0000 * c,
                c >= 0x1_0000_0000_0000_0000_0000_0000_0000_0000,
                big >= 0x1_0000_0000_0000_0000_0000_0000_0000_0000_0000_0000_0000_0000 * c,
        {
            assert((3 * c) * v <= (3 * c) * (0x1_0000_0000_0000_0000 * c));
        }
        lemma_prod_close(of_whole(3), rttvar_ms);
        assert((3 * c) * v == (3 * v) * c) by (nonlinear_arith);
        lemma_close_scale(t.mag() as int, 3 * v, 1, c);
        lemma_close_order(t.mag() as int, 3 * v, 20 * c, 20 * c, 1);
    }
    lemma_larger(t, w20);
    let threshold = t.larger(w20);
    lemma_mag_order(t, w20);
    lemma_mag_order(w20, t);
    assert(close(threshold.value(), limit, 1));
    lemma_order(threshold, jump);
    lemma_mag_order(threshold, jump);
    lemma_mag_order(jump, threshold);
    lemma_mag_order(bw.last_minrtt_ms, signed(false, 0));
    lemma_within(bw.b_hat);
    let b = bw.b_hat.mag() as int;
    let s = initial_bps().sum(bw.b_hat);
    lemma_sum_close(initial_bps(), bw.b_hat);
    let x = s.mag() as int;
    assert(x * c >= 0x10_0000_0000_0000 * (2 * c)) by (nonlinear_arith)
        requires
            x >= 0x100_0000_0000_0000,
            c >= 0,
    ;
    lemma_quot_close(s, of_whole(2));
    let r = s.quot(of_whole(2)).mag() as int;
    assert(r * (2 * c) == (2 * r) * c) by (nonlinear_arith);
    lemma_close_scale(2 * r, x, 1, c);
    lemma_close_trans(2 * r, x, 1, 30_000_000 * c + b, 1);
}

/// A blend is four fifths of the estimate and a fifth of the target.
proof fn lemma_blended_close(b: F64, target: F64)
    requires
        within(b),
        target.plain(),
        0x1000_0000_0000_0000 <= target.mag() <= 0x100_0000_0000_0000_0000 * one(),
    ensures
        blended(b, target).plain(),
        close(5 * blended(b, target).value(), 4 * b.value() + target.value(), 5),
{
    lemma_double();
    lemma_large_one();
    lemma_within(b);
    lemma_four_fifths();
    lemma_pow2_pos(1021);
    lemma_pow2_adds(53, 1021);
    lemma2_to64_rest();
    let c = one() as int;
    let keep = of_whole(1).diff(gamma());
    let (k, m) = (keep.mag() as int, b.mag() as int);
    let w = pow2(1021) as int;
    assert(c == 0x20_0000_0000_0000 * w);
    assert(5 * k == 4 * c + 2 * w);
    assert(close(5 * k, 4 * c, 1));
    let big = pow2(2000) as int;
    assert(k * m >= 0x10_0000_0000_0000 * c && k * m <= big * c) by (nonlinear_arith)
        requires
            2 * k >= c,
            k <= c,
            5_000_000 * c <= m <= 1_000_000_000 * c,
            c >= 0x1_0000_0000_0000_0000_0000_0000_0000_0000,
            big >= 0x1_0000_0000_0000_0000_0000_0000_0000_0000_0000_0000_0000_0000 * c,
    {
        assert(k * m <= c * m);
        assert(c * m <= c * (1_000_000_000 * c));
        assert(2 * (k * m) >= c * m);
        assert(c * m >= c * (5_000_000 * c));
    }
    lemma_prod_close(keep, b);
    let u = keep.prod(b);
    let r = u.mag() as int;
    lemma_close_scale(r * c, k * m, 1, 5);
    lemma_close_scale(5 * k, 4 * c, 1, m);
    assert(m * (5 * k) == 5 * (k * m) && m * (4 * c) == (4 * m) * c && 5 * (r * c) == (5 * r) * c)
        by (nonlinear_arith);
    assert((4 * m) * c >= 0 && k * m >= 0) by (nonlinear_arith)
        requires
            m >= 0,
            c >= 0,
            k >= 0,
    ;
    lemma_close_trans((5 * r) * c, 5 * (k * m), 1, (4 * m) * c, 1);
    lemma_close_scale(5 * r, 4 * m, 3, c);
    lemma_part_close(1, 5, target);
    let v = gamma().prod(target);
    let t = target.mag() as int;
    lemma_close_sum(5 * r, 4 * m, 5 * v.value(), t, 3);
    lemma_sum_close(u, v);
    let s = blended(b, target).mag() as int;
    let z = (u.mag() + v.mag()) as int;
    lemma_close_scale(s, z, 1, 5);
    lemma_close_trans(5 * s, 5 * z, 1, 4 * m + t, 3);
}

/// In a window that is neither clean nor congested, the estimate moves by a fifth of the way to
/// the throughput where that is above it, and otherwise stays.
pub proof fn law_neutral_windows_follow_the_throughput(bw: Bandwidth, now: int, m: Measurement)
    requires
        bounded(bw),
        counts(bw, now),
        m.loss_rate.plain(),
        ({
            let c = one() as int;
            let q = queueing(m.srtt_ms, m.minrtt_ms).value();
            let loss = m.loss_rate.value();
            &&& parts() * (20 * q) >= (parts() + 2) * c || parts() * (500 * loss) >= (parts() + 2) * c
            &&& parts() * (5 * q) <= (parts() - 2) * c
            &&& parts() * (100 * loss) <= (parts() - 2) * c
        }),
    ensures
        ({
            let next = bw.updated(now, m);
            let b = bw.starting_point(m.rttvar_ms, m.minrtt_ms).value();
            close(
                5 * next.b_hat.value(),
                kept_within(4 * b + most(b, next.throughput.value()), 5 * floor(), 5 * cap()),
                5,
            )
        }),
{
    lemma_large_one();
    lemma_patterns();
    lemma_counts(bw, now);
    lemma_window(bw, now, m);
    let q = queueing(m.srtt_ms, m.minrtt_ms);
    lemma_queueing(m.srtt_ms, m.minrtt_ms);
    lemma_threshold(q, 1, 5);
    lemma_threshold(q, 1, 20);
    lemma_threshold(m.loss_rate, 1, 100);
    lemma_threshold(m.loss_rate, 1, 500);
    assert(!clean(q, m.loss_rate) && uncongested(q, m.loss_rate));
    let b = bw.starting_point(m.rttvar_ms, m.minrtt_ms);
    let thr = bw.updated(now, m).throughput;
    lemma_within(b);
    lemma_larger(b, thr);
    lemma_mag_order(b, thr);
    lemma_mag_order(thr, b);
    lemma_mag_order(thr, ceiling_bps());
    let target = b.larger(thr);
    lemma_blended_close(b, target);
    let raw = blended(b, target);
    lemma_clamped_value(raw);
    lemma_close_kept(
        5 * raw.value(),
        4 * b.value() + target.value(),
        5,
        5 * floor(),
        5 * cap(),
    );
    lemma_kept_scaled(raw.value(), floor(), cap(), 5);
}

/// The limit on growth: a tenth in a second.
proof fn lemma_growth_close(b: F64, dt: F64)
    requires
        within(b),
        dt.plain(),
        one() <= 11 * dt.mag(),
        dt.mag() <= 0x2_0000_0000_0000_0000 * one(),
    ensures
        growth_limit(b, dt).plain(),
        growth_limit(b, dt).mag() >= one(),
        growth_limit(b, dt).mag() <= 0x1_0000_0000_0000_0000_0000_0000_0000_0000 * one(),
        close(
            (10 * one()) * growth_limit(b, dt).value(),
            b.value() * (10 * one() + dt.value()),
            7,
        ),
{
    lemma_large_one();
    lemma_within(b);
    lemma_whole_exact(1);
    let c = one() as int;
    let d = dt.mag() as int;
    lemma_part_close(1, 10, dt);
    let r = alpha_per_s().prod(dt);
    let x = r.mag() as int;
    lemma_close_sum(10 * c, 10 * c, 10 * x, d, 3);
    lemma_sum_close(of_whole(1), r);
    let grow = of_whole(1).sum(r);
    let g = grow.mag() as int;
    lemma_close_scale(g, c + x, 1, 10);
    lemma_close_trans(10 * g, 10 * (c + x), 1, 10 * c + d, 3);
    let m = b.mag() as int;
    let big = pow2(2000) as int;
    assert(m * g >= 0x10_0000_0000_0000 * c && m * g <= big * c && m * g >= (2 * c) * c && m * g
        <= (0x1000_0000_0000_0000_0000_0000_0000_0000 * c) * c) by (nonlinear_arith)
        requires
            5_000_000 * c <= m <= 1_000_000_000 * c,
            2 * g >= c,
            g <= 0x4_0000_0000_0000_0000 * c,
            c >= 0x1_0000_0000_0000_0000_0000_0000_0000_0000,
            big >= 0x1_0000_0000_0000_0000_0000_0000_0000_0000_0000_0000_0000_0000 * c,
    {
        assert(m * g <= (1_000_000_000 * c) * g);
        assert((1_000_000_000 * c) * g <= (1_000_000_000 * c) * (0x4_0000_0000_0000_0000 * c));
        assert(m * g >= (5_000_000 * c) * g);
        assert((5_000_000 * c) * (2 * g) >= (5_000_000 * c) * c);
    }
    lemma_prod_close(b, grow);
    let l = growth_limit(b, dt).mag() as int;
    let z = 10 * c + d;
    assert(2 * (l * c) >= m * g && l * c <= 2 * (m * g));
    assert(l >= c && l <= 0x1_0000_0000_0000_0000_0000_0000_0000_0000 * c) by (nonlinear_arith)
        requires
            2 * (l * c) >= (2 * c) * c,
            l * c <= 2 * ((0x1000_0000_0000_0000_0000_0000_0000_0000 * c) * c),
            c > 0,
    ;
    lemma_close_scale(l * c, m * g, 1, 10);
    lemma_close_scale(10 * g, z, 5, m);
    assert(m * (10 * g) == 10 * (m * g) && 10 * (l * c) == (10 * c) * l) by (nonlinear_arith);
    assert(m * z >= 0 && m * g >= 0) by (nonlinear_arith)
        requires
            m >= 0,
            z >= 0,
            g >= 0,
    ;
    lemma_close_trans((10 * c) * l, 10 * (m * g), 1, m * z, 5);
}

/// In a clean window with traffic, the estimate moves by a fifth of the way to a tenth above the
/// throughput, or to a tenth a second above itself, whichever is less; without traffic it stays.
pub proof fn law_clean_windows_aim_above_the_throughput(bw: Bandwidth, now: int, m: Measurement)
    requires
        bounded(bw),
        counts(bw, now),
        m.loss_rate.plain(),
        20 * queueing(m.srtt_ms, m.minrtt_ms).value() <= one(),
        500 * m.loss_rate.value() <= one(),
    ensures
        ({
            let c = one() as int;
            let next = bw.updated(now, m);
            let start = bw.starting_point(m.rttvar_ms, m.minrtt_ms);
            let (b, thr) = (start.value(), next.throughput.value());
            let dt = seconds(span(bw.last_update, now)).value();
            &&& thr == 0 ==> next.b_hat == start
            &&& thr >= 0x1000_0000_0000_0000 ==> close(
                (50 * c) * next.b_hat.value(),
                kept_within(
                    (40 * c) * b + least((11 * c) * thr, b * (10 * c + dt)),
                    (50 * c) * floor(),
                    (50 * c) * cap(),
                ),
                13,
            )
        }),
{
    lemma_large_one();
    lemma_patterns();
    lemma_counts(bw, now);
    lemma_window(bw, now, m);
    let q = queueing(m.srtt_ms, m.minrtt_ms);
    lemma_queueing(m.srtt_ms, m.minrtt_ms);
    lemma_threshold(q, 1, 20);
    lemma_threshold(m.loss_rate, 1, 500);
    assert(clean(q, m.loss_rate));
    let c = one() as int;
    let start = bw.starting_point(m.rttvar_ms, m.minrtt_ms);
    let throughput = bw.updated(now, m).throughput;
    let nanos = span(bw.last_update, now);
    let dt = seconds(nanos);
    let (b, thr) = (start.value(), throughput.value());
    lemma_within(start);
    lemma_order(signed(false, 0), throughput);
    lemma_mag_order(throughput, signed(false, 0));
    lemma_mag_order(throughput, ceiling_bps());
    if thr >= 0x1000_0000_0000_0000 {
        law_seconds_are_a_billion_nanoseconds(nanos);
        assert(nanos * c >= 100_000_000 * c && nanos * c <= (1_000_000_000
            * 0x1_0000_0000_0000_0000) * c) by (nonlinear_arith)
            requires
                100_000_000 <= nanos < 1_000_000_000 * 0x1_0000_0000_0000_0000,
                c >= 0,
        ;
        lemma_growth_close(start, dt);
        lemma_part_close(11, 10, throughput);
        let up = throughput.prod(headroom());
        let limit = growth_limit(start, dt);
        let (x, l) = (up.value(), limit.value());
        let y = b * (10 * c + dt.value());
        lemma_close_scale(10 * x, 11 * thr, 3, c);
        assert((10 * x) * c == (10 * c) * x && (11 * thr) * c == (11 * c) * thr) by (nonlinear_arith);
        assert((11 * c) * thr >= 0 && y >= 0) by (nonlinear_arith)
            requires
                c >= 0,
                thr >= 0,
                y == b * (10 * c + dt.value()),
                b >= 0,
                dt.value() >= 0,
        ;
        lemma_close_more((10 * c) * x, (11 * c) * thr, 3, 7);
        lemma_close_order((10 * c) * x, (11 * c) * thr, (10 * c) * l, y, 7);
        lemma_larger(up, limit);
        lemma_mag_order(up, limit);
        lemma_mag_order(limit, up);
        let target = up.smaller(limit);
        let t = target.value();
        assert((10 * c) * t == least((10 * c) * x, (10 * c) * l)) by (nonlinear_arith)
            requires
                t == least(x, l),
                c > 0,
        ;
        lemma_blended_close(start, target);
        let raw = blended(start, target);
        let r = raw.value();
        lemma_close_scale(5 * r, 4 * b + t, 5, 10 * c);
        let (p, w) = ((40 * c) * b, least((11 * c) * thr, y));
        assert((10 * c) * (5 * r) == (50 * c) * r && (10 * c) * (4 * b + t) == p + (10 * c) * t)
            by (nonlinear_arith)
            requires
                p == (40 * c) * b,
        ;
        assert(p >= 0 && (10 * c) * t >= 0) by (nonlinear_arith)
            requires
                p == (40 * c) * b,
                b >= 0,
                c >= 0,
                t >= 0,
        ;
        lemma_close_sum(p, p, (10 * c) * t, w, 7);
        lemma_close_trans((50 * c) * r, p + (10 * c) * t, 5, p + w, 7);
        let (lo, hi) = ((50 * c) * floor(), (50 * c) * cap());
        assert(0 <= lo <= hi) by (nonlinear_arith)
            requires
                lo == (50 * c) * (5_000_000 * c),
                hi == (50 * c) * (1_000_000_000 * c),
                c >= 0,
        ;
        lemma_close_kept((50 * c) * r, p + w, 13, lo, hi);
        lemma_clamped_value(raw);
        lemma_kept_scaled(r, floor(), cap(), 50 * c);
    }
}

/// A new estimator starts at thirty million bytes a second, with nothing measured.
pub proof fn law_new_estimators_know_nothing(now: int)
    ensures
        ({
            let bw = Bandwidth::initial(now);
            &&& bw.b_hat.value() == 30_000_000 * one()
            &&& bw.throughput.value() == 0
            &&& bw.last_minrtt_ms.value() == 0
            &&& bw.last_tx_bytes == 0
            &&& bw.last_update == now
        }),
{
    lemma_whole_exact(30_000_000);
    lemma_zero_one();
}

/// A measurement that counts is remembered.
pub proof fn law_measurements_are_remembered(bw: Bandwidth, now: int, m: Measurement)
    requires
        counts(bw, now),
    ensures
        bw.updated(now, m).last_minrtt_ms == m.minrtt_ms,
        bw.updated(now, m).last_tx_bytes == m.tx_bytes,
        bw.updated(now, m).last_update == now,
{
    lemma_counts(bw, now);
}

} // verus!
