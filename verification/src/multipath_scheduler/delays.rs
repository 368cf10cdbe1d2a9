//! What the delays and the room of a path come to, but for rounding.
use vstd::arithmetic::power2::pow2;
use vstd::prelude::*;

use crate::multipath_scheduler::plan::headroom_ratio;
use crate::multipath_scheduler::PathSnapshot;
use crate::num::bounds::{lemma_error, lemma_order, lemma_quot_pattern, lemma_units_at_most};
use crate::num::close::{
    close, lemma_close_more, lemma_close_scale, lemma_close_sum, lemma_close_trans,
    lemma_diff_below, lemma_diff_close, lemma_fraction_close, lemma_large_one, lemma_part_close,
    lemma_prod_close, lemma_quot_close, lemma_sum_close, lemma_whole_close, lemma_zero_prod,
    lemma_zero_quot, most, parts,
};
use crate::num::double::{fraction, lemma_double, lemma_mag_order, of_whole, signed, F64};
use crate::num::exact::{lemma_whole_exact, one};
use crate::num::facts::{lemma_quot_at_most_one, lemma_zero_one};
use crate::num::format::double;

verus! {

/// A number from 2^-64 to 2^64.
pub open spec fn common(x: F64) -> bool {
    &&& x.plain()
    &&& one() <= 0x1_0000_0000_0000_0000 * x.mag()
    &&& x.mag() <= 0x1_0000_0000_0000_0000 * one()
}

/// Zero, or a number up to 2^64 that is far from the smallest that the format holds.
pub open spec fn moderate(x: F64) -> bool {
    &&& x.plain()
    &&& x.mag() == 0 || x.mag()
        >= 0x1_0000_0000_0000_0000_0000_0000_0000_0000_0000_0000_0000_0000
    &&& x.mag() <= 0x1_0000_0000_0000_0000 * one()
}

/// The time that `n` bytes take at a bandwidth, in milliseconds.
proof fn lemma_time_close(n: u64, bw: F64)
    requires
        common(bw),
    ensures
        ({
            let t = of_whole(n as nat).quot(bw).prod(of_whole(1000));
            &&& t.plain()
            &&& t.mag() <= 0x1_0000_0000_0000_0000_0000_0000_0000_0000_0000 * one()
            &&& close(t.value() * bw.value(), ((1000 * n) * one()) * one(), 5)
        }),
{
    lemma_double();
    lemma_large_one();
    lemma_zero_one();
    lemma_whole_close(n);
    lemma_whole_exact(1000);
    lemma_mag_order(bw, signed(false, 0));
    let c = one() as int;
    let b = of_whole(n as nat);
    let (x, w) = (b.mag() as int, bw.mag() as int);
    let q = b.quot(bw);
    let t = q.prod(of_whole(1000));
    if n == 0 {
        lemma_whole_exact(0);
        lemma_zero_quot(b, bw);
        lemma_zero_times(q, of_whole(1000));
        assert(0 * w == 0 && ((1000 * 0) * c) * c == 0) by (nonlinear_arith);
    } else {
        let y = n * c;
        assert(y >= c && y <= 0x1_0000_0000_0000_0000 * c) by (nonlinear_arith)
            requires
                y == n * c,
                1 <= n < 0x1_0000_0000_0000_0000,
                c >= 0,
        ;
        let big = pow2(2000) as int;
        assert(x * c >= 0x10_0000_0000_0000 * w && x * c <= big * w) by (nonlinear_arith)
            requires
                2 * x >= c,
                x <= 0x2_0000_0000_0000_0000 * c,
                c <= 0x1_0000_0000_0000_0000 * w,
                w <= 0x1_0000_0000_0000_0000 * c,
                c >= 0x1_0000_0000_0000_0000_0000_0000_0000_0000,
                big >= 0x1_0000_0000_0000_0000_0000_0000_0000_0000_0000_0000_0000_0000 * c,
        {
            assert(2 * (x * c) >= c * c);
            assert(0x20_0000_0000_0000 * w <= c * c);
            assert(x * c <= (0x2_0000_0000_0000_0000 * c) * c);
            assert(big * w >= (0x1_0000_0000_0000_0000_0000_0000_0000_0000_0000_0000_0000_0000 * c)
                * w);
            assert((0x1_0000_0000_0000_0000 * w) * c >= c * c);
        }
        lemma_quot_close(b, bw);
        let r = q.mag() as int;
        lemma_close_scale(x, y, 1, c);
        assert(x * c >= 0 && y * c >= 0) by (nonlinear_arith)
            requires
                x >= 0,
                y >= 0,
                c >= 0,
        ;
        lemma_close_trans(r * w, x * c, 1, y * c, 1);
        // the size of the quotient
        let p = r * w;
        assert(2 * p >= y * c && p <= 2 * (y * c));
        assert(r >= 0x10_0000_0000_0000 && r <= 0x4_0000_0000_0000_0000_0000_0000_0000_0000 * c)
            by (nonlinear_arith)
            requires
                2 * p >= y * c,
                p <= 2 * (y * c),
                p == r * w,
                c <= y <= 0x1_0000_0000_0000_0000 * c,
                c <= 0x1_0000_0000_0000_0000 * w,
                0 < w <= 0x1_0000_0000_0000_0000 * c,
                c >= 0x1_0000_0000_0000_0000_0000_0000_0000_0000,
                r >= 0,
        {
            assert(y * c >= c * c);
            assert(r * w <= r * (0x1_0000_0000_0000_0000 * c));
            assert((0x2_0000_0000_0000_0000 * r) * c >= c * c);
            assert(y * c <= (0x1_0000_0000_0000_0000 * c) * c);
            assert(r * c <= r * (0x1_0000_0000_0000_0000 * w));
            assert(r * c <= (0x2_0000_0000_0000_0000_0000_0000_0000_0000 * c) * c);
        }
        assert(r * (1000 * c) >= 0x10_0000_0000_0000 * c && r * (1000 * c) <= big * c)
            by (nonlinear_arith)
            requires
                0x10_0000_0000_0000 <= r <= 0x4_0000_0000_0000_0000_0000_0000_0000_0000 * c,
                c > 0,
                big >= 0x1_0000_0000_0000_0000_0000_0000_0000_0000_0000_0000_0000_0000 * c,
        ;
        lemma_prod_close(q, of_whole(1000));
        let z = t.mag() as int;
        assert(r * (1000 * c) == (1000 * r) * c) by (nonlinear_arith);
        lemma_close_scale(z, 1000 * r, 1, c);
        lemma_close_scale(z, 1000 * r, 1, w);
        lemma_close_scale(r * w, y * c, 3, 1000);
        assert((1000 * r) * w == 1000 * (r * w) && 1000 * (y * c) == ((1000 * n) * c) * c)
            by (nonlinear_arith)
            requires
                y == n * c,
        ;
        lemma_close_trans(z * w, 1000 * (r * w), 1, 1000 * (y * c), 3);
    }
}

/// Nothing, times a number, is nothing.
pub proof fn lemma_zero_times(a: F64, b: F64)
    requires
        a.plain(),
        b.plain(),
        a.mag() == 0,
    ensures
        a.prod(b).plain(),
        a.prod(b).mag() == 0,
{
    lemma_zero_prod(b, a);
    assert(a.mag() * b.mag() == b.mag() * a.mag()) by (nonlinear_arith);
}

/// A path can be used if and only if it is active and its bandwidth is a number above nothing.
pub proof fn law_usable_paths_are_active_and_have_bandwidth(p: PathSnapshot)
    ensures
        p.usable() <==> p.active && !p.bw_est_bps.nan() && p.bw_est_bps.value() > 0,
{
    lemma_zero_one();
}

/// Without bandwidth, neither the queue nor the wire adds to the delay.
pub proof fn law_paths_without_bandwidth_add_no_delay(p: PathSnapshot, packet_len: nat)
    requires
        !p.bw_est_bps.nan(),
        p.bw_est_bps.value() <= 0,
    ensures
        p.queue_delay().value() == 0,
        p.serialization(packet_len).value() == 0,
{
    lemma_zero_one();
}

/// The queueing delay is the time, in milliseconds, that the bytes in flight take at the
/// bandwidth.
pub proof fn law_queueing_delay_is_bytes_over_bandwidth(p: PathSnapshot)
    requires
        common(p.bw_est_bps),
    ensures
        p.queue_delay().plain(),
        p.queue_delay().mag() <= 0x1_0000_0000_0000_0000_0000_0000_0000_0000_0000 * one(),
        close(
            p.queue_delay().value() * p.bw_est_bps.value(),
            ((1000 * p.inflight_bytes) * one()) * one(),
            5,
        ),
{
    lemma_large_one();
    lemma_order(p.bw_est_bps, p.bw_est_bps);
    lemma_mag_order(p.bw_est_bps, signed(false, 0));
    lemma_time_close(p.inflight_bytes as u64, p.bw_est_bps);
}

/// A sum with one more part.
proof fn lemma_sum_chain(a: F64, b: F64, n: int, k: int)
    requires
        a.plain(),
        b.plain(),
        n >= 0,
        0 <= k <= 100,
        close(a.value(), n, k),
        a.mag() <= 0x100_0000_0000_0000_0000_0000_0000_0000_0000_0000 * one(),
        b.mag() <= 0x1_0000_0000_0000_0000_0000_0000_0000_0000_0000 * one(),
    ensures
        a.sum(b).plain(),
        a.sum(b).mag() <= 2 * (a.mag() + b.mag()),
        close(a.sum(b).value(), n + b.value(), k + 2),
{
    lemma_large_one();
    lemma_sum_close(a, b);
    let (x, y) = (a.value(), b.value());
    assert(close(y, y, k)) by {
        assert(k * y >= 0) by (nonlinear_arith)
            requires
                k >= 0,
                y >= 0,
        ;
    }
    lemma_close_sum(x, n, y, y, k);
    lemma_close_trans(a.sum(b).value(), x + y, 1, n + y, k);
}

/// The sum of the parts of an arrival time.
proof fn lemma_arrival_sum(now: F64, n: int, q: F64, s: F64, half: F64, srtt: int)
    requires
        now.plain(),
        q.plain(),
        s.plain(),
        half.plain(),
        srtt >= 0,
        n >= 0,
        close(now.value(), n, 1),
        close(2 * half.value(), srtt, 3),
        now.mag() <= 0x1_0000_0000_0000_0000_0000_0000_0000_0000_0000 * one(),
        q.mag() <= 0x1_0000_0000_0000_0000_0000_0000_0000_0000_0000 * one(),
        s.mag() <= 0x1_0000_0000_0000_0000_0000_0000_0000_0000_0000 * one(),
        half.mag() <= 0x1_0000_0000_0000_0000_0000_0000_0000_0000_0000 * one(),
    ensures
        now.sum(q).sum(s).sum(half).plain(),
        close(
            2 * now.sum(q).sum(s).sum(half).value(),
            2 * n + 2 * q.value() + 2 * s.value() + srtt,
            12,
        ),
{
    let a = now.sum(q);
    lemma_sum_chain(now, q, n, 1);
    let b = a.sum(s);
    lemma_sum_chain(a, s, n + q.value(), 3);
    let eta = b.sum(half);
    let m = n + q.value() + s.value();
    lemma_sum_chain(b, half, m, 5);
    let h = half.value();
    lemma_close_scale(eta.value(), m + h, 7, 2);
    lemma_close_more(2 * h, srtt, 3, 4);
    lemma_close_sum(2 * m, 2 * m, 2 * h, srtt, 4);
    lemma_close_trans(2 * eta.value(), 2 * (m + h), 7, 2 * m + srtt, 4);
}

/// The parts of an arrival time, in terms of the bandwidth `w`.
proof fn lemma_arrival_parts(
    eta: int,
    n: int,
    q: int,
    s: int,
    srtt: int,
    w: int,
    i: int,
    l: int,
)
    requires
        close(2 * eta, 2 * n + 2 * q + 2 * s + srtt, 12),
        close(q * w, i, 5),
        close(s * w, l, 5),
        n >= 0,
        q >= 0,
        s >= 0,
        srtt >= 0,
        w > 0,
        i >= 0,
        l >= 0,
    ensures
        close((2 * eta) * w, (2 * n) * w + 2 * (i + l) + srtt * w, 18),
{
    let m = 2 * n + 2 * q + 2 * s + srtt;
    lemma_close_scale(2 * eta, m, 12, w);
    lemma_close_sum(q * w, i, s * w, l, 5);
    lemma_close_scale(q * w + s * w, i + l, 5, 2);
    let (x, y) = ((2 * n) * w, srtt * w);
    assert(x >= 0 && y >= 0 && m * w >= 0) by (nonlinear_arith)
        requires
            x == (2 * n) * w,
            y == srtt * w,
            n >= 0,
            srtt >= 0,
            w >= 0,
            m >= 0,
    ;
    lemma_close_sum(2 * (q * w + s * w), 2 * (i + l), x + y, x + y, 5);
    assert(m * w == 2 * (q * w + s * w) + (x + y)) by (nonlinear_arith)
        requires
            m == 2 * n + 2 * q + 2 * s + srtt,
            x == (2 * n) * w,
            y == srtt * w,
    ;
    lemma_close_trans((2 * eta) * w, m * w, 12, 2 * (i + l) + (x + y), 5);
}

/// A packet arrives after the queue, its own time on the wire and half a round trip.
pub proof fn law_arrival_adds_up(p: PathSnapshot, now_ms: u64, packet_len: u64)
    requires
        common(p.bw_est_bps),
        moderate(p.srtt_ms.widened()),
    ensures
        ({
            let c = one() as int;
            let bw = p.bw_est_bps.value();
            let eta = p.eta(now_ms as nat, packet_len as nat);
            let bytes = p.inflight_bytes + packet_len;
            &&& eta.plain()
            &&& close(
                (2 * eta.value()) * bw,
                (2 * (now_ms * c)) * bw + (((2000 * bytes) * c) * c) + p.srtt_ms.widened().value()
                    * bw,
                18,
            )
        }),
{
    lemma_double();
    lemma_large_one();
    let c = one() as int;
    let bw = p.bw_est_bps;
    let w = bw.mag() as int;
    lemma_order(bw, bw);
    lemma_mag_order(bw, signed(false, 0));
    lemma_time_close(p.inflight_bytes as u64, bw);
    lemma_time_close(packet_len, bw);
    lemma_whole_close(now_ms);
    let now = of_whole(now_ms as nat);
    let (q, s) = (p.queue_delay(), p.serialization(packet_len as nat));
    let srtt = p.srtt_ms.widened();
    let half = fraction(1, 2).prod(srtt);
    if srtt.mag() == 0 {
        lemma_fraction_close(1, 2);
        lemma_zero_prod(fraction(1, 2), srtt);
        assert(close(2 * half.value(), srtt.value(), 3));
    } else {
        lemma_part_close(1, 2, srtt);
    }
    let n = now_ms * c;
    assert(0 <= n <= 0x1_0000_0000_0000_0000 * c) by (nonlinear_arith)
        requires
            n == now_ms * c,
            now_ms < 0x1_0000_0000_0000_0000,
            c >= 0,
    ;
    lemma_arrival_sum(now, n, q, s, half, srtt.value());
    let (i, l) = (((1000 * p.inflight_bytes) * c) * c, ((1000 * packet_len) * c) * c);
    assert(i >= 0 && l >= 0) by (nonlinear_arith)
        requires
            i == ((1000 * p.inflight_bytes) * c) * c,
            l == ((1000 * packet_len) * c) * c,
            c >= 0,
            p.inflight_bytes >= 0,
            packet_len >= 0,
    ;
    let eta = p.eta(now_ms as nat, packet_len as nat);
    lemma_arrival_parts(eta.value(), n, q.value(), s.value(), srtt.value(), w, i, l);
    let bytes = p.inflight_bytes + packet_len;
    assert(2 * (i + l) == ((2000 * bytes) * c) * c) by (nonlinear_arith)
        requires
            i == ((1000 * p.inflight_bytes) * c) * c,
            l == ((1000 * packet_len) * c) * c,
            bytes == p.inflight_bytes + packet_len,
    ;
}

/// The bandwidth-delay product.
proof fn lemma_product_close(bw: F64, rtt: F64)
    requires
        common(bw),
        moderate(rtt),
    ensures
        ({
            let b = bw.prod(rtt.quot(of_whole(1000)));
            &&& b.plain()
            &&& b.mag() <= 0x1_0000_0000_0000_0000_0000_0000_0000_0000_0000 * one()
            &&& rtt.mag() == 0 ==> b.mag() == 0
            &&& close((1000 * one()) * b.value(), bw.value() * rtt.value(), 3)
        }),
{
    lemma_double();
    lemma_large_one();
    lemma_zero_one();
    lemma_whole_exact(1000);
    let c = one() as int;
    let (w, t) = (bw.mag() as int, rtt.mag() as int);
    let m = rtt.quot(of_whole(1000));
    let b = bw.prod(m);
    if t == 0 {
        lemma_zero_quot(rtt, of_whole(1000));
        lemma_zero_prod(bw, m);
        assert((1000 * c) * 0 == 0 && w * 0 == 0) by (nonlinear_arith);
    } else {
        assert(t * c >= 0x10_0000_0000_0000 * (1000 * c)) by (nonlinear_arith)
            requires
                t >= 0x1000_0000_0000_0000_0000_0000_0000_0000,
                c > 0,
        ;
        lemma_quot_close(rtt, of_whole(1000));
        let r = m.mag() as int;
        assert(r * (1000 * c) == (1000 * r) * c) by (nonlinear_arith);
        lemma_close_scale(1000 * r, t, 1, c);
        let big = pow2(2000) as int;
        assert(r >= 0x10_0000_0000_0000 * 0x1_0000_0000_0000_0000);
        assert(w * r >= 0x10_0000_0000_0000 * c) by (nonlinear_arith)
            requires
                c <= 0x1_0000_0000_0000_0000 * w,
                r >= 0x10_0000_0000_0000 * 0x1_0000_0000_0000_0000,
                w > 0,
        ;
        assert(w * r <= (0x1_0000_0000_0000_0000_0000_0000_0000_0000 * c) * c) by (nonlinear_arith)
            requires
                0 <= w <= 0x1_0000_0000_0000_0000 * c,
                0 <= r <= 0x1_0000_0000_0000_0000 * c,
        ;
        let k = 0x1_0000_0000_0000_0000_0000_0000_0000_0000 * c;
        assert(k * c <= big * c) by (nonlinear_arith)
            requires
                k <= big,
                c >= 0,
        ;
        lemma_prod_close(bw, m);
        let z = b.mag() as int;
        assert(z * c <= 2 * (k * c));
        assert(z <= 2 * k) by (nonlinear_arith)
            requires
                z * c <= 2 * (k * c),
                c > 0,
        ;
        lemma_close_scale(z * c, w * r, 1, 1000);
        lemma_close_scale(1000 * r, t, 1, w);
        assert(1000 * (z * c) == (1000 * c) * z && 1000 * (w * r) == w * (1000 * r))
            by (nonlinear_arith);
        assert(w * r >= 0 && w * t >= 0) by (nonlinear_arith)
            requires
                w >= 0,
                r >= 0,
                t >= 0,
        ;
        lemma_close_trans((1000 * c) * z, w * (1000 * r), 1, w * t, 1);
    }
}

/// The room is what the bandwidth-delay product leaves beside the bytes in flight: with an error
/// of a few parts of the product, as the two may be close to each other.
pub proof fn law_room_is_what_the_product_leaves(p: PathSnapshot)
    requires
        common(p.bw_est_bps),
        moderate(p.min_rtt_ms.widened()),
    ensures
        ({
            let c = one() as int;
            let product = p.bw_est_bps.value() * p.min_rtt_ms.widened().value();
            let free = most(product - ((1000 * p.inflight_bytes) * c) * c, 0);
            let room = (1000 * c) * p.headroom().value();
            &&& p.headroom().plain()
            &&& p.headroom().mag() <= 0x1_0000_0000_0000_0000_0000_0000_0000_0000_0000 * one()
            &&& parts() * (room - free) <= 8 * product
            &&& parts() * (free - room) <= 8 * product
        }),
{
    lemma_product_close(p.bw_est_bps, p.min_rtt_ms.widened());
    lemma_room_close(p.bw_est_bps, p.min_rtt_ms.widened(), p.inflight_bytes);
}

/// The room beside the bytes in flight.
proof fn lemma_room_close(bw: F64, rtt: F64, bytes: u32)
    requires
        common(bw),
        moderate(rtt),
    ensures
        ({
            let c = one() as int;
            let product = bw.value() * rtt.value();
            let free = most(product - ((1000 * bytes) * c) * c, 0);
            let h = bw.prod(rtt.quot(of_whole(1000))).diff(of_whole(bytes as nat)).larger(
                signed(false, 0),
            );
            let room = (1000 * c) * h.value();
            &&& h.plain()
            &&& product >= 0
            &&& h.mag() <= bw.prod(rtt.quot(of_whole(1000))).mag()
            &&& parts() * (room - free) <= 8 * product
            &&& parts() * (free - room) <= 8 * product
        }),
{
    lemma_double();
    lemma_large_one();
    lemma_zero_one();
    lemma_product_close(bw, rtt);
    lemma_whole_exact(bytes as nat);
    let u = parts();
    let c = one() as int;
    let zero = signed(false, 0);
    let b = bw.prod(rtt.quot(of_whole(1000)));
    let n = of_whole(bytes as nat);
    let d = b.diff(n);
    let h = d.larger(zero);
    let product = bw.value() * rtt.value();
    let held = ((1000 * bytes) * c) * c;
    let k = 1000 * c;
    let (x, y) = (b.mag() as int, n.mag() as int);
    assert(product >= 0) by (nonlinear_arith)
        requires
            product == bw.value() * rtt.value(),
            bw.value() >= 0,
            rtt.value() >= 0,
    ;
    assert(k * y == held) by (nonlinear_arith)
        requires
            k == 1000 * c,
            y == bytes * c,
            held == ((1000 * bytes) * c) * c,
    ;
    assert(held >= 0) by (nonlinear_arith)
        requires
            held == k * y,
            k >= 0,
            y >= 0,
    ;
    if x < y {
        lemma_diff_below(b, n);
        assert(h == zero);
        assert(k * x <= k * y) by (nonlinear_arith)
            requires
                x <= y,
                k >= 0,
        ;
        assert(k * 0 == 0) by (nonlinear_arith);
    } else {
        lemma_diff_close(b, n);
        lemma_mag_order(d, zero);
        lemma_order(d, zero);
        assert(h == d);
        let z = d.mag() as int;
        let e = x - y;
        lemma_close_scale(z, e, 1, k);
        assert(k * e == k * x - held) by (nonlinear_arith)
            requires
                e == x - y,
                k * y == held,
        ;
        assert(k * e >= 0) by (nonlinear_arith)
            requires
                e >= 0,
                k >= 0,
        ;
        lemma_units_at_most(e as nat, b.low());
        lemma_mag_order(b, d);
    }
}

/// The free share of the bandwidth-delay product.
pub proof fn law_free_share_of_the_product(bw: F64, p: PathSnapshot)
    requires
        common(bw),
        moderate(p.min_rtt_ms.widened()),
        p.min_rtt_ms.widened().mag() > 0,
    ensures
        ({
            let c = one() as int;
            let product = bw.value() * p.min_rtt_ms.widened().value();
            let free = most(product - ((1000 * p.inflight_bytes) * c) * c, 0);
            let share = headroom_ratio(bw, p).value() * product;
            &&& headroom_ratio(bw, p).plain()
            &&& headroom_ratio(bw, p).mag() <= one()
            &&& parts() * (share - free * c) <= 16 * (product * c)
            &&& parts() * (free * c - share) <= 16 * (product * c)
        }),
{
    lemma_double();
    lemma_large_one();
    lemma_zero_one();
    lemma_whole_exact(1);
    let rtt = p.min_rtt_ms.widened();
    lemma_product_close(bw, rtt);
    lemma_room_close(bw, rtt, p.inflight_bytes);
    let u = parts();
    let c = one() as int;
    let b = bw.prod(rtt.quot(of_whole(1000)));
    let h = b.diff(of_whole(p.inflight_bytes as nat)).larger(signed(false, 0));
    let product = bw.value() * rtt.value();
    let free = most(product - ((1000 * p.inflight_bytes) * c) * c, 0);
    let k = 1000 * c;
    let (x, y) = (b.mag() as int, h.mag() as int);
    assert(product > 0) by (nonlinear_arith)
        requires
            product == bw.value() * rtt.value(),
            bw.value() > 0,
            rtt.value() > 0,
    ;
    assert(x > 0) by {
        if x == 0 {
            assert(k * x == 0) by (nonlinear_arith)
                requires
                    x == 0,
            ;
        }
    }
    lemma_order(b, b);
    lemma_mag_order(b, signed(false, 0));
    let ratio = h.quot(b);
    assert(headroom_ratio(bw, p) == ratio);
    lemma_quot_at_most_one(h, b);
    lemma_order(ratio, of_whole(1));
    lemma_mag_order(ratio, of_whole(1));
    lemma_mag_order(of_whole(1), ratio);
    lemma_quot_pattern(h, b);
    lemma_error(double(), h.mag() * one(), b.mag());
    let r = ratio.mag() as int;
    assert(r <= c);
    // r x is y c but for a part of it, or for half of x
    let (v, w) = (r * x, y * c);
    assert(0 <= w <= x * c && x <= x * c) by (nonlinear_arith)
        requires
            w == y * c,
            0 <= y <= x,
            c >= 1,
    ;
    assert(u * (v - w) <= w + u * x && u * (w - v) <= w + u * x) by {
        assert(u * (2 * (v - w)) == 2 * (u * (v - w)) && u * (2 * (w - v)) == 2 * (u * (w - v)))
            by (nonlinear_arith);
    }
    assert(u * x <= x * c) by (nonlinear_arith)
        requires
            u <= c,
            x >= 0,
    ;
    assert(u * (v - w) <= 2 * (x * c) && u * (w - v) <= 2 * (x * c));
    // in terms of the product
    let m = k * x;
    lemma_share_of_product(r, x, y, c, k, product, free);
}

/// Without a round trip there is no bandwidth-delay product, and nothing of it is free.
pub proof fn law_nothing_is_free_of_no_product(bw: F64, p: PathSnapshot)
    requires
        common(bw),
        p.min_rtt_ms.widened().plain(),
        p.min_rtt_ms.widened().mag() == 0,
    ensures
        headroom_ratio(bw, p).value() == 0,
{
    lemma_zero_one();
    lemma_product_close(bw, p.min_rtt_ms.widened());
    let b = bw.prod(p.min_rtt_ms.widened().quot(of_whole(1000)));
    lemma_order(b, b);
    lemma_mag_order(b, signed(false, 0));
}

/// The share of `x` that `y` is, in terms of what both are close to.
proof fn lemma_share_of_product(r: int, x: int, y: int, c: int, k: int, product: int, free: int)
    requires
        parts() * (r * x - y * c) <= 2 * (x * c),
        parts() * (y * c - r * x) <= 2 * (x * c),
        close(k * x, product, 3),
        parts() * (k * y - free) <= 8 * product,
        parts() * (free - k * y) <= 8 * product,
        0 <= r <= c,
        c > 0,
        k > 0,
        x > 0,
        product > 0,
    ensures
        parts() * (r * product - free * c) <= 16 * (product * c),
        parts() * (free * c - r * product) <= 16 * (product * c),
{
    let u = parts();
    let m = k * x;
    // r product is close to r k x
    assert(u * (r * product - r * m) <= 3 * (product * c) && u * (r * m - r * product) <= 3 * (
    product * c)) by (nonlinear_arith)
        requires
            u * (m - product) <= 3 * product,
            u * (product - m) <= 3 * product,
            0 <= r <= c,
            product > 0,
    {
        assert(r * (u * (m - product)) <= r * (3 * product));
        assert(r * (u * (product - m)) <= r * (3 * product));
        assert(r * (3 * product) <= c * (3 * product));
    }
    // r k x is close to k y c
    let (e, f) = (r * x - y * c, 2 * (x * c));
    assert(e * k == r * m - (k * y) * c) by (nonlinear_arith)
        requires
            e == r * x - y * c,
            m == k * x,
    ;
    assert(f * k == 2 * (m * c)) by (nonlinear_arith)
        requires
            f == 2 * (x * c),
            m == k * x,
    ;
    assert((u * e) * k <= f * k && (u * (-e)) * k <= f * k) by (nonlinear_arith)
        requires
            u * e <= f,
            u * (-e) <= f,
            k > 0,
    ;
    assert((u * e) * k == u * (e * k) && (u * (-e)) * k == u * (-(e * k))) by (nonlinear_arith);
    assert(m * c <= 2 * (product * c)) by (nonlinear_arith)
        requires
            m <= 2 * product,
            c > 0,
    ;
    // k y c is close to free c
    assert(u * ((k * y) * c - free * c) <= 8 * (product * c) && u * (free * c - (k * y) * c) <= 8
        * (product * c)) by (nonlinear_arith)
        requires
            u * (k * y - free) <= 8 * product,
            u * (free - k * y) <= 8 * product,
            c > 0,
    {
        assert((u * (k * y - free)) * c <= (8 * product) * c);
        assert((u * (free - k * y)) * c <= (8 * product) * c);
    }
}

} // verus!
