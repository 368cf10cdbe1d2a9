//! What the scores of candidates come to, but for rounding.
use vstd::arithmetic::power2::pow2;
use vstd::prelude::*;

use crate::multipath_scheduler::candidate::{base_score, Candidate};
use crate::multipath_scheduler::delays::{
    common, law_queueing_delay_is_bytes_over_bandwidth, law_room_is_what_the_product_leaves,
    moderate,
};
use crate::multipath_scheduler::guards::penalized;
use crate::multipath_scheduler::terms::lemma_prod_near;
use crate::multipath_scheduler::{Config, PathSnapshot};
use crate::num::bounds::{
    lemma_error, lemma_order, lemma_quot_pattern, lemma_units_at_most, lemma_units_error,
};
use crate::num::close::{
    close, lemma_diff_below, lemma_diff_close, lemma_finite, lemma_large_one, lemma_very_large_one,
    most, parts,
};
use crate::num::double::{lemma_double, lemma_mag_order, of_whole, signed, F64};
use crate::num::exact::{lemma_whole_exact, one};
use crate::num::facts::lemma_zero_one;
use crate::num::format::{double, lemma_nearest, lemma_nearest_at_most, Exact};

verus! {

/// The distance of a number from zero.
pub open spec fn abs(x: int) -> int {
    if x < 0 {
        -x
    } else {
        x
    }
}

/// `x` is `n` over `d`, but for `k` parts of `m` and `e` units.
pub open spec fn around(x: F64, n: int, m: int, d: int, k: int, e: int) -> bool {
    &&& x.finite()
    &&& abs(n) <= m
    &&& d > 0
    &&& parts() * abs(x.value() * d - n) <= k * m + parts() * (e * d)
}

/// A sum of two numbers of any sign.
proof fn lemma_signed_sum(a: F64, b: F64)
    requires
        a.finite(),
        b.finite(),
        abs(a.value() + b.value()) <= pow2(2000),
    ensures
        a.sum(b).finite(),
        parts() * abs(a.sum(b).value() - (a.value() + b.value())) <= abs(a.value() + b.value()),
{
    lemma_double();
    let s = a.value() + b.value();
    let p = abs(s) as nat;
    assert(pow2(2000) * 1 == pow2(2000));
    lemma_finite(p, 1);
    lemma_units_error(p);
    lemma_nearest(double(), Exact::Ratio { p, q: 1 });
    if s == 0 {
        lemma_zero_one();
        lemma_mag_order(a.sum(b), signed(false, 0));
    }
}

/// A sum of two numbers that are around others.
proof fn lemma_around_sum(
    x: F64,
    y: F64,
    n1: int,
    m1: int,
    n2: int,
    m2: int,
    d: int,
    k: int,
    e1: int,
    e2: int,
)
    requires
        around(x, n1, m1, d, k, e1),
        around(y, n2, m2, d, k, e2),
        0 <= k <= 100,
        e1 >= 0,
        e2 >= 0,
        x.mag() + y.mag() <= pow2(2000),
    ensures
        around(x.sum(y), n1 + n2, m1 + m2, d, k + 2, 2 * (e1 + e2)),
{
    let u = parts();
    lemma_signed_sum(x, y);
    let (a, b) = (x.value(), y.value());
    let z = x.sum(y).value();
    let (m, e) = (m1 + m2, e1 + e2);
    // both errors together
    assert(u * abs((a + b) * d - (n1 + n2)) <= k * m + u * (e * d)) by (nonlinear_arith)
        requires
            u * abs(a * d - n1) <= k * m1 + u * (e1 * d),
            u * abs(b * d - n2) <= k * m2 + u * (e2 * d),
            m == m1 + m2,
            e == e1 + e2,
            u > 0,
    {
        assert((a + b) * d - (n1 + n2) == (a * d - n1) + (b * d - n2));
        assert(abs((a + b) * d - (n1 + n2)) <= abs(a * d - n1) + abs(b * d - n2));
        assert(u * abs((a + b) * d - (n1 + n2)) <= u * abs(a * d - n1) + u * abs(b * d - n2));
        assert(k * m == k * m1 + k * m2);
        assert(e * d == e1 * d + e2 * d);
        assert(u * (e * d) == u * (e1 * d) + u * (e2 * d));
    }
    let s = (a + b) * d;
    assert(abs(s) <= 2 * m + e * d) by (nonlinear_arith)
        requires
            u * abs(s - (n1 + n2)) <= k * m + u * (e * d),
            abs(n1 + n2) <= m,
            0 <= k <= 100,
            u == 0x20_0000_0000_0000,
            m >= 0,
    {
        assert(k * m <= u * m);
        assert(u * abs(s - (n1 + n2)) <= u * (m + e * d));
        assert(abs(s - (n1 + n2)) <= m + e * d);
    }
    assert(abs(s) == abs(a + b) * d) by (nonlinear_arith)
        requires
            s == (a + b) * d,
            d > 0,
    ;
    assert(u * abs(z * d - s) <= abs(s)) by (nonlinear_arith)
        requires
            u * abs(z - (a + b)) <= abs(a + b),
            s == (a + b) * d,
            abs(s) == abs(a + b) * d,
            d > 0,
    {
        assert(z * d - s == (z - (a + b)) * d);
        assert(abs(z * d - s) == abs(z - (a + b)) * d);
        assert((u * abs(z - (a + b))) * d <= abs(a + b) * d);
    }
    let n = n1 + n2;
    assert(abs(z * d - n) <= abs(z * d - s) + abs(s - n));
    assert(u * abs(z * d - n) <= u * abs(z * d - s) + u * abs(s - n)) by (nonlinear_arith)
        requires
            abs(z * d - n) <= abs(z * d - s) + abs(s - n),
            u > 0,
    ;
    assert((k + 2) * m == k * m + 2 * m) by (nonlinear_arith);
    assert(e * d >= 0) by (nonlinear_arith)
        requires
            e >= 0,
            d > 0,
    ;
    assert((2 * e) * d == 2 * (e * d)) by (nonlinear_arith);
}

/// A number with its sign turned is around the other with its sign turned.
proof fn lemma_around_negated(x: F64, n: int, m: int, d: int, k: int, e: int)
    requires
        around(x, n, m, d, k, e),
    ensures
        around(x.negated(), -n, m, d, k, e),
        x.negated().mag() == x.mag(),
{
    lemma_mag_order(x, signed(false, 0));
    let v = x.value();
    assert(x.negated().value() == -v);
    assert((-v) * d - (-n) == -(v * d - n)) by (nonlinear_arith);
}

/// A product of two numbers, over `c` times `d`.
proof fn lemma_around_product(a: F64, b: F64, d: int)
    requires
        a.plain(),
        b.plain(),
        a.mag() * b.mag() <= pow2(2000) * one(),
        d > 0,
    ensures
        around(
            a.prod(b),
            (a.value() * b.value()) * d,
            (a.value() * b.value()) * d,
            one() * d,
            1,
            1,
        ),
        a.prod(b).plain(),
{
    lemma_large_one();
    lemma_prod_near(a, b);
    let u = parts();
    let c = one() as int;
    let p = a.value() * b.value();
    let r = a.prod(b).value();
    let (n, t) = (p * d, c * d);
    assert(n >= 0 && t > 0) by (nonlinear_arith)
        requires
            n == p * d,
            t == c * d,
            p == a.value() * b.value(),
            a.value() >= 0,
            b.value() >= 0,
            c > 0,
            d > 0,
    ;
    assert(u * abs(r * t - n) <= n + u * t) by (nonlinear_arith)
        requires
            u * (r * c - p) <= p + u * c,
            u * (p - r * c) <= p + u * c,
            n == p * d,
            t == c * d,
            d > 0,
    {
        assert(r * t - n == (r * c - p) * d);
        assert((u * (r * c - p)) * d <= (p + u * c) * d);
        assert((u * (p - r * c)) * d <= (p + u * c) * d);
        assert((p + u * c) * d == n + u * t);
    }
}

/// The excess of a delay over a target.
proof fn lemma_excess(q: F64, target: u32)
    requires
        q.plain(),
    ensures
        ({
            let x = q.diff(of_whole(target as nat)).larger(signed(false, 0));
            &&& x.plain()
            &&& x.mag() <= q.mag()
            &&& close(x.value(), most(q.value() - target * one(), 0), 1)
        }),
{
    lemma_double();
    lemma_zero_one();
    lemma_whole_exact(target as nat);
    let t = of_whole(target as nat);
    let zero = signed(false, 0);
    let d = q.diff(t);
    if q.mag() < t.mag() {
        lemma_diff_below(q, t);
    } else {
        lemma_diff_close(q, t);
        lemma_mag_order(d, zero);
        lemma_order(d, zero);
        lemma_units_at_most((q.mag() - t.mag()) as nat, q.low());
        lemma_mag_order(q, d);
    }
}

/// A candidate whose queueing delay is beyond the target loses the weight of the delay times the
/// excess from its score, and nothing else; every other candidate stays as it is.
pub proof fn law_penalties_are_for_the_excess(cfg: Config, c: Candidate)
    requires
        cfg.w4_qdelay.plain(),
        cfg.w4_qdelay.mag() <= 0x1_0000_0000_0000_0000 * one(),
        c.queue_delay_ms.plain(),
        c.queue_delay_ms.mag() <= 0x1_0000_0000_0000_0000_0000_0000_0000_0000 * one(),
        c.score.finite(),
        c.score.mag() <= 0x1_0000_0000_0000_0000_0000_0000_0000_0000 * one(),
    ensures
        ({
            let u = one() as int;
            let target = cfg.target_qdelay_ms * u;
            let excess = c.queue_delay_ms.value() - target;
            let penalty = cfg.w4_qdelay.value() * excess;
            let r = penalized(cfg, c);
            &&& r.id == c.id
            &&& r.slot == c.slot
            &&& r.eta_ms == c.eta_ms
            &&& r.queue_delay_ms == c.queue_delay_ms
            &&& r.srtt_ms == c.srtt_ms
            &&& excess <= 0 ==> r == c
            &&& excess > 0 ==> r.score.finite() && parts() * abs(
                r.score.value() * u - (c.score.value() * u - penalty),
            ) <= 8 * (abs(c.score.value()) * u + penalty) + parts() * (4 * u)
        }),
{
    lemma_double();
    lemma_large_one();
    lemma_very_large_one();
    lemma_whole_exact(cfg.target_qdelay_ms as nat);
    let u = parts();
    let k = one() as int;
    let t = of_whole(cfg.target_qdelay_ms as nat);
    let q = c.queue_delay_ms;
    lemma_order(q, t);
    lemma_order(t, q);
    lemma_mag_order(q, t);
    lemma_mag_order(t, q);
    let excess = q.value() - cfg.target_qdelay_ms * k;
    if excess > 0 {
        lemma_diff_close(q, t);
        let d = q.diff(t);
        lemma_units_at_most((q.mag() - t.mag()) as nat, q.low());
        lemma_mag_order(q, d);
        let (w, x) = (cfg.w4_qdelay.mag() as int, d.mag() as int);
        let big = pow2(2000) as int;
        let lim = 0x1_0000_0000_0000_0000_0000_0000_0000_0000_0000_0000_0000_0000 * k;
        assert(w * x <= lim * k) by (nonlinear_arith)
            requires
                0 <= w <= 0x1_0000_0000_0000_0000 * k,
                0 <= x <= 0x1_0000_0000_0000_0000_0000_0000_0000_0000 * k,
                lim == 0x1_0000_0000_0000_0000_0000_0000_0000_0000_0000_0000_0000_0000 * k,
        {
            assert(w * x <= (0x1_0000_0000_0000_0000 * k) * x);
            assert((0x1_0000_0000_0000_0000 * k) * x <= (0x1_0000_0000_0000_0000 * k) * (
            0x1_0000_0000_0000_0000_0000_0000_0000_0000 * k));
        }
        assert(lim * k <= big * k) by (nonlinear_arith)
            requires
                lim <= big,
                k >= 0,
        ;
        lemma_around_product(cfg.w4_qdelay, d, 1);
        let p = cfg.w4_qdelay.prod(d);
        assert(k * 1 == k);
        let penalty = w * excess;
        assert(penalty >= 0 && w * x >= 0) by (nonlinear_arith)
            requires
                penalty == w * excess,
                w >= 0,
                excess >= 0,
                x >= 0,
        ;
        assert(u * abs(w * x - penalty) <= penalty) by (nonlinear_arith)
            requires
                u * (x - excess) <= excess,
                u * (excess - x) <= excess,
                penalty == w * excess,
                w >= 0,
        {
            assert(w * (u * (x - excess)) <= w * excess);
            assert(w * (u * (excess - x)) <= w * excess);
            assert(w * x - penalty == w * (x - excess));
        }
        let r = p.value();
        assert(w * x <= 2 * penalty);
        assert((w * x) * 1 == w * x);
        assert(u * abs(r * k - penalty) <= 4 * penalty + u * k) by {
            assert(abs(r * k - penalty) <= abs(r * k - w * x) + abs(w * x - penalty));
            assert(u * abs(r * k - penalty) <= u * abs(r * k - w * x) + u * abs(w * x - penalty))
                by (nonlinear_arith)
                requires
                    abs(r * k - penalty) <= abs(r * k - w * x) + abs(w * x - penalty),
                    u > 0,
            ;
        }
        assert(around(p, penalty, penalty, k, 4, 1)) by {
            assert(1 * k == k);
        }
        lemma_around_negated(p, penalty, penalty, k, 4, 1);
        let s = c.score.value();
        let m = abs(s) * k;
        assert(abs(s * k) == m) by (nonlinear_arith)
            requires
                m == abs(s) * k,
                k > 0,
        ;
        assert(around(c.score, s * k, m, k, 4, 0));
        assert(r <= 4 * lim) by (nonlinear_arith)
            requires
                u * abs(r * k - penalty) <= 4 * penalty + u * k,
                penalty <= 2 * (lim * k),
                u == 0x20_0000_0000_0000,
                k > 0,
                lim >= k,
                penalty >= 0,
                r >= 0,
        {
            assert(u * (r * k) <= u * penalty + 4 * penalty + u * k);
            assert(u * (r * k) <= u * (penalty + penalty + k)) by {
                assert(4 * penalty <= u * penalty);
            }
            assert(r * k <= 2 * penalty + k);
            assert(r * k <= (4 * lim) * k + k);
            assert(r <= 4 * lim + 1);
            assert(r * k <= 4 * (lim * k) + k);
        }
        lemma_around_sum(c.score, p.negated(), s * k, m, -penalty, penalty, k, 4, 0, 1);
        assert((2 * (0 + 1)) * k == 2 * k) by (nonlinear_arith);
        assert(6 * (m + penalty) <= 8 * (m + penalty));
    }
}

/// More parts are allowed.
proof fn lemma_around_more(x: F64, n: int, m: int, d: int, k: int, e: int, l: int)
    requires
        around(x, n, m, d, k, e),
        k <= l,
    ensures
        around(x, n, m, d, l, e),
{
    assert(k * m <= l * m) by (nonlinear_arith)
        requires
            k <= l,
            m >= 0,
    ;
}

/// A number times a quotient, over `c` times the denominator.
proof fn lemma_around_ratio(w: F64, h: F64, delay: F64)
    requires
        w.plain(),
        h.plain(),
        delay.plain(),
        delay.mag() >= one(),
        w.mag() <= 0x1_0000_0000_0000_0000 * one(),
        h.mag() <= 0x1_0000_0000_0000_0000_0000_0000_0000_0000_0000 * one(),
    ensures
        ({
            let n = (w.value() * h.value()) * one();
            let r = w.prod(h.quot(delay));
            &&& r.plain()
            &&& around(r, n, n, one() * delay.value(), 3, 0x2_0000_0000_0000_0001)
            &&& r.mag() <= 0x100_0000_0000_0000_0000_0000_0000_0000_0000_0000_0000_0000_0000_0000
                * one()
        }),
{
    lemma_double();
    lemma_large_one();
    lemma_very_large_one();
    lemma_zero_one();
    let u = parts();
    let c = one() as int;
    let d = delay.mag() as int;
    lemma_mag_order(delay, signed(false, 0));
    let q = h.quot(delay);
    lemma_quot_pattern(h, delay);
    let (a, b) = (w.mag() as int, h.mag() as int);
    assert(2 * (b * c) <= (2 * b) * d) by (nonlinear_arith)
        requires
            c <= d,
            b >= 0,
    ;
    lemma_nearest_at_most(double(), Exact::Ratio { p: h.mag() * one(), q: delay.mag() }, h.low());
    lemma_mag_order(h, q);
    lemma_error(double(), h.mag() * one(), delay.mag());
    let x = q.mag() as int;
    let t = b * c;
    assert(t >= 0) by (nonlinear_arith)
        requires
            t == b * c,
            b >= 0,
            c >= 0,
    ;
    assert(u * (x * d - t) <= t + u * d && u * (t - x * d) <= t + u * d) by {
        assert(u * (2 * (x * d - t)) == 2 * (u * (x * d - t)) && u * (2 * (t - x * d)) == 2 * (u * (
        t - x * d))) by (nonlinear_arith);
    }
    let lim = 0x1_0000_0000_0000_0000_0000_0000_0000_0000_0000_0000_0000_0000_0000 * c;
    let big = pow2(2000) as int;
    assert(a * x <= lim * c) by (nonlinear_arith)
        requires
            0 <= a <= 0x1_0000_0000_0000_0000 * c,
            0 <= x <= 0x1_0000_0000_0000_0000_0000_0000_0000_0000_0000 * c,
            lim == 0x1_0000_0000_0000_0000_0000_0000_0000_0000_0000_0000_0000_0000_0000 * c,
    {
        assert(a * x <= (0x1_0000_0000_0000_0000 * c) * x);
        assert((0x1_0000_0000_0000_0000 * c) * x <= (0x1_0000_0000_0000_0000 * c) * (
        0x1_0000_0000_0000_0000_0000_0000_0000_0000_0000 * c));
    }
    assert(lim * c <= big * c) by (nonlinear_arith)
        requires
            lim <= big,
            c >= 0,
    ;
    lemma_prod_near(w, q);
    let r = w.prod(q).mag() as int;
    let p = a * x;
    let n = (a * b) * c;
    assert(p >= 0 && n >= 0) by (nonlinear_arith)
        requires
            p == a * x,
            n == (a * b) * c,
            a >= 0,
            b >= 0,
            c >= 0,
            x >= 0,
    ;
    assert(r <= 3 * lim) by (nonlinear_arith)
        requires
            u * (r * c - p) <= p + u * c,
            0 <= p <= lim * c,
            u == 0x20_0000_0000_0000,
            lim >= c,
            c > 0,
            r >= 0,
    {
        assert(u * (r * c) <= u * (2 * p + c));
        assert(r * c <= 2 * p + c);
        assert(r * c <= (2 * lim + 1) * c);
    }
    // the quotient's error, times the factor
    let m = 0x1_0000_0000_0000_0000int;
    let z = a * (x * d);
    assert(u * (z - n) <= n + u * (m * (c * d)) && u * (n - z) <= n + u * (m * (c * d)))
        by (nonlinear_arith)
        requires
            u * (x * d - t) <= t + u * d,
            u * (t - x * d) <= t + u * d,
            t == b * c,
            n == (a * b) * c,
            z == a * (x * d),
            0 <= a <= m * c,
            d > 0,
            u > 0,
    {
        assert(a * (u * (x * d - t)) <= a * (t + u * d));
        assert(a * (u * (t - x * d)) <= a * (t + u * d));
        assert(a * t == n);
        assert(a * (u * d) == u * (a * d));
        assert(a * d <= (m * c) * d);
        assert(u * (a * d) <= u * (m * (c * d)));
    }
    // the product's error, times the denominator
    let g = c * d;
    assert(g > 0) by (nonlinear_arith)
        requires
            g == c * d,
            c > 0,
            d > 0,
    ;
    assert(p * d == z) by (nonlinear_arith)
        requires
            p == a * x,
            z == a * (x * d),
    ;
    assert(u * (r * g - z) <= z + u * g && u * (z - r * g) <= z + u * g) by (nonlinear_arith)
        requires
            u * (r * c - p) <= p + u * c,
            u * (p - r * c) <= p + u * c,
            p * d == z,
            g == c * d,
            d > 0,
    {
        assert((u * (r * c - p)) * d <= (p + u * c) * d);
        assert((u * (p - r * c)) * d <= (p + u * c) * d);
        assert((r * c - p) * d == r * g - z);
        assert((p + u * c) * d == z + u * g);
    }
    assert(m * g >= 0) by (nonlinear_arith)
        requires
            m >= 0,
            g >= 0,
    ;
    assert(z <= 2 * n + m * g);
    assert(0x2_0000_0000_0000_0001 * g == g + 2 * (m * g)) by (nonlinear_arith)
        requires
            m == 0x1_0000_0000_0000_0000,
    ;
}

/// The weights of a score are numbers from zero to 2^64.
pub open spec fn weights_fit(cfg: Config) -> bool {
    &&& cfg.w1_bw.plain() && cfg.w1_bw.mag() <= 0x1_0000_0000_0000_0000 * one()
    &&& cfg.w2_headroom.plain() && cfg.w2_headroom.mag() <= 0x1_0000_0000_0000_0000 * one()
    &&& cfg.w3_loss.plain() && cfg.w3_loss.mag() <= 0x1_0000_0000_0000_0000 * one()
    &&& cfg.w4_qdelay.plain() && cfg.w4_qdelay.mag() <= 0x1_0000_0000_0000_0000 * one()
}

/// The delay that the room is set against: the round trip, a millisecond at least.
pub open spec fn delay_of(p: PathSnapshot) -> int {
    most(p.srtt_ms.widened().value(), one() as int)
}

/// What counts for a path, times its delay.
pub open spec fn score_gain(cfg: Config, p: PathSnapshot) -> int {
    (cfg.w1_bw.value() * most(p.bw_est_bps.value(), one() as int)) * delay_of(p) + (
    cfg.w2_headroom.value() * p.headroom().value()) * one()
}

/// What counts against a path, times its delay.
pub open spec fn score_loss(cfg: Config, p: PathSnapshot) -> int {
    (cfg.w3_loss.value() * p.loss_rate.widened().value()) * delay_of(p) + (cfg.w4_qdelay.value()
        * most(p.queue_delay().value() - cfg.target_qdelay_ms * one(), 0)) * delay_of(p)
}

/// A product of bounded numbers.
proof fn lemma_bounded_product(a: F64, b: F64)
    requires
        a.plain(),
        b.plain(),
        a.mag() <= 0x1_0000_0000_0000_0000 * one(),
        b.mag() <= 0x1_0000_0000_0000_0000_0000_0000_0000_0000_0000 * one(),
    ensures
        a.mag() * b.mag() <= pow2(2000) * one(),
        a.prod(b).mag() <= 0x100_0000_0000_0000_0000_0000_0000_0000_0000_0000_0000_0000_0000_0000
            * one(),
{
    lemma_large_one();
    lemma_very_large_one();
    let u = parts();
    let c = one() as int;
    let (x, y) = (a.mag() as int, b.mag() as int);
    let lim = 0x1_0000_0000_0000_0000_0000_0000_0000_0000_0000_0000_0000_0000_0000 * c;
    let big = pow2(2000) as int;
    let p = x * y;
    assert(0 <= p <= lim * c) by (nonlinear_arith)
        requires
            p == x * y,
            0 <= x <= 0x1_0000_0000_0000_0000 * c,
            0 <= y <= 0x1_0000_0000_0000_0000_0000_0000_0000_0000_0000 * c,
            lim == 0x1_0000_0000_0000_0000_0000_0000_0000_0000_0000_0000_0000_0000_0000 * c,
    {
        assert(x * y <= (0x1_0000_0000_0000_0000 * c) * y);
        assert((0x1_0000_0000_0000_0000 * c) * y <= (0x1_0000_0000_0000_0000 * c) * (
        0x1_0000_0000_0000_0000_0000_0000_0000_0000_0000 * c));
    }
    assert(lim * c <= big * c) by (nonlinear_arith)
        requires
            lim <= big,
            c >= 0,
    ;
    lemma_prod_near(a, b);
    let r = a.prod(b).mag() as int;
    assert(r <= 3 * lim) by (nonlinear_arith)
        requires
            u * (r * c - p) <= p + u * c,
            0 <= p <= lim * c,
            u == 0x20_0000_0000_0000,
            lim >= c,
            c > 0,
            r >= 0,
    {
        assert(u * (r * c) <= u * (2 * p + c));
        assert(r * c <= 2 * p + c);
        assert(r * c <= (2 * lim + 1) * c);
    }
}

/// The part of a score that queueing takes.
proof fn lemma_queueing_part(w: F64, q: F64, target: u32, d: int)
    requires
        w.plain(),
        w.mag() <= 0x1_0000_0000_0000_0000 * one(),
        q.plain(),
        q.mag() <= 0x1_0000_0000_0000_0000_0000_0000_0000_0000_0000 * one(),
        d > 0,
    ensures
        ({
            let x = q.diff(of_whole(target as nat)).larger(signed(false, 0));
            let n = (w.value() * most(q.value() - target * one(), 0)) * d;
            &&& w.prod(x).plain()
            &&& w.prod(x).mag()
                <= 0x100_0000_0000_0000_0000_0000_0000_0000_0000_0000_0000_0000_0000_0000 * one()
            &&& around(w.prod(x), n, n, one() * d, 3, 1)
        }),
{
    lemma_large_one();
    lemma_excess(q, target);
    let u = parts();
    let c = one() as int;
    let x = q.diff(of_whole(target as nat)).larger(signed(false, 0));
    let over = most(q.value() - target * one(), 0);
    lemma_bounded_product(w, x);
    lemma_around_product(w, x, d);
    let (a, b) = (w.value(), x.value());
    let (s, n) = ((a * b) * d, (a * over) * d);
    let t = a * d;
    assert(t >= 0 && n >= 0 && s >= 0) by (nonlinear_arith)
        requires
            t == a * d,
            n == (a * over) * d,
            s == (a * b) * d,
            a >= 0,
            b >= 0,
            d > 0,
            over >= 0,
    ;
    assert(s == t * b && n == t * over) by (nonlinear_arith)
        requires
            t == a * d,
            n == (a * over) * d,
            s == (a * b) * d,
    ;
    assert(u * abs(s - n) <= n) by (nonlinear_arith)
        requires
            u * (b - over) <= over,
            u * (over - b) <= over,
            s == t * b,
            n == t * over,
            t >= 0,
    {
        assert(t * (u * (b - over)) <= t * over);
        assert(t * (u * (over - b)) <= t * over);
        assert(s - n == t * (b - over));
    }
    let r = w.prod(x).value();
    let g = c * d;
    assert(s <= 2 * n);
    assert(abs(r * g - n) <= abs(r * g - s) + abs(s - n));
    assert(u * abs(r * g - n) <= u * abs(r * g - s) + u * abs(s - n)) by (nonlinear_arith)
        requires
            abs(r * g - n) <= abs(r * g - s) + abs(s - n),
            u > 0,
    ;
}

/// The score of a path is its bandwidth and its room over its delay, less its loss and its
/// queueing beyond the target, each with its weight.
#[verifier::rlimit(40)]
pub proof fn law_scores_weigh_gains_against_losses(cfg: Config, p: PathSnapshot)
    requires
        weights_fit(cfg),
        common(p.bw_est_bps),
        moderate(p.min_rtt_ms.widened()),
        moderate(p.srtt_ms.widened()),
        moderate(p.loss_rate.widened()),
    ensures
        ({
            let scale = one() * delay_of(p);
            let (gain, loss) = (score_gain(cfg, p), score_loss(cfg, p));
            &&& base_score(cfg, p).finite()
            &&& parts() * abs(base_score(cfg, p).value() * scale - (gain - loss)) <= 11 * (gain
                + loss) + parts() * (0x20_0000_0000_0000_0000 * scale)
        }),
{
    lemma_double();
    lemma_large_one();
    lemma_very_large_one();
    lemma_zero_one();
    lemma_whole_exact(1);
    law_room_is_what_the_product_leaves(p);
    law_queueing_delay_is_bytes_over_bandwidth(p);
    let c = one() as int;
    let zero = signed(false, 0);
    let bw = p.bw_est_bps.larger(of_whole(1));
    lemma_order(p.bw_est_bps, of_whole(1));
    let srtt = p.srtt_ms.widened();
    let delay = srtt.larger(of_whole(1));
    lemma_order(srtt, of_whole(1));
    let d = delay.value();
    assert(d == delay_of(p) && bw.value() == most(p.bw_est_bps.value(), c));
    let scale = c * d;
    let loss = p.loss_rate.widened();
    let x1 = cfg.w1_bw.prod(bw);
    let x2 = cfg.w2_headroom.prod(p.headroom().quot(delay));
    let x3 = cfg.w3_loss.prod(loss);
    let x4 = cfg.w4_qdelay.prod(
        p.queue_delay().diff(of_whole(cfg.target_qdelay_ms as nat)).larger(zero),
    );
    lemma_bounded_product(cfg.w1_bw, bw);
    lemma_around_product(cfg.w1_bw, bw, d);
    let n1 = (cfg.w1_bw.value() * bw.value()) * d;
    lemma_around_more(x1, n1, n1, scale, 1, 1, 3);
    lemma_around_ratio(cfg.w2_headroom, p.headroom(), delay);
    let n2 = (cfg.w2_headroom.value() * p.headroom().value()) * c;
    lemma_bounded_product(cfg.w3_loss, loss);
    lemma_around_product(cfg.w3_loss, loss, d);
    let n3 = (cfg.w3_loss.value() * loss.value()) * d;
    lemma_queueing_part(cfg.w4_qdelay, p.queue_delay(), cfg.target_qdelay_ms, d);
    let n4 = (cfg.w4_qdelay.value() * most(
        p.queue_delay().value() - cfg.target_qdelay_ms * one(),
        0,
    )) * d;
    // one after the other
    assert(0 * scale == 0) by (nonlinear_arith);
    assert(around(zero, 0, 0, scale, 3, 0));
    lemma_around_sum(zero, x1, 0, 0, n1, n1, scale, 3, 0, 1);
    let s1 = zero.sum(x1);
    lemma_around_more(x2, n2, n2, scale, 3, 0x2_0000_0000_0000_0001, 5);
    lemma_signed_sum(zero, x1);
    lemma_around_sum(s1, x2, n1, n1, n2, n2, scale, 5, 2, 0x2_0000_0000_0000_0001);
    let s2 = s1.sum(x2);
    lemma_signed_sum(s1, x2);
    lemma_around_negated(x3, n3, n3, scale, 1, 1);
    lemma_around_more(x3.negated(), -n3, n3, scale, 1, 1, 7);
    let e2 = 2 * (2 + 0x2_0000_0000_0000_0001int);
    lemma_around_sum(s2, x3.negated(), n1 + n2, n1 + n2, -n3, n3, scale, 7, e2, 1);
    let s3 = s2.sum(x3.negated());
    lemma_signed_sum(s2, x3.negated());
    lemma_around_negated(x4, n4, n4, scale, 3, 1);
    lemma_around_more(x4.negated(), -n4, n4, scale, 3, 1, 9);
    let e3 = 2 * (e2 + 1);
    let (n, m) = (n1 + n2 - n3, n1 + n2 + n3);
    assert(n1 + n2 + (-n3) == n);
    lemma_around_sum(s3, x4.negated(), n, m, -n4, n4, scale, 9, e3, 1);
    let e4 = 2 * (e3 + 1);
    assert(e4 * scale <= 0x20_0000_0000_0000_0000 * scale) by (nonlinear_arith)
        requires
            e4 <= 0x20_0000_0000_0000_0000,
            scale > 0,
    ;
    assert(base_score(cfg, p) == s3.sum(x4.negated()));
}

} // verus!
