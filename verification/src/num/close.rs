//! Numbers that differ by a few parts in 2^53.
use vstd::arithmetic::power2::{
    lemma2_to64, lemma2_to64_rest, lemma_pow2_adds, lemma_pow2_pos, pow2,
};
use vstd::prelude::*;

use crate::num::bounds::{
    lemma_error, lemma_order, lemma_prod_pattern, lemma_quot_pattern, lemma_sum_pattern,
    lemma_units_at_least, lemma_units_at_most, lemma_units_error,
};
use crate::num::double::{fraction, lemma_double, lemma_mag_order, of_whole, signed, F64, INFINITE};
use crate::num::exact::{lemma_whole_exact, one};
use crate::num::facts::{lemma_nearest_exact, lemma_whole_finite, lemma_zero_one};
use crate::num::format::{
    double, lemma_magnitude_of_digits, lemma_magnitude_step, lemma_nearest, lemma_nearest_at_least,
    lemma_nearest_at_most, Exact,
};

verus! {

/// The number of parts that a number is divided into: 2^53.
pub open spec fn parts() -> int {
    0x20_0000_0000_0000
}

/// `a` differs from `b` by at most `k` parts of `b`.
pub open spec fn close(a: int, b: int, k: int) -> bool {
    parts() * (a - b) <= k * b && parts() * (b - a) <= k * b
}

/// Products of close numbers are close.
pub proof fn lemma_close_product(a: int, b: int, k: int, c: int, d: int, l: int)
    requires
        close(a, b, k),
        close(c, d, l),
        a >= 0,
        b >= 0,
        c >= 0,
        d >= 0,
        0 <= k <= 0x1_0000,
        0 <= l <= 0x1_0000,
    ensures
        close(a * c, b * d, k + l + 1),
{
    let u = parts();
    assert(u * a <= (u + k) * b && (u - k) * b <= u * a) by (nonlinear_arith)
        requires
            u * (a - b) <= k * b,
            u * (b - a) <= k * b,
    ;
    assert(u * c <= (u + l) * d && (u - l) * d <= u * c) by (nonlinear_arith)
        requires
            u * (c - d) <= l * d,
            u * (d - c) <= l * d,
    ;
    let (p, q) = ((u + k) * b, (u + l) * d);
    let (r, s) = ((u - k) * b, (u - l) * d);
    let (x, y) = (u * a, u * c);
    assert(x * y <= p * q) by (nonlinear_arith)
        requires
            0 <= x <= p,
            0 <= y <= q,
    ;
    assert(0 <= r && 0 <= s) by (nonlinear_arith)
        requires
            r == (u - k) * b,
            s == (u - l) * d,
            b >= 0,
            d >= 0,
            k <= u,
            l <= u,
    ;
    assert(r * s <= x * y) by (nonlinear_arith)
        requires
            0 <= r <= x,
            0 <= s <= y,
    ;
    let (m, n) = (a * c, b * d);
    assert(n >= 0) by (nonlinear_arith)
        requires
            n == b * d,
            b >= 0,
            d >= 0,
    ;
    assert(x * y == u * (u * m)) by (nonlinear_arith)
        requires
            x == u * a,
            y == u * c,
            m == a * c,
    ;
    assert(p * q == ((u + k) * (u + l)) * n) by (nonlinear_arith)
        requires
            p == (u + k) * b,
            q == (u + l) * d,
            n == b * d,
    ;
    assert(r * s == ((u - k) * (u - l)) * n) by (nonlinear_arith)
        requires
            r == (u - k) * b,
            s == (u - l) * d,
            n == b * d,
    ;
    assert(k * l <= u) by (nonlinear_arith)
        requires
            0 <= k <= 0x1_0000,
            0 <= l <= 0x1_0000,
            u == 0x20_0000_0000_0000,
    ;
    let t = k + l + 1;
    assert((u + k) * (u + l) <= u * (u + t) && u * (u - t) <= (u - k) * (u - l)) by (nonlinear_arith)
        requires
            0 <= k * l <= u,
            t == k + l + 1,
    ;
    assert(k * l >= 0) by (nonlinear_arith)
        requires
            0 <= k,
            0 <= l,
    ;
    assert(((u + k) * (u + l)) * n <= (u * (u + t)) * n && (u * (u - t)) * n <= ((u - k) * (u - l))
        * n) by (nonlinear_arith)
        requires
            (u + k) * (u + l) <= u * (u + t),
            u * (u - t) <= (u - k) * (u - l),
            n >= 0,
    ;
    assert(u * m <= (u + t) * n && (u - t) * n <= u * m) by (nonlinear_arith)
        requires
            u * (u * m) <= (u * (u + t)) * n,
            (u * (u - t)) * n <= u * (u * m),
            u == 0x20_0000_0000_0000,
    ;
    assert(u * (m - n) <= t * n && u * (n - m) <= t * n) by (nonlinear_arith)
        requires
            u * m <= (u + t) * n,
            (u - t) * n <= u * m,
    ;
}

/// A number close to one that is close to a third is close to that.
pub proof fn lemma_close_trans(a: int, b: int, k: int, c: int, l: int)
    requires
        close(a, b, k),
        close(b, c, l),
        b >= 0,
        c >= 0,
        0 <= k <= 0x1_0000,
        0 <= l <= 0x1_0000,
    ensures
        close(a, c, k + l + 1),
{
    let u = parts();
    let t = k + l + 1;
    // the first difference, in parts of the third number
    assert(u * (k * b) <= (k * (u + l)) * c) by (nonlinear_arith)
        requires
            u * (b - c) <= l * c,
            0 <= k,
    ;
    assert((k * (u + l)) * c <= (u * (k + 1)) * c) by (nonlinear_arith)
        requires
            0 <= k <= 0x1_0000,
            0 <= l <= 0x1_0000,
            u == 0x20_0000_0000_0000,
            c >= 0,
    ;
    assert(k * b <= (k + 1) * c) by (nonlinear_arith)
        requires
            u * (k * b) <= (u * (k + 1)) * c,
            u == 0x20_0000_0000_0000,
    ;
    assert((k + 1) * c + l * c == t * c) by (nonlinear_arith)
        requires
            t == k + l + 1,
    ;
    assert(u * (a - c) == u * (a - b) + u * (b - c)) by (nonlinear_arith);
    assert(u * (c - a) == u * (c - b) + u * (b - a)) by (nonlinear_arith);
}

/// Quotients of close numbers are close: of `a / c` and `b / d`, written without division.
pub proof fn lemma_close_quotient(a: int, b: int, k: int, c: int, d: int, l: int)
    requires
        close(a, b, k),
        close(c, d, l),
        a >= 0,
        b >= 0,
        c >= 0,
        d >= 0,
        0 <= k <= 0x1_0000,
        0 <= l <= 0x1_0000,
    ensures
        close(a * d, b * c, k + l + 1),
{
    lemma_close_swap(c, d, l);
    // `d` is close to `c`, with one part more in 2^36
    let u = parts();
    assert(u * a <= (u + k) * b && (u - k) * b <= u * a) by (nonlinear_arith)
        requires
            u * (a - b) <= k * b,
            u * (b - a) <= k * b,
    ;
    assert(u * c <= (u + l) * d && (u - l) * d <= u * c) by (nonlinear_arith)
        requires
            u * (c - d) <= l * d,
            u * (d - c) <= l * d,
    ;
    let t = k + l + 1;
    let (m, n) = (a * d, b * c);
    assert(k * l >= 0 && l * t >= 0 && l * t <= u && k * l <= u) by (nonlinear_arith)
        requires
            0 <= k <= 0x1_0000,
            0 <= l <= 0x1_0000,
            t == k + l + 1,
            u == 0x20_0000_0000_0000,
    ;
    // u a (u - l) d <= (u + k) b u c
    let (x, p) = (u * a, (u + k) * b);
    let (y, q) = ((u - l) * d, u * c);
    assert(0 <= x && 0 <= y) by (nonlinear_arith)
        requires
            x == u * a,
            y == (u - l) * d,
            a >= 0,
            d >= 0,
            l <= u,
            u > 0,
    ;
    assert(x * y <= p * q) by (nonlinear_arith)
        requires
            0 <= x <= p,
            0 <= y <= q,
    ;
    assert(x * y == u * ((u - l) * m)) by (nonlinear_arith)
        requires
            x == u * a,
            y == (u - l) * d,
            m == a * d,
    ;
    assert(p * q == u * ((u + k) * n)) by (nonlinear_arith)
        requires
            p == (u + k) * b,
            q == u * c,
            n == b * c,
    ;
    assert((u - l) * m <= (u + k) * n) by (nonlinear_arith)
        requires
            u * ((u - l) * m) <= u * ((u + k) * n),
            u > 0,
    ;
    // (u - k) b u c <= u a (u + l) d
    let (r, s) = ((u - k) * b, (u + l) * d);
    assert(0 <= r && 0 <= q) by (nonlinear_arith)
        requires
            r == (u - k) * b,
            q == u * c,
            b >= 0,
            c >= 0,
            k <= u,
            u > 0,
    ;
    assert(r * q <= x * s) by (nonlinear_arith)
        requires
            0 <= r <= x,
            0 <= q <= s,
    ;
    assert(r * q == u * ((u - k) * n)) by (nonlinear_arith)
        requires
            r == (u - k) * b,
            q == u * c,
            n == b * c,
    ;
    assert(x * s == u * ((u + l) * m)) by (nonlinear_arith)
        requires
            x == u * a,
            s == (u + l) * d,
            m == a * d,
    ;
    assert((u - k) * n <= (u + l) * m) by (nonlinear_arith)
        requires
            u * ((u - k) * n) <= u * ((u + l) * m),
            u > 0,
    ;
    assert(m >= 0 && n >= 0) by (nonlinear_arith)
        requires
            m == a * d,
            n == b * c,
            a >= 0,
            b >= 0,
            c >= 0,
            d >= 0,
    ;
    // u m <= (u + t) n
    assert((u + k) * u <= (u + t) * (u - l)) by (nonlinear_arith)
        requires
            l * t <= u,
            t == k + l + 1,
    ;
    assert((u - t) * (u + l) <= (u - k) * u) by (nonlinear_arith)
        requires
            l * t >= 0,
            t == k + l + 1,
            u > 0,
    ;
    let (g, h) = (u - l, u + l);
    assert(u * (g * m) <= ((u + t) * g) * n) by (nonlinear_arith)
        requires
            g * m <= (u + k) * n,
            (u + k) * u <= (u + t) * g,
            n >= 0,
            u > 0,
    ;
    assert(u * m <= (u + t) * n) by (nonlinear_arith)
        requires
            u * (g * m) <= ((u + t) * g) * n,
            g > 0,
    ;
    assert(((u - t) * h) * n <= u * (h * m)) by (nonlinear_arith)
        requires
            (u - k) * n <= h * m,
            (u - t) * h <= (u - k) * u,
            n >= 0,
            u > 0,
    ;
    assert((u - t) * n <= u * m) by (nonlinear_arith)
        requires
            ((u - t) * h) * n <= u * (h * m),
            h > 0,
    ;
    assert(u * (m - n) <= t * n && u * (n - m) <= t * n) by (nonlinear_arith)
        requires
            u * m <= (u + t) * n,
            (u - t) * n <= u * m,
    ;
}

/// Closeness is symmetric, but for a part.
pub proof fn lemma_close_swap(a: int, b: int, k: int)
    requires
        close(a, b, k),
        a >= 0,
        b >= 0,
        0 <= k <= 0x1_0000,
    ensures
        close(b, a, k + 1),
{
    let u = parts();
    // (u - k) b <= u a, so k b <= (k + 1) a
    assert((u - k) * b <= u * a) by (nonlinear_arith)
        requires
            u * (b - a) <= k * b,
    ;
    assert(k * ((u - k) * b) <= k * (u * a)) by (nonlinear_arith)
        requires
            (u - k) * b <= u * a,
            k >= 0,
    ;
    assert((k * u) * a <= ((k + 1) * (u - k)) * a) by (nonlinear_arith)
        requires
            0 <= k <= 0x1_0000,
            u == 0x20_0000_0000_0000,
            a >= 0,
    ;
    let g = u - k;
    assert(k * (u * a) == (k * u) * a) by (nonlinear_arith);
    assert(k * b <= (k + 1) * a) by (nonlinear_arith)
        requires
            k * (g * b) <= (k * u) * a,
            (k * u) * a <= ((k + 1) * g) * a,
            g > 0,
    ;
}

/// A common factor does not matter.
pub proof fn lemma_close_scale(a: int, b: int, k: int, m: int)
    requires
        m > 0,
    ensures
        close(a, b, k) <==> close(a * m, b * m, k),
        close(a, b, k) <==> close(m * a, m * b, k),
{
    let u = parts();
    let (x, y, z) = (u * (a - b), u * (b - a), k * b);
    assert(u * (a * m - b * m) == x * m && u * (b * m - a * m) == y * m && k * (b * m) == z * m)
        by (nonlinear_arith)
        requires
            x == u * (a - b),
            y == u * (b - a),
            z == k * b,
    ;
    assert(x <= z <==> x * m <= z * m) by (nonlinear_arith)
        requires
            m > 0,
    ;
    assert(y <= z <==> y * m <= z * m) by (nonlinear_arith)
        requires
            m > 0,
    ;
    assert(a * m == m * a && b * m == m * b) by (nonlinear_arith);
}

/// Sums of close numbers are close.
pub proof fn lemma_close_sum(a: int, b: int, c: int, d: int, k: int)
    requires
        close(a, b, k),
        close(c, d, k),
    ensures
        close(a + c, b + d, k),
{
    assert(k * (b + d) == k * b + k * d) by (nonlinear_arith);
}

/// More parts are allowed.
pub proof fn lemma_close_more(a: int, b: int, k: int, l: int)
    requires
        close(a, b, k),
        k <= l,
        b >= 0,
    ensures
        close(a, b, l),
{
    assert(k * b <= l * b) by (nonlinear_arith)
        requires
            k <= l,
            b >= 0,
    ;
}

/// Of two close pairs of numbers, the smaller and the larger are close.
pub proof fn lemma_close_order(a: int, b: int, c: int, d: int, k: int)
    requires
        close(a, b, k),
        close(c, d, k),
        b >= 0,
        d >= 0,
        0 <= k <= 0x1_0000,
    ensures
        close(least(a, c), least(b, d), k),
        close(most(a, c), most(b, d), k),
{
    let u = parts();
    assert(b <= d ==> k * b <= k * d && (u - k) * b <= (u - k) * d) by (nonlinear_arith)
        requires
            0 <= k <= u,
    ;
    assert(d <= b ==> k * d <= k * b && (u - k) * d <= (u - k) * b) by (nonlinear_arith)
        requires
            0 <= k <= u,
    ;
    assert((u - k) * b == u * b - k * b && (u - k) * d == u * d - k * d) by (nonlinear_arith);
}

/// Two numbers over the same sum keep their proportion.
pub proof fn lemma_close_proportion(v: int, a: int, k: int, w: int, b: int, l: int, t: int)
    requires
        close(v * t, a, k),
        close(w * t, b, l),
        v >= 0,
        w >= 0,
        a >= 0,
        b >= 0,
        t > 0,
        0 <= k <= 0x1000,
        0 <= l <= 0x1000,
    ensures
        close(v * b, a * w, k + l + 1),
{
    assert(v * t >= 0 && w * t >= 0) by (nonlinear_arith)
        requires
            v >= 0,
            w >= 0,
            t > 0,
    ;
    lemma_close_quotient(v * t, a, k, w * t, b, l);
    assert((v * t) * b == (v * b) * t && a * (w * t) == (a * w) * t) by (nonlinear_arith);
    lemma_close_scale(v * b, a * w, k + l + 1, t);
}

/// The smaller of two numbers.
pub open spec fn least(a: int, b: int) -> int {
    if a < b {
        a
    } else {
        b
    }
}

/// The larger of two numbers.
pub open spec fn most(a: int, b: int) -> int {
    if a < b {
        b
    } else {
        a
    }
}

/// A quotient of up to 2^926 is rounded to a number.
pub proof fn lemma_finite(p: nat, q: nat)
    requires
        q > 0,
        p <= pow2(2000) * q,
    ensures
        double().nearest(Exact::Ratio { p, q }) < INFINITE,
{
    lemma_double();
    lemma_magnitude_of_digits(double(), 1948, 0x10_0000_0000_0000);
    lemma_pow2_adds(52, 1948);
    lemma2_to64_rest();
    let b = 1949 * 0x10_0000_0000_0000nat;
    assert(double().magnitude(b) == pow2(2000));
    let m = pow2(2000);
    assert((2 * m) * q == 2 * (m * q)) by (nonlinear_arith);
    lemma_nearest_at_most(double(), Exact::Ratio { p, q }, b);
}

/// A product, unless it is very small or very large.
pub proof fn lemma_prod_close(a: F64, b: F64)
    requires
        a.plain(),
        b.plain(),
        a.mag() * b.mag() >= 0x10_0000_0000_0000 * one(),
        a.mag() * b.mag() <= pow2(2000) * one(),
    ensures
        a.prod(b).plain(),
        close((a.prod(b).mag() * one()) as int, (a.mag() * b.mag()) as int, 1),
{
    lemma_double();
    lemma_pow2_pos(1074);
    lemma_prod_pattern(a, b);
    lemma_finite(a.mag() * b.mag(), one());
    lemma_error(double(), a.mag() * b.mag(), one());
}

/// A quotient, unless it is very small or very large.
pub proof fn lemma_quot_close(a: F64, b: F64)
    requires
        a.plain(),
        b.plain(),
        b.mag() > 0,
        a.mag() * one() >= 0x10_0000_0000_0000 * b.mag(),
        a.mag() * one() <= pow2(2000) * b.mag() || b.mag() >= one(),
    ensures
        a.quot(b).plain(),
        close((a.quot(b).mag() * b.mag()) as int, (a.mag() * one()) as int, 1),
{
    lemma_double();
    lemma_pow2_pos(1074);
    lemma_mag_order(b, b);
    lemma_quot_pattern(a, b);
    let (m, q) = (a.mag(), b.mag());
    if q >= one() {
        assert(2 * (m * one()) <= (2 * m) * q) by (nonlinear_arith)
            requires
                q >= one(),
        ;
        lemma_nearest_at_most(double(), Exact::Ratio { p: m * one(), q }, a.low());
    } else {
        lemma_finite(m * one(), q);
    }
    lemma_error(double(), a.mag() * one(), b.mag());
}

/// A sum, unless it is very large.
pub proof fn lemma_sum_close(a: F64, b: F64)
    requires
        a.plain(),
        b.plain(),
        a.mag() + b.mag() <= pow2(2000),
    ensures
        a.sum(b).plain(),
        close(a.sum(b).mag() as int, (a.mag() + b.mag()) as int, 1),
{
    lemma_double();
    lemma_sum_pattern(a, b);
    assert(pow2(2000) * 1 == pow2(2000));
    lemma_finite(a.mag() + b.mag(), 1);
    lemma_units_error(a.mag() + b.mag());
}

/// A difference of a number and one that is not above it.
pub proof fn lemma_diff_close(a: F64, b: F64)
    requires
        a.plain(),
        b.plain(),
        b.mag() <= a.mag(),
    ensures
        a.diff(b).plain(),
        a.diff(b).low() == double().nearest(Exact::Ratio { p: (a.mag() - b.mag()) as nat, q: 1 }),
        a.diff(b).value() == a.diff(b).mag(),
        close(a.diff(b).mag() as int, a.mag() - b.mag(), 1),
{
    lemma_double();
    let d = (a.mag() - b.mag()) as nat;
    let n = b.negated();
    assert(n.value() == -(b.mag() as int)) by {
        lemma_mag_order(b, signed(false, 0));
    }
    lemma_units_at_most(d, a.low());
    lemma_units_error(d);
    if d == 0 {
        lemma_nearest_exact(double(), Exact::Ratio { p: 0, q: 1 }, 0);
    }
}

/// A difference of a number and a larger one is not above zero.
pub proof fn lemma_diff_below(a: F64, b: F64)
    requires
        a.finite(),
        b.finite(),
        a.value() < b.value(),
    ensures
        !a.diff(b).nan(),
        a.diff(b).value() < 0,
{
    lemma_double();
    let n = b.negated();
    assert(n.value() == -b.value()) by {
        lemma_mag_order(b, signed(false, 0));
    }
    let p = (b.value() - a.value()) as nat;
    lemma_nearest(double(), Exact::Ratio { p, q: 1 });
    lemma_units_at_least(p, 1);
    lemma_mag_order(a.diff(b), signed(false, 0));
}

/// A 64-bit whole number, one part off at most.
pub proof fn lemma_whole_close(n: u64)
    ensures
        of_whole(n as nat).plain(),
        close(of_whole(n as nat).mag() as int, n * one(), 1),
{
    lemma_double();
    lemma_whole_finite(n);
    let p = n as nat * one();
    lemma_nearest(double(), Exact::Ratio { p, q: 1 });
    lemma_units_error(p);
}

/// A fraction, one part off at most.
pub proof fn lemma_fraction_close(n: u64, d: u64)
    requires
        0 < n < 0x20_0000_0000_0000,
        0 < d < 0x20_0000_0000_0000,
    ensures
        fraction(n, d).plain(),
        fraction(n, d).mag() > 0,
        close((fraction(n, d).mag() * d) as int, (n * one()) as int, 1),
{
    lemma_double();
    lemma_whole_exact(n as nat);
    lemma_whole_exact(d as nat);
    lemma_large_one();
    let c = one();
    let (a, b) = (of_whole(n as nat), of_whole(d as nat));
    let m = pow2(2000);
    assert((n * c) as nat * c >= 0x10_0000_0000_0000 * (d * c) && (n * c) as nat * c <= m * (d * c)
        && d * c > 0) by (nonlinear_arith)
        requires
            n >= 1,
            0 < d < 0x20_0000_0000_0000,
            n < 0x20_0000_0000_0000,
            c >= 0x10_0000_0000_0000 * 0x20_0000_0000_0000,
            m >= 0x20_0000_0000_0000 * c,
    ;
    lemma_quot_close(a, b);
    let r = fraction(n, d).mag();
    assert((r * (d * c)) as int == ((r * d) as int) * c) by (nonlinear_arith);
    assert(((n * c) as nat * c) as int == ((n * c) as int) * c) by (nonlinear_arith);
    lemma_close_scale((r * d) as int, (n * c) as int, 1, c as int);
    assert(r > 0) by (nonlinear_arith)
        requires
            close((r * d) as int, (n * c) as int, 1),
            n >= 1,
            c > 0,
            r >= 0,
    ;
}

/// The number one is many units, and few of the largest.
pub proof fn lemma_large_one()
    ensures
        one() >= 0x1_0000_0000_0000_0000_0000_0000_0000_0000,
        pow2(1074) == one(),
        pow2(2000) >= 0x1_0000_0000_0000_0000_0000_0000_0000_0000_0000_0000_0000_0000 * one(),
{
    lemma_pow2_adds(64, 64);
    lemma_pow2_adds(128, 946);
    lemma_pow2_adds(128, 64);
    lemma_pow2_adds(192, 1074);
    lemma_pow2_adds(1266, 734);
    lemma2_to64();
    lemma_pow2_pos(946);
    lemma_pow2_pos(734);
    let (c, w, v) = (one(), pow2(946), pow2(734));
    assert(c >= 0x1_0000_0000_0000_0000_0000_0000_0000_0000) by (nonlinear_arith)
        requires
            c == 0x1_0000_0000_0000_0000_0000_0000_0000_0000 * w,
            w > 0,
    ;
    let m = pow2(2000);
    let z = pow2(1266);
    assert(m >= z) by (nonlinear_arith)
        requires
            m == z * v,
            v >= 1,
    ;
}

/// The number one is a great many units, and few of the largest.
pub proof fn lemma_very_large_one()
    ensures
        one()
            >= 0x1_0000_0000_0000_0000_0000_0000_0000_0000_0000_0000_0000_0000_0000_0000_0000_0000,
        pow2(2000)
            >= 0x1_0000_0000_0000_0000_0000_0000_0000_0000_0000_0000_0000_0000_0000_0000_0000_0000
            * one(),
{
    lemma_pow2_adds(64, 64);
    lemma_pow2_adds(128, 128);
    lemma_pow2_adds(256, 818);
    lemma_pow2_adds(256, 1074);
    lemma_pow2_adds(1330, 670);
    lemma2_to64();
    assert(pow2(128) == 0x1_0000_0000_0000_0000_0000_0000_0000_0000);
    let h = pow2(128);
    assert(h * h == 0x1_0000_0000_0000_0000_0000_0000_0000_0000_0000_0000_0000_0000_0000_0000_0000_0000)
        by (nonlinear_arith)
        requires
            h == 0x1_0000_0000_0000_0000_0000_0000_0000_0000,
    ;
    lemma_pow2_pos(818);
    lemma_pow2_pos(670);
    let (c, w, v) = (one(), pow2(818), pow2(670));
    assert(c
        >= 0x1_0000_0000_0000_0000_0000_0000_0000_0000_0000_0000_0000_0000_0000_0000_0000_0000)
        by (nonlinear_arith)
        requires
            c == 0x1_0000_0000_0000_0000_0000_0000_0000_0000_0000_0000_0000_0000_0000_0000_0000_0000
                * w,
            w > 0,
    ;
    let (m, z) = (pow2(2000), pow2(1330));
    assert(m >= z) by (nonlinear_arith)
        requires
            m == z * v,
            v >= 1,
    ;
}

/// Numbers from one on are at least a 2^53rd of the smaller apart.
pub proof fn lemma_gap(a: F64, b: F64)
    requires
        a.plain(),
        b.plain(),
        a.mag() < b.mag(),
        a.low() >= 0x10_0000_0000_0000,
    ensures
        parts() * (b.mag() - a.mag()) >= a.mag(),
{
    lemma_double();
    lemma_mag_order(a, b);
    lemma_magnitude_step(double(), a.low());
    let h = 0x10_0000_0000_0000nat;
    let t = a.low() % h;
    let w = pow2((a.low() / h - 1) as nat);
    let next = signed(false, a.low() + 1);
    assert(next.low() == a.low() + 1);
    lemma_mag_order(b, next);
    assert(a.mag() + w <= b.mag());
    assert(a.mag() == (h + t) * w);
    assert(0x20_0000_0000_0000 * w >= (h + t) * w) by (nonlinear_arith)
        requires
            t < h,
            h == 0x10_0000_0000_0000,
            w >= 0,
    ;
}

/// A number kept between two others.
pub open spec fn kept_within(x: int, lo: int, hi: int) -> int {
    most(lo, least(x, hi))
}

/// Numbers that are close stay so when both are kept within the same bounds.
pub proof fn lemma_close_kept(a: int, b: int, k: int, lo: int, hi: int)
    requires
        close(a, b, k),
        b >= 0,
        0 <= k <= 0x1_0000,
        0 <= lo <= hi,
    ensures
        close(kept_within(a, lo, hi), kept_within(b, lo, hi), k),
{
    assert(k * lo >= 0 && k * hi >= 0) by (nonlinear_arith)
        requires
            k >= 0,
            lo >= 0,
            hi >= 0,
    ;
    lemma_close_order(a, b, hi, hi, k);
    lemma_close_order(least(a, hi), least(b, hi), lo, lo, k);
}

/// The bounds grow with a factor.
pub proof fn lemma_kept_scaled(x: int, lo: int, hi: int, m: int)
    requires
        m > 0,
    ensures
        kept_within(x, lo, hi) * m == kept_within(x * m, lo * m, hi * m),
        m * kept_within(x, lo, hi) == kept_within(m * x, m * lo, m * hi),
{
    assert(x < hi <==> x * m < hi * m) by (nonlinear_arith)
        requires
            m > 0,
    ;
    let y = least(x, hi);
    assert(lo < y <==> lo * m < y * m) by (nonlinear_arith)
        requires
            m > 0,
    ;
    assert(x * m == m * x && lo * m == m * lo && hi * m == m * hi) by (nonlinear_arith);
    let z = kept_within(x, lo, hi);
    assert(z * m == m * z) by (nonlinear_arith);
}

/// A number that is at or above a fraction is not below the rounded fraction, and the other way
/// round.
pub proof fn lemma_threshold(x: F64, n: u64, d: u64)
    requires
        x.plain(),
        0 < n < 0x20_0000_0000_0000,
        0 < d < 0x20_0000_0000_0000,
    ensures
        d * x.mag() >= n * one() ==> fraction(n, d).at_most(x) && !x.less(fraction(n, d)),
        d * x.mag() <= n * one() ==> x.at_most(fraction(n, d)),
        parts() * (d * x.mag()) >= (parts() + 2) * (n * one()) ==> !x.at_most(fraction(n, d)),
        parts() * (d * x.mag()) <= (parts() - 2) * (n * one()) ==> x.less(fraction(n, d)),
{
    lemma_double();
    lemma_large_one();
    lemma_whole_exact(n as nat);
    lemma_whole_exact(d as nat);
    lemma_fraction_close(n, d);
    let f = fraction(n, d);
    let (a, b) = (of_whole(n as nat), of_whole(d as nat));
    lemma_quot_pattern(a, b);
    let c = one();
    let e = Exact::Ratio { p: a.mag() * c, q: b.mag() };
    let m = x.mag();
    if d * m >= n * c {
        assert(2 * (a.mag() * c) <= (2 * m) * b.mag()) by (nonlinear_arith)
            requires
                d * m >= n * c,
                a.mag() == n * c,
                b.mag() == d * c,
        ;
        lemma_nearest_at_most(double(), e, x.low());
    }
    if d * m <= n * c {
        assert(2 * (a.mag() * c) >= (2 * m) * b.mag()) by (nonlinear_arith)
            requires
                d * m <= n * c,
                a.mag() == n * c,
                b.mag() == d * c,
        ;
        lemma_nearest_at_least(double(), e, x.low());
    }
    let (v, t, w) = ((d * m) as int, (n * c) as int, (f.mag() * d) as int);
    assert(t > 0) by (nonlinear_arith)
        requires
            t == n * c,
            n >= 1,
            c > 0,
    ;
    assert(v > w ==> m > f.mag()) by (nonlinear_arith)
        requires
            v == d * m,
            w == f.mag() * d,
            d > 0,
    ;
    assert(v < w ==> m < f.mag()) by (nonlinear_arith)
        requires
            v == d * m,
            w == f.mag() * d,
            d > 0,
    ;
    lemma_order(x, f);
    lemma_order(f, x);
    lemma_mag_order(x, f);
    lemma_mag_order(f, x);
}

/// Nothing, divided by a number, is nothing.
pub proof fn lemma_zero_quot(a: F64, b: F64)
    requires
        a.plain(),
        b.plain(),
        a.mag() == 0,
        b.low() > 0,
    ensures
        a.quot(b) == signed(false, 0),
        a.quot(b).smaller(of_whole(5)).mag() == 0,
{
    lemma_double();
    lemma_zero_one();
    lemma_pow2_pos(1074);
    lemma_whole_exact(5);
    lemma_quot_pattern(a, b);
    let x = Exact::Ratio { p: a.mag() * one(), q: b.mag() };
    assert(0nat * one() == 0 && 0nat * b.mag() == 0) by (nonlinear_arith);
    lemma_nearest_exact(double(), x, 0);
}

/// A fraction of a number.
pub proof fn lemma_part_close(n: u64, d: u64, x: F64)
    requires
        0 < n <= 100,
        0 < d <= 100,
        x.plain(),
        0x1000_0000_0000_0000 <= x.mag() <= 0x1_0000_0000_0000_0000_0000_0000 * one(),
    ensures
        fraction(n, d).prod(x).plain(),
        x.prod(fraction(n, d)) == fraction(n, d).prod(x),
        close(d * fraction(n, d).prod(x).value(), n * x.value(), 3),
{
    lemma_double();
    lemma_large_one();
    lemma_fraction_close(n, d);
    let f = fraction(n, d);
    let c = one() as int;
    let (k, m) = (f.mag() as int, x.mag() as int);
    let big = pow2(2000) as int;
    assert(n * c >= c && n * c <= 100 * c) by (nonlinear_arith)
        requires
            1 <= n <= 100,
            c >= 0,
    ;
    assert(200 * k >= c && k <= 200 * c) by (nonlinear_arith)
        requires
            2 * (k * d) >= c,
            k * d <= 2 * (100 * c),
            1 <= d <= 100,
            k >= 0,
    ;
    assert(k * m >= 0x10_0000_0000_0000 * c && k * m <= big * c) by (nonlinear_arith)
        requires
            200 * k >= c,
            k <= 200 * c,
            0x1000_0000_0000_0000 <= m <= 0x1_0000_0000_0000_0000_0000_0000 * c,
            c > 0,
            big >= 0x1_0000_0000_0000_0000_0000_0000_0000_0000_0000_0000_0000_0000 * c,
    {
        assert(k * m >= k * 0x1000_0000_0000_0000);
        assert(k * m <= (200 * c) * m);
        assert((200 * c) * m <= (200 * c) * (0x1_0000_0000_0000_0000_0000_0000 * c));
    }
    lemma_prod_close(f, x);
    assert(f.mag() * x.mag() == x.mag() * f.mag()) by (nonlinear_arith);
    lemma_prod_pattern(f, x);
    lemma_prod_pattern(x, f);
    let r = f.prod(x).mag() as int;
    lemma_close_scale(r * c, k * m, 1, d as int);
    lemma_close_scale(k * d, n * c, 1, m);
    assert(m * (k * d) == d * (k * m) && m * (n * c) == (n * m) * c && d * (r * c) == (d * r) * c)
        by (nonlinear_arith);
    assert(d * (k * m) >= 0 && (n * m) * c >= 0) by (nonlinear_arith)
        requires
            d >= 0,
            k >= 0,
            m >= 0,
            n >= 0,
            c >= 0,
    ;
    lemma_close_trans((d * r) * c, d * (k * m), 1, (n * m) * c, 1);
    lemma_close_scale(d * r, n * m, 3, c);
}

/// Nothing, times a number, is nothing.
pub proof fn lemma_zero_prod(a: F64, b: F64)
    requires
        a.plain(),
        b.plain(),
        b.mag() == 0,
    ensures
        a.prod(b).plain(),
        a.prod(b).mag() == 0,
{
    lemma_double();
    lemma_pow2_pos(1074);
    lemma_prod_pattern(a, b);
    let x = Exact::Ratio { p: a.mag() * b.mag(), q: one() };
    assert(a.mag() * b.mag() == 0) by (nonlinear_arith)
        requires
            b.mag() == 0,
    ;
    assert(0nat * one() == 0) by (nonlinear_arith);
    lemma_nearest_exact(double(), x, 0);
}

} // verus!
