//! Order and error of rounded arithmetic on numbers that are not negative.
use vstd::arithmetic::power2::{lemma2_to64, lemma_pow2_pos, pow2};
use vstd::prelude::*;

use crate::num::double::{lemma_double, lemma_mag_order, signed, F64, INFINITE};
use crate::num::facts::lemma_nearest_exact;
use crate::num::format::{
    double, lemma_magnitude_monotone, lemma_magnitude_of_digits, lemma_magnitude_step,
    lemma_nearest, lemma_nearest_at_least, lemma_nearest_at_most, lemma_nearest_monotone, Exact,
    Format,
};

verus! {

impl F64 {
    /// A number whose sign bit is clear, finite or not.
    pub open spec fn nonneg(self) -> bool {
        !self.nan() && !self.negative()
    }

    /// A finite number whose sign bit is clear.
    pub open spec fn plain(self) -> bool {
        self.finite() && !self.negative()
    }
}

/// A larger quotient is rounded to a number at least as large.
pub proof fn lemma_nearest_ratio_monotone(f: Format, p: nat, q: nat, s: nat, t: nat)
    requires
        f.valid(),
        q > 0,
        t > 0,
        p * t <= s * q,
    ensures
        f.nearest(Exact::Ratio { p, q }) <= f.nearest(Exact::Ratio { p: s, q: t }),
{
    let (x, y) = (Exact::Ratio { p, q }, Exact::Ratio { p: s, q: t });
    lemma_nearest(f, x);
    lemma_nearest(f, y);
    let (a, b) = (f.nearest(x), f.nearest(y));
    if b < a {
        let lo = f.magnitude(b) + f.magnitude(b + 1);
        let hi = f.magnitude((a - 1) as nat) + f.magnitude(a);
        if b < a - 1 {
            lemma_magnitude_monotone(f, b, (a - 1) as nat);
            lemma_magnitude_monotone(f, b + 1, a);
        }
        assert(2 * s <= lo * t);
        assert(2 * p >= hi * q);
        assert(lo == hi) by (nonlinear_arith)
            requires
                2 * s <= lo * t,
                2 * p >= hi * q,
                p * t <= s * q,
                lo <= hi,
                q > 0,
                t > 0,
        ;
        assert(2 * p - hi * q == 0 && 2 * s - lo * t == 0) by (nonlinear_arith)
            requires
                2 * s <= lo * t,
                2 * p >= hi * q,
                p * t <= s * q,
                lo == hi,
                q > 0,
                t > 0,
        ;
        if b < a - 1 {
            assert(false);
        }
    }
}

/// The pattern of a sum.
pub proof fn lemma_sum_pattern(a: F64, b: F64)
    requires
        a.plain(),
        b.plain(),
    ensures
        a.sum(b).nonneg(),
        a.sum(b).low() == double().nearest(Exact::Ratio { p: a.mag() + b.mag(), q: 1 }),
{
    lemma_double();
    let x = Exact::Ratio { p: a.mag() + b.mag(), q: 1 };
    lemma_nearest(double(), x);
    if a.mag() + b.mag() == 0 {
        lemma_nearest_exact(double(), x, 0);
    }
}

/// The pattern of a product.
pub proof fn lemma_prod_pattern(a: F64, b: F64)
    requires
        a.plain(),
        b.plain(),
    ensures
        a.prod(b).nonneg(),
        a.prod(b).low() == double().nearest(Exact::Ratio { p: a.mag() * b.mag(), q: pow2(1074) }),
{
    lemma_double();
    lemma_pow2_pos(1074);
    lemma_nearest(double(), Exact::Ratio { p: a.mag() * b.mag(), q: pow2(1074) });
}

/// The pattern of a quotient.
pub proof fn lemma_quot_pattern(a: F64, b: F64)
    requires
        a.plain(),
        b.plain(),
        b.low() > 0,
    ensures
        b.mag() > 0,
        a.quot(b).nonneg(),
        a.quot(b).low() == double().nearest(Exact::Ratio { p: a.mag() * pow2(1074), q: b.mag() }),
{
    lemma_double();
    lemma_pow2_pos(1074);
    lemma_mag_order(b, b);
    lemma_nearest(double(), Exact::Ratio { p: a.mag() * pow2(1074), q: b.mag() });
}

/// A whole number of units at or below a magnitude is not rounded above it.
pub proof fn lemma_units_at_most(p: nat, b: nat)
    requires
        p <= double().magnitude(b),
    ensures
        double().nearest(Exact::Ratio { p, q: 1 }) <= b,
{
    lemma_double();
    let m = 2 * double().magnitude(b);
    assert(m * 1 == m);
    lemma_nearest_at_most(double(), Exact::Ratio { p, q: 1 }, b);
}

/// A whole number of units at or above a magnitude is not rounded below it.
pub proof fn lemma_units_at_least(p: nat, b: nat)
    requires
        b <= INFINITE,
        p >= double().magnitude(b),
    ensures
        b <= double().nearest(Exact::Ratio { p, q: 1 }),
{
    lemma_double();
    let m = 2 * double().magnitude(b);
    assert(m * 1 == m);
    lemma_nearest_at_least(double(), Exact::Ratio { p, q: 1 }, b);
}

/// Sums grow with their parts.
pub proof fn lemma_sum_monotone(a: F64, b: F64, c: F64, d: F64)
    requires
        a.plain(),
        b.plain(),
        c.plain(),
        d.plain(),
        a.low() <= c.low(),
        b.low() <= d.low(),
    ensures
        a.sum(b).nonneg(),
        c.sum(d).nonneg(),
        a.sum(b).low() <= c.sum(d).low(),
{
    lemma_double();
    lemma_sum_pattern(a, b);
    lemma_sum_pattern(c, d);
    lemma_mag_order(a, c);
    lemma_mag_order(b, d);
    lemma_nearest_monotone(double(), a.mag() + b.mag(), c.mag() + d.mag(), 1);
}

/// A sum is not below its parts.
pub proof fn lemma_sum_above(a: F64, b: F64)
    requires
        a.plain(),
        b.plain(),
    ensures
        a.sum(b).nonneg(),
        a.low() <= a.sum(b).low(),
        b.low() <= a.sum(b).low(),
{
    lemma_double();
    lemma_sum_pattern(a, b);
    lemma_units_at_least(a.mag() + b.mag(), a.low());
    lemma_units_at_least(a.mag() + b.mag(), b.low());
}

/// Products grow with their factors.
pub proof fn lemma_prod_monotone(a: F64, b: F64, c: F64, d: F64)
    requires
        a.plain(),
        b.plain(),
        c.plain(),
        d.plain(),
        a.low() <= c.low(),
        b.low() <= d.low(),
    ensures
        a.prod(b).nonneg(),
        c.prod(d).nonneg(),
        a.prod(b).low() <= c.prod(d).low(),
{
    lemma_double();
    lemma_pow2_pos(1074);
    lemma_prod_pattern(a, b);
    lemma_prod_pattern(c, d);
    lemma_mag_order(a, c);
    lemma_mag_order(b, d);
    let (p, s) = (a.mag() * b.mag(), c.mag() * d.mag());
    assert(p <= s) by (nonlinear_arith)
        requires
            p == a.mag() * b.mag(),
            s == c.mag() * d.mag(),
            a.mag() <= c.mag(),
            b.mag() <= d.mag(),
    ;
    lemma_nearest_monotone(double(), p, s, pow2(1074));
}

/// Quotients grow with their numerators and fall with their denominators.
pub proof fn lemma_quot_monotone(a: F64, b: F64, c: F64, d: F64)
    requires
        a.plain(),
        b.plain(),
        c.plain(),
        d.plain(),
        a.low() <= c.low(),
        0 < d.low() <= b.low(),
    ensures
        a.quot(b).nonneg(),
        c.quot(d).nonneg(),
        a.quot(b).low() <= c.quot(d).low(),
{
    lemma_double();
    lemma_pow2_pos(1074);
    lemma_quot_pattern(a, b);
    lemma_quot_pattern(c, d);
    lemma_mag_order(a, c);
    lemma_mag_order(d, b);
    let one = pow2(1074);
    assert((a.mag() * one) * d.mag() <= (c.mag() * one) * b.mag()) by (nonlinear_arith)
        requires
            a.mag() <= c.mag(),
            d.mag() <= b.mag(),
    ;
    lemma_nearest_ratio_monotone(double(), a.mag() * one, b.mag(), c.mag() * one, d.mag());
}

/// Order of numbers that are not negative, by their patterns.
pub proof fn lemma_order(a: F64, b: F64)
    requires
        a.nonneg(),
        b.nonneg(),
    ensures
        a.at_most(b) <==> a.low() <= b.low(),
        a.less(b) <==> a.low() < b.low(),
        signed(false, 0).less(a) <==> a.low() > 0,
        a.at_most(signed(false, 0)) <==> a.low() == 0,
        a.value() == a.mag(),
{
    lemma_mag_order(a, b);
    lemma_mag_order(b, a);
    lemma_mag_order(signed(false, 0), a);
    lemma_mag_order(a, signed(false, 0));
}

/// The error of rounding: at most half a unit of the last place, which is at most a 2^53rd
/// of a normal number, and half the smallest number of the format below that.
pub proof fn lemma_error(f: Format, p: nat, q: nat)
    requires
        f.valid(),
        q > 0,
        f.nearest(Exact::Ratio { p, q }) < f.inf(),
    ensures
        ({
            let m = f.magnitude(f.nearest(Exact::Ratio { p, q }));
            let d = if m * q >= p {
                m * q - p
            } else {
                p - m * q
            };
            &&& p >= f.hidden * q ==> 2 * f.hidden * d <= p
            &&& p < f.hidden * q ==> 2 * d <= q
        }),
{
    let x = Exact::Ratio { p, q };
    let b = f.nearest(x);
    lemma_nearest(f, x);
    lemma_magnitude_step(f, b);
    let h = f.hidden as nat;
    let m = f.magnitude(b);
    let next = f.magnitude(b + 1);
    let up = next - m;
    assert(2 * p <= (m + next) * q);
    if b > 0 {
        lemma_magnitude_step(f, (b - 1) as nat);
    }
    if p >= m * q {
        // rounded down, or not at all
        let d = p - m * q;
        assert(2 * d <= up * q) by (nonlinear_arith)
            requires
                2 * p <= (m + next) * q,
                d == p - m * q,
                up == next - m,
        ;
        if b < h {
            if p >= h * q {
                assert(b == h - 1) by {
                    if b < h - 1 {
                        assert(false) by (nonlinear_arith)
                            requires
                                2 * p <= (m + next) * q,
                                m == b,
                                next == b + 1,
                                b < h - 1,
                                p >= h * q,
                                q > 0,
                        ;
                    }
                }
                assert(false) by (nonlinear_arith)
                    requires
                        2 * p <= (m + next) * q,
                        m == h - 1,
                        next == h,
                        p >= h * q,
                        q > 0,
                ;
            }
            assert(2 * d <= q) by (nonlinear_arith)
                requires
                    2 * d <= up * q,
                    up == 1,
            ;
        } else {
            lemma_step_size(f, b);
            assert(2 * h * d <= p) by (nonlinear_arith)
                requires
                    2 * d <= up * q,
                    h * up <= m,
                    p >= m * q,
                    q > 0,
                    h >= 0,
            ;
            lemma_magnitude_least(f, b);
            assert(p >= h * q) by (nonlinear_arith)
                requires
                    p >= m * q,
                    m >= h,
                    q > 0,
            ;
        }
    } else {
        assert(b > 0) by {
            if b == 0 {
                assert(m * q == 0) by (nonlinear_arith)
                    requires
                        m == 0,
                ;
            }
        }
        let before = f.magnitude((b - 1) as nat);
        let down = m - before;
        assert(2 * p >= (before + m) * q);
        let d = m * q - p;
        assert(2 * d <= down * q) by (nonlinear_arith)
            requires
                2 * p >= (before + m) * q,
                d == m * q - p,
                down == m - before,
        ;
        if b - 1 < h {
            if p >= h * q {
                assert(m <= h);
                assert(false) by (nonlinear_arith)
                    requires
                        p >= h * q,
                        p < m * q,
                        m <= h,
                        q > 0,
                ;
            }
            assert(2 * d <= q) by (nonlinear_arith)
                requires
                    2 * d <= down * q,
                    down == 1,
            ;
        } else {
            lemma_step_size(f, (b - 1) as nat);
            assert(before * q <= p) by (nonlinear_arith)
                requires
                    2 * p >= (before + m) * q,
                    before <= m,
                    q > 0,
            ;
            assert(2 * h * d <= p) by (nonlinear_arith)
                requires
                    2 * d <= down * q,
                    h * down <= before,
                    before * q <= p,
                    q > 0,
                    h >= 0,
            ;
            lemma_magnitude_least(f, (b - 1) as nat);
            assert(p >= h * q) by (nonlinear_arith)
                requires
                    p >= before * q,
                    before >= h,
                    q > 0,
            ;
        }
    }
}

/// Normal magnitudes are at least the weight of the hidden bit.
proof fn lemma_magnitude_least(f: Format, b: nat)
    requires
        f.valid(),
        b >= f.hidden,
    ensures
        f.magnitude(b) >= f.hidden,
{
    lemma_magnitude_of_digits(f, 0, f.hidden as nat);
    lemma2_to64();
    if b > f.hidden {
        lemma_magnitude_monotone(f, f.hidden as nat, b);
    }
}

/// The step from a normal magnitude to the next is at most the magnitude over the weight of
/// the hidden bit.
pub proof fn lemma_step_size(f: Format, b: nat)
    requires
        f.valid(),
        b >= f.hidden,
    ensures
        f.hidden * (f.magnitude(b + 1) - f.magnitude(b)) <= f.magnitude(b),
{
    lemma_magnitude_step(f, b);
    let h = f.hidden as nat;
    let e = (b / h - 1) as nat;
    let t = b % h;
    assert(h * pow2(e) <= (h + t) * pow2(e)) by (nonlinear_arith)
        requires
            t >= 0,
    ;
}

/// The error of rounding a whole number of units: at most a 2^53rd of it.
pub proof fn lemma_units_error(p: nat)
    requires
        double().nearest(Exact::Ratio { p, q: 1 }) < INFINITE,
    ensures
        ({
            let m = double().magnitude(double().nearest(Exact::Ratio { p, q: 1 }));
            0x20_0000_0000_0000 * (m - p) <= p && 0x20_0000_0000_0000 * (p - m) <= p
        }),
{
    lemma_double();
    let x = Exact::Ratio { p, q: 1 };
    let m = double().magnitude(double().nearest(x));
    if p < 0x10_0000_0000_0000 {
        assert((2 * p) * 1 == 2 * p);
        lemma_nearest_exact(double(), x, p);
    } else {
        lemma_error(double(), p, 1);
        let h = double().hidden;
        assert(m * 1 == m);
        assert(0x20_0000_0000_0000 * (m - p) <= p && 0x20_0000_0000_0000 * (p - m) <= p)
            by (nonlinear_arith)
            requires
                h == 0x10_0000_0000_0000,
                m >= p ==> 2 * h * (m - p) <= p,
                m < p ==> 2 * h * (p - m) <= p,
        ;
    }
}

} // verus!
