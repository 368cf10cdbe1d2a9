//! Whole numbers and decimal fractions, exactly as the 64-bit format holds them.
use vstd::arithmetic::power2::{
    lemma2_to64, lemma2_to64_rest, lemma_pow2_adds, lemma_pow2_pos, lemma_pow2_strictly_increases,
    lemma_pow2_unfold, pow2,
};
use vstd::prelude::*;

use crate::num::double::{fraction, lemma_double, of_whole};
use crate::num::facts::lemma_nearest_exact;
use crate::num::format::{double, lemma_magnitude_of_digits, lemma_nearest_is, Exact};

verus! {

/// The number one, in units.
pub open spec fn one() -> nat {
    pow2(1074)
}

/// The pattern of a positive whole number, found by doubling it until the hidden bit is set.
proof fn lemma_whole_pattern(n: nat, j: nat) -> (b: nat)
    requires
        0 < n,
        n * pow2(j) < 0x20_0000_0000_0000,
    ensures
        b < 0x7ff0_0000_0000_0000,
        double().magnitude(b) == n * one(),
    decreases 0x20_0000_0000_0000 - n * pow2(j),
{
    let t = n * pow2(j);
    lemma_pow2_pos(j);
    lemma_double();
    assert(t >= pow2(j)) by (nonlinear_arith)
        requires
            t == n * pow2(j),
            n >= 1,
    ;
    lemma2_to64_rest();
    assert(j <= 52) by {
        if j > 52 {
            lemma_pow2_strictly_increases(52, j);
            lemma_pow2_unfold(53);
            if j > 53 {
                lemma_pow2_strictly_increases(53, j);
            }
        }
    }
    if t >= 0x10_0000_0000_0000 {
        let e = (1074 - j) as nat;
        lemma_magnitude_of_digits(double(), e, t);
        lemma_pow2_adds(j, e);
        assert(t * pow2(e) == n * one()) by (nonlinear_arith)
            requires
                t == n * pow2(j),
                pow2(j) * pow2(e) == one(),
        ;
        (e * 0x10_0000_0000_0000 + t) as nat
    } else {
        lemma_pow2_unfold(j + 1);
        assert(n * pow2(j + 1) == 2 * t) by (nonlinear_arith)
            requires
                t == n * pow2(j),
                pow2(j + 1) == 2 * pow2(j),
        ;
        lemma_whole_pattern(n, j + 1)
    }
}

/// Whole numbers up to 2^53 are held exactly.
pub proof fn lemma_whole_exact(n: nat)
    requires
        n < 0x20_0000_0000_0000,
    ensures
        of_whole(n).plain(),
        of_whole(n).mag() == n * one(),
        of_whole(n).value() == n * one(),
        n > 0 ==> of_whole(n).low() > 0,
{
    lemma_double();
    lemma_pow2_pos(1074);
    let x = Exact::Ratio { p: n * one(), q: 1 };
    if n == 0 {
        assert(n * one() == 0) by (nonlinear_arith)
            requires
                n == 0,
        ;
        lemma_nearest_exact(double(), x, 0);
    } else {
        assert(n * pow2(0) == n) by {
            lemma2_to64();
        }
        let b = lemma_whole_pattern(n, 0);
        lemma_nearest_exact(double(), x, b);
        assert(n * one() > 0) by (nonlinear_arith)
            requires
                n > 0,
                one() > 0,
        ;
    }
}

/// The fraction `n / d` is held as `t` over a power of two if that is nearest to it.
pub proof fn lemma_fraction_digits(n: u64, d: u64, s: nat, t: nat)
    requires
        n < 0x20_0000_0000_0000,
        0 < d < 0x20_0000_0000_0000,
        s <= 1074,
        0x10_0000_0000_0000 < t < 0x20_0000_0000_0000,
        (2 * t - 1) * d < 2 * n * pow2(s) < (2 * t + 1) * d,
    ensures
        fraction(n, d).plain(),
        fraction(n, d).low() == (1074 - s) * 0x10_0000_0000_0000 + t,
        fraction(n, d).mag() == t * pow2((1074 - s) as nat),
{
    lemma_double();
    lemma_pow2_pos(1074);
    lemma_whole_exact(n as nat);
    lemma_whole_exact(d as nat);
    let k = (1074 - s) as nat;
    let u = pow2(k);
    lemma_pow2_pos(k);
    lemma_pow2_adds(s, k);
    let (p, q) = ((n * one()) as nat * one(), (d * one()) as nat);
    let x = Exact::Ratio { p, q };
    let b = (k * 0x10_0000_0000_0000 + t) as nat;
    lemma_magnitude_of_digits(double(), k, t);
    lemma_magnitude_of_digits(double(), k, (t - 1) as nat);
    if t + 1 < 0x20_0000_0000_0000 {
        lemma_magnitude_of_digits(double(), k, t + 1);
    } else {
        lemma_magnitude_of_digits(double(), k + 1, 0x10_0000_0000_0000);
        lemma_pow2_unfold(k + 1);
        assert(b + 1 == (k + 1) * 0x10_0000_0000_0000 + 0x10_0000_0000_0000);
        assert(0x10_0000_0000_0000 * pow2(k + 1) == (t + 1) * u) by (nonlinear_arith)
            requires
                pow2(k + 1) == 2 * u,
                t + 1 == 0x20_0000_0000_0000,
        ;
    }
    assert(double().magnitude(b) == t * u);
    assert(double().magnitude((b - 1) as nat) == (t - 1) * u);
    assert(double().magnitude(b + 1) == (t + 1) * u);
    let (lo, hi) = ((t - 1) * u + t * u, t * u + (t + 1) * u);
    let w = pow2(s);
    let c = one();
    assert(2 * p == (2 * n * w) * (u * c)) by (nonlinear_arith)
        requires
            p == (n * c) * c,
            c == w * u,
    ;
    assert(hi * q == ((2 * t + 1) * d) * (u * c)) by (nonlinear_arith)
        requires
            hi == t * u + (t + 1) * u,
            q == d * c,
    ;
    assert(lo * q == ((2 * t - 1) * d) * (u * c)) by (nonlinear_arith)
        requires
            lo == (t - 1) * u + t * u,
            q == d * c,
    ;
    let (g, a, m, z) = (u * c, (2 * t - 1) * d, 2 * n * w, (2 * t + 1) * d);
    assert(a * g < m * g < z * g) by (nonlinear_arith)
        requires
            a < m < z,
            g == u * c,
            u > 0,
            c > 0,
    ;
    assert(q > 0) by (nonlinear_arith)
        requires
            q == d * c,
            d > 0,
            c > 0,
    ;
    lemma_nearest_is(double(), x, b);
}

} // verus!
