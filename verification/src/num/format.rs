//! The binary interchange formats: what a bit pattern stands for, and which
//! pattern is nearest to an exact quantity.
//!
//! A pattern without its sign bit is a number `b`. The finite patterns and the
//! pattern of infinity are ordered as the magnitudes they stand for, so the
//! pattern nearest to a quantity is found between two neighbours. Magnitudes are
//! counted in units of the smallest positive number of the format: every finite
//! number is a whole number of units.
use vstd::arithmetic::div_mod::lemma_fundamental_div_mod_converse;
use vstd::arithmetic::power2::{lemma_pow2_pos, lemma_pow2_unfold, pow2};
use vstd::prelude::*;

verus! {

/// A binary format.
#[derive(Clone, Copy)]
pub struct Format {
    /// The weight of the hidden bit: two to the number of fraction bits.
    pub hidden: u64,
    /// The exponent field of infinity.
    pub top: u64,
    /// The number one is two to this power, in units.
    pub one_exp: u64,
}

/// The 64-bit format.
pub open spec fn double() -> Format {
    Format { hidden: 0x10_0000_0000_0000, top: 2047, one_exp: 1074 }
}

/// The 32-bit format.
pub open spec fn single() -> Format {
    Format { hidden: 0x80_0000, top: 255, one_exp: 149 }
}

/// A nonnegative exact quantity, in units of a format.
pub enum Exact {
    /// The quotient `p / q`.
    Ratio { p: nat, q: nat },
    /// The square root of `n`.
    Root { n: nat },
}

impl Exact {
    pub open spec fn valid(self) -> bool {
        match self {
            Exact::Ratio { p, q } => q > 0,
            Exact::Root { n } => true,
        }
    }

    /// A number with the sign of "twice the quantity, less `y`".
    pub open spec fn twice_minus(self, y: nat) -> int {
        match self {
            Exact::Ratio { p, q } => 2 * p - y * q,
            Exact::Root { n } => 4 * n - y * y,
        }
    }

    /// The quantity times two to the power `k`.
    pub open spec fn scaled(self, k: nat) -> Exact {
        match self {
            Exact::Ratio { p, q } => Exact::Ratio { p: p * pow2(k), q },
            Exact::Root { n } => Exact::Root { n: n * (pow2(k) * pow2(k)) },
        }
    }
}

impl Format {
    /// Formats with an even hidden-bit weight and room for a normal number.
    pub open spec fn valid(self) -> bool {
        &&& self.hidden >= 2
        &&& self.hidden % 2 == 0
        &&& self.top >= 2
        &&& self.hidden * self.top <= 0x7fff_ffff_ffff_ffff
        &&& self.hidden <= 0x10_0000_0000_0000
        &&& self.top <= 2047
        &&& 64 <= self.one_exp <= 1074
    }

    /// The pattern of infinity.
    pub open spec fn inf(self) -> nat {
        (self.hidden * self.top) as nat
    }

    /// The number of units that the pattern `b` stands for. The pattern of
    /// infinity stands for the power of two that follows the largest finite
    /// number.
    pub open spec fn magnitude(self, b: nat) -> nat {
        if b < self.hidden {
            b
        } else {
            (self.hidden + b % (self.hidden as nat)) as nat * pow2(
                (b / (self.hidden as nat) - 1) as nat,
            )
        }
    }

    /// Pattern `b` is nearest to `x`, with ties going to the even pattern.
    pub open spec fn is_nearest(self, x: Exact, b: nat) -> bool {
        &&& b <= self.inf()
        &&& b < self.inf() ==> {
            let d = x.twice_minus(self.magnitude(b) + self.magnitude(b + 1));
            d < 0 || (d == 0 && b % 2 == 0)
        }
        &&& b > 0 ==> {
            let d = x.twice_minus(self.magnitude((b - 1) as nat) + self.magnitude(b));
            d > 0 || (d == 0 && b % 2 == 0)
        }
    }

    /// The pattern nearest to `x`.
    pub open spec fn nearest(self, x: Exact) -> nat {
        choose|b: nat| self.is_nearest(x, b)
    }
}

/// The pattern made of an exponent `e` above the subnormal range and the digits
/// `t` stands for `t` times two to the power `e`.
pub proof fn lemma_magnitude_of_digits(f: Format, e: nat, t: nat)
    requires
        f.valid(),
        t < 2 * f.hidden,
        t >= f.hidden || e == 0,
    ensures
        f.magnitude((e * f.hidden + t) as nat) == t * pow2(e),
{
    let h = f.hidden as int;
    let b = e * h + t;
    assert(e * h >= 0) by (nonlinear_arith)
        requires
            e >= 0,
            h >= 0,
    ;
    if t < f.hidden {
        assert(e * h == 0) by (nonlinear_arith)
            requires
                e == 0,
        ;
        vstd::arithmetic::power2::lemma2_to64();
    } else {
        assert(b == (e + 1) * h + (t - h)) by (nonlinear_arith)
            requires
                b == e * h + t,
        ;
        lemma_fundamental_div_mod_converse(b, h, (e + 1) as int, t - h);
    }
}

/// The step from a pattern to the next one.
pub proof fn lemma_magnitude_step(f: Format, b: nat)
    requires
        f.valid(),
    ensures
        b < f.hidden ==> f.magnitude(b + 1) == f.magnitude(b) + 1,
        b >= f.hidden ==> f.magnitude(b + 1) == f.magnitude(b) + pow2(
            (b / (f.hidden as nat) - 1) as nat,
        ),
        f.magnitude(b) < f.magnitude(b + 1),
{
    let h = f.hidden as nat;
    vstd::arithmetic::div_mod::lemma_fundamental_div_mod(b as int, h as int);
    let e = b / h;
    let t = b % h;
    assert(h * e == e * h) by (nonlinear_arith);
    if b < h {
        if b + 1 == h {
            lemma_magnitude_of_digits(f, 0, h);
            vstd::arithmetic::power2::lemma2_to64();
        }
    } else {
        assert(e >= 1) by (nonlinear_arith)
            requires
                b >= h,
                b == h * e + t,
                0 <= t < h,
                h > 0,
                e >= 0,
        ;
        let k = (e - 1) as nat;
        lemma_pow2_pos(k);
        let m = (h + t) as nat;
        assert(b == k * h + m) by (nonlinear_arith)
            requires
                b == e * h + t,
                k == e - 1,
                m == h + t,
        ;
        lemma_magnitude_of_digits(f, k, m);
        if t + 1 < h {
            lemma_magnitude_of_digits(f, k, m + 1);
            assert((m + 1) * pow2(k) == m * pow2(k) + pow2(k)) by (nonlinear_arith);
        } else {
            assert(b + 1 == e * h + h);
            lemma_magnitude_of_digits(f, e, h);
            lemma_pow2_unfold(e);
            assert(h * pow2(e) == m * pow2(k) + pow2(k)) by (nonlinear_arith)
                requires
                    pow2(e) == 2 * pow2(k),
                    m == 2 * h - 1,
            ;
        }
    }
}

/// Larger patterns stand for larger magnitudes.
pub proof fn lemma_magnitude_monotone(f: Format, a: nat, b: nat)
    requires
        f.valid(),
        a < b,
    ensures
        f.magnitude(a) < f.magnitude(b),
    decreases b - a,
{
    lemma_magnitude_step(f, (b - 1) as nat);
    if a < b - 1 {
        lemma_magnitude_monotone(f, a, (b - 1) as nat);
    }
}

/// The comparison with `y` falls as `y` grows.
pub proof fn lemma_twice_minus_decreases(x: Exact, y: nat, z: nat)
    requires
        x.valid(),
        y <= z,
    ensures
        x.twice_minus(z) <= x.twice_minus(y),
        y < z ==> x.twice_minus(z) < x.twice_minus(y),
{
    match x {
        Exact::Ratio { p, q } => {
            assert(y * q <= z * q && (y < z ==> y * q < z * q)) by (nonlinear_arith)
                requires
                    q > 0,
                    y <= z,
            ;
        },
        Exact::Root { n } => {
            assert(y * y <= z * z && (y < z ==> y * y < z * z)) by (nonlinear_arith)
                requires
                    0 <= y <= z,
            ;
        },
    }
}

/// Scaling both sides keeps the outcome of the comparison.
pub proof fn lemma_scaled(x: Exact, k: nat, y: nat)
    requires
        x.valid(),
    ensures
        x.scaled(k).valid(),
        x.scaled(k).twice_minus(y * pow2(k)) > 0 <==> x.twice_minus(y) > 0,
        x.scaled(k).twice_minus(y * pow2(k)) == 0 <==> x.twice_minus(y) == 0,
        x.scaled(k).twice_minus(y * pow2(k)) < 0 <==> x.twice_minus(y) < 0,
{
    lemma_pow2_pos(k);
    let c = pow2(k);
    match x {
        Exact::Ratio { p, q } => {
            let d = 2 * p - y * q;
            let s = 2 * (p * c) - (y * c) * q;
            assert(s == d * c) by (nonlinear_arith)
                requires
                    d == 2 * p - y * q,
                    s == 2 * (p * c) - (y * c) * q,
            ;
            assert((s > 0 <==> d > 0) && (s == 0 <==> d == 0)) by (nonlinear_arith)
                requires
                    s == d * c,
                    c > 0,
            ;
        },
        Exact::Root { n } => {
            let d = 4 * n - y * y;
            let s = 4 * (n * (c * c)) - (y * c) * (y * c);
            let cc = c * c;
            assert(cc > 0) by (nonlinear_arith)
                requires
                    cc == c * c,
                    c > 0,
            ;
            assert(s == d * cc) by (nonlinear_arith)
                requires
                    d == 4 * n - y * y,
                    cc == c * c,
                    s == 4 * (n * (c * c)) - (y * c) * (y * c),
            ;
            assert((s > 0 <==> d > 0) && (s == 0 <==> d == 0)) by (nonlinear_arith)
                requires
                    s == d * cc,
                    cc > 0,
            ;
        },
    }
}

/// No two patterns are nearest to one quantity.
pub proof fn lemma_nearest_unique(f: Format, x: Exact, a: nat, b: nat)
    requires
        f.valid(),
        x.valid(),
        f.is_nearest(x, a),
        f.is_nearest(x, b),
    ensures
        a == b,
{
    lemma_nearest_not_below(f, x, a, b);
    lemma_nearest_not_below(f, x, b, a);
}

proof fn lemma_nearest_not_below(f: Format, x: Exact, a: nat, b: nat)
    requires
        f.valid(),
        x.valid(),
        f.is_nearest(x, a),
        f.is_nearest(x, b),
    ensures
        a >= b,
{
    if a < b {
        let y = f.magnitude(a) + f.magnitude(a + 1);
        let z = f.magnitude((b - 1) as nat) + f.magnitude(b);
        if a + 1 < b {
            lemma_magnitude_monotone(f, a, (b - 1) as nat);
            lemma_magnitude_monotone(f, a + 1, b);
            lemma_twice_minus_decreases(x, y, z);
        } else {
            assert((b - 1) as nat == a);
            assert(a + 1 == b);
        }
    }
}

/// A pattern that is nearest is the nearest one.
pub proof fn lemma_nearest_is(f: Format, x: Exact, b: nat)
    requires
        f.valid(),
        x.valid(),
        f.is_nearest(x, b),
    ensures
        f.nearest(x) == b,
{
    lemma_nearest_unique(f, x, b, f.nearest(x));
}

/// Between two neighbours, the middle decides.
pub proof fn lemma_nearest_between(f: Format, x: Exact, b: nat, up: bool)
    requires
        f.valid(),
        x.valid(),
        b < f.inf(),
        x.twice_minus(2 * f.magnitude(b)) >= 0,
        x.twice_minus(2 * f.magnitude(b + 1)) < 0,
        ({
            let d = x.twice_minus(f.magnitude(b) + f.magnitude(b + 1));
            up <==> (d > 0 || (d == 0 && b % 2 == 1))
        }),
    ensures
        f.is_nearest(
            x,
            if up {
                b + 1
            } else {
                b
            },
        ),
{
    lemma_magnitude_step(f, b);
    lemma_magnitude_step(f, b + 1);
    if up {
        lemma_twice_minus_decreases(
            x,
            2 * f.magnitude(b + 1),
            f.magnitude(b + 1) + f.magnitude(b + 2),
        );
        assert((b + 1 - 1) as nat == b);
    } else if b > 0 {
        lemma_magnitude_step(f, (b - 1) as nat);
        assert((b - 1) as nat + 1 == b);
        lemma_twice_minus_decreases(
            x,
            f.magnitude((b - 1) as nat) + f.magnitude(b),
            2 * f.magnitude(b),
        );
    }
}

/// From the magnitude of infinity on, the nearest pattern is infinity.
pub proof fn lemma_nearest_overflow(f: Format, x: Exact)
    requires
        f.valid(),
        x.valid(),
        x.twice_minus(2 * f.magnitude(f.inf())) >= 0,
    ensures
        f.is_nearest(x, f.inf()),
{
    let b = f.inf();
    assert(b > 0) by (nonlinear_arith)
        requires
            b == f.hidden * f.top,
            f.hidden > 0,
            f.top > 0,
    ;
    lemma_magnitude_step(f, (b - 1) as nat);
    assert((b - 1) as nat + 1 == b);
    lemma_twice_minus_decreases(
        x,
        f.magnitude((b - 1) as nat) + f.magnitude(b),
        2 * f.magnitude(b),
    );
}

proof fn lemma_nearest_search(f: Format, x: Exact, b: nat)
    requires
        f.valid(),
        x.valid(),
        b < f.inf(),
        x.twice_minus(2 * f.magnitude(b + 1)) < 0,
    ensures
        exists|r: nat| f.is_nearest(x, r),
    decreases b,
{
    if x.twice_minus(2 * f.magnitude(b)) >= 0 {
        let d = x.twice_minus(f.magnitude(b) + f.magnitude(b + 1));
        let up = d > 0 || (d == 0 && b % 2 == 1);
        lemma_nearest_between(f, x, b, up);
        if up {
            assert(f.is_nearest(x, b + 1));
        } else {
            assert(f.is_nearest(x, b));
        }
    } else {
        if b == 0 {
            match x {
                Exact::Ratio { p, q } => {
                    assert(0nat * q == 0) by (nonlinear_arith);
                },
                Exact::Root { n } => {},
            }
        } else {
            assert((b - 1) as nat + 1 == b);
            lemma_nearest_search(f, x, (b - 1) as nat);
        }
    }
}

/// Every quantity has a nearest pattern.
pub proof fn lemma_nearest(f: Format, x: Exact)
    requires
        f.valid(),
        x.valid(),
    ensures
        f.is_nearest(x, f.nearest(x)),
        f.nearest(x) <= f.inf(),
{
    if x.twice_minus(2 * f.magnitude(f.inf())) >= 0 {
        lemma_nearest_overflow(f, x);
    } else {
        assert(f.inf() > 0) by (nonlinear_arith)
            requires
                f.inf() == f.hidden * f.top,
                f.hidden > 0,
                f.top > 0,
        ;
        let b = (f.inf() - 1) as nat;
        assert(b + 1 == f.inf());
        lemma_nearest_search(f, x, b);
    }
}

/// A quantity at or above a pattern's magnitude is not rounded below the pattern.
pub proof fn lemma_nearest_at_least(f: Format, x: Exact, b: nat)
    requires
        f.valid(),
        x.valid(),
        b <= f.inf(),
        x.twice_minus(2 * f.magnitude(b)) >= 0,
    ensures
        b <= f.nearest(x),
{
    lemma_nearest(f, x);
    let r = f.nearest(x);
    if r < b {
        if r + 1 < b {
            lemma_magnitude_monotone(f, r + 1, b);
        }
        lemma_magnitude_monotone(f, r, b);
        lemma_twice_minus_decreases(x, f.magnitude(r) + f.magnitude(r + 1), 2 * f.magnitude(b));
    }
}

/// A quantity at or below a pattern's magnitude is not rounded above the pattern.
pub proof fn lemma_nearest_at_most(f: Format, x: Exact, b: nat)
    requires
        f.valid(),
        x.valid(),
        x.twice_minus(2 * f.magnitude(b)) <= 0,
    ensures
        f.nearest(x) <= b,
{
    lemma_nearest(f, x);
    let r = f.nearest(x);
    if b < r {
        let y = f.magnitude((r - 1) as nat) + f.magnitude(r);
        lemma_magnitude_monotone(f, b, r);
        if b < r - 1 {
            lemma_magnitude_monotone(f, b, (r - 1) as nat);
        }
        lemma_twice_minus_decreases(x, 2 * f.magnitude(b), y);
    }
}

/// A quantity below the middle between a pattern and the next is not rounded above the
/// pattern.
pub proof fn lemma_nearest_below_middle(f: Format, x: Exact, b: nat)
    requires
        f.valid(),
        x.valid(),
        x.twice_minus(f.magnitude(b) + f.magnitude(b + 1)) < 0,
    ensures
        f.nearest(x) <= b,
{
    lemma_nearest(f, x);
    let r = f.nearest(x);
    if b < r {
        let y = f.magnitude((r - 1) as nat) + f.magnitude(r);
        if b < r - 1 {
            lemma_magnitude_monotone(f, b, (r - 1) as nat);
            lemma_magnitude_monotone(f, b + 1, r);
        }
        lemma_twice_minus_decreases(x, f.magnitude(b) + f.magnitude(b + 1), y);
    }
}

/// Rounding keeps the order of two quotients with one denominator.
pub proof fn lemma_nearest_monotone(f: Format, p: nat, s: nat, q: nat)
    requires
        f.valid(),
        q > 0,
        p <= s,
    ensures
        f.nearest(Exact::Ratio { p, q }) <= f.nearest(Exact::Ratio { p: s, q }),
{
    let (x, y) = (Exact::Ratio { p, q }, Exact::Ratio { p: s, q });
    lemma_nearest(f, x);
    lemma_nearest(f, y);
    let (a, b) = (f.nearest(x), f.nearest(y));
    if b < a {
        let lo = f.magnitude(b) + f.magnitude(b + 1);
        let hi = f.magnitude((a - 1) as nat) + f.magnitude(a);
        if b < a - 1 {
            lemma_magnitude_monotone(f, b, (a - 1) as nat);
            lemma_magnitude_monotone(f, b + 1, a);
        }
        lemma_twice_minus_decreases(x, lo, hi);
        assert(p == s);
    }
}

} // verus!
