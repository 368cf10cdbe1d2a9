//! Rounding an exact quantity, given by its leading binary digits, to the nearest
//! pattern of a format.
use vstd::arithmetic::power2::{
    lemma_pow2_adds, lemma_pow2_pos, lemma_pow2_strictly_increases, lemma_pow2_unfold, pow2,
};
use vstd::prelude::*;

use crate::num::format::{
    lemma_magnitude_monotone, lemma_magnitude_of_digits, lemma_nearest_between,
    lemma_nearest_is, lemma_nearest_overflow, lemma_scaled, lemma_twice_minus_decreases, Exact,
    Format,
};

verus! {

/// Twice the number with the whole part `t` and, if `half` holds, one half more.
pub open spec fn twice(t: nat, half: bool) -> nat {
    if half {
        2 * t + 1
    } else {
        2 * t
    }
}

/// Twice the quantity `x` lies between `h` and `h + 1` times two to the power `e`;
/// it is more than `h` times that power exactly when `rest` holds.
pub open spec fn bracket(x: Exact, h: nat, e: int, rest: bool) -> bool {
    let big = x.scaled(4096);
    let u = pow2((e + 4096) as nat);
    &&& e >= -4096
    &&& big.twice_minus(h * u) >= 0
    &&& rest <==> big.twice_minus(h * u) > 0
    &&& big.twice_minus((h + 1) * u) < 0
}

/// Dropping the last digit.
pub proof fn lemma_bracket_shift(x: Exact, h: nat, e: int, rest: bool)
    requires
        x.valid(),
        bracket(x, h, e, rest),
    ensures
        bracket(x, h / 2, e + 1, rest || h % 2 == 1),
{
    let big = x.scaled(4096);
    let u = pow2((e + 4096) as nat);
    let v = pow2((e + 1 + 4096) as nat);
    lemma_scaled(x, 4096, 0);
    lemma_pow2_unfold((e + 1 + 4096) as nat);
    lemma_pow2_pos((e + 4096) as nat);
    let g = h / 2;
    if h % 2 == 0 {
        assert(g * v == h * u) by (nonlinear_arith)
            requires
                v == 2 * u,
                h == 2 * g,
        ;
    } else {
        assert(g * v < h * u) by (nonlinear_arith)
            requires
                v == 2 * u,
                h == 2 * g + 1,
                u > 0,
        ;
        lemma_twice_minus_decreases(big, g * v, h * u);
    }
    assert((h + 1) * u <= (g + 1) * v) by (nonlinear_arith)
        requires
            v == 2 * u,
            h <= 2 * g + 1,
            u > 0,
    ;
    lemma_twice_minus_decreases(big, (h + 1) * u, (g + 1) * v);
}

/// Appending a zero digit to an exact value.
pub proof fn lemma_bracket_unshift(x: Exact, h: nat, e: int)
    requires
        x.valid(),
        e > -4096,
        bracket(x, h, e, false),
    ensures
        bracket(x, 2 * h, e - 1, false),
{
    let big = x.scaled(4096);
    let u = pow2((e + 4096) as nat);
    let v = pow2((e - 1 + 4096) as nat);
    lemma_scaled(x, 4096, 0);
    lemma_pow2_unfold((e + 4096) as nat);
    lemma_pow2_pos((e - 1 + 4096) as nat);
    assert((2 * h) * v == h * u && (2 * h) * v < (2 * h + 1) * v) by (nonlinear_arith)
        requires
            u == 2 * v,
            v > 0,
    ;
    lemma_twice_minus_decreases(big, (2 * h) * v, (2 * h + 1) * v);
}

proof fn lemma_round_up_or_down(
    f: Format,
    x: Exact,
    t: nat,
    half: bool,
    rest: bool,
    e: nat,
    b: nat,
    up: bool,
)
    requires
        f.valid(),
        x.valid(),
        t < 2 * f.hidden,
        t >= f.hidden || e == 0,
        b == e * f.hidden + t,
        bracket(x, twice(t, half), e as int, rest),
        up == (half && (rest || b % 2 == 1)),
    ensures
        b >= f.inf() ==> f.is_nearest(x, f.inf()),
        b < f.inf() ==> f.is_nearest(
            x,
            if up {
                b + 1
            } else {
                b
            },
        ),
{
    let h = twice(t, half);
    let c = pow2(e);
    let u = pow2(e + 4096);
    lemma_pow2_adds(e, 4096);
    lemma_pow2_pos(e);
    assert((e as int + 4096) as nat == e + 4096);
    lemma_scaled(x, 4096, h * c);
    lemma_scaled(x, 4096, (h + 1) * c);
    assert((h * c) * pow2(4096) == h * u && ((h + 1) * c) * pow2(4096) == (h + 1) * u)
        by (nonlinear_arith)
        requires
            u == c * pow2(4096),
    ;
    lemma_magnitude_of_digits(f, e, t);
    if t + 1 < 2 * f.hidden {
        lemma_magnitude_of_digits(f, e, t + 1);
    } else {
        let hid = f.hidden as nat;
        assert(b + 1 == (e + 1) * hid + hid) by (nonlinear_arith)
            requires
                b == e * hid + t,
                t + 1 == 2 * hid,
        ;
        lemma_magnitude_of_digits(f, e + 1, hid);
        lemma_pow2_unfold(e + 1);
        assert(hid * pow2(e + 1) == (t + 1) * c) by (nonlinear_arith)
            requires
                pow2(e + 1) == 2 * c,
                t + 1 == 2 * hid,
        ;
    }
    assert(f.magnitude(b) == t * c);
    assert(f.magnitude(b + 1) == (t + 1) * c);
    assert(2 * (t * c) <= h * c && (h + 1) * c <= 2 * ((t + 1) * c)) by (nonlinear_arith)
        requires
            2 * t <= h <= 2 * t + 1,
            c > 0,
    ;
    assert(t * c + (t + 1) * c == (2 * t + 1) * c) by (nonlinear_arith);
    lemma_twice_minus_decreases(x, 2 * (t * c), h * c);
    lemma_twice_minus_decreases(x, (h + 1) * c, 2 * ((t + 1) * c));
    if b >= f.inf() {
        if b > f.inf() {
            lemma_magnitude_monotone(f, f.inf(), b);
        }
        lemma_twice_minus_decreases(x, 2 * f.magnitude(f.inf()), 2 * f.magnitude(b));
        lemma_nearest_overflow(f, x);
    } else {
        if half {
            assert(h == 2 * t + 1);
        } else {
            assert(h + 1 == 2 * t + 1);
        }
        lemma_nearest_between(f, x, b, up);
    }
}

/// The pattern nearest to the quantity `x`, of which twice the value is bracketed by
/// `h` and `h + 1` times two to the power `e`.
pub fn round(f: Format, h: u128, e: i32, rest: bool, Ghost(x): Ghost<Exact>) -> (b: u64)
    requires
        f.valid(),
        x.valid(),
        -4096 <= e <= 4096,
        bracket(x, h as nat, e as int, rest),
        rest ==> h >= 2 * f.hidden,
    ensures
        b == f.nearest(x),
        b <= f.inf(),
{
    let hidden: u64 = f.hidden;
    let mut t: u128 = h / 2;
    let mut half: bool = h % 2 == 1;
    let mut rest: bool = rest;
    let mut k: i32 = e;
    let ghost mut n: nat = 0;
    proof {
        vstd::arithmetic::power2::lemma2_to64();
        assert(t * pow2(0) == t) by (nonlinear_arith)
            requires
                pow2(0) == 1,
        ;
    }
    while t >= 2 * (hidden as u128) || k < 0
        invariant
            f.valid(),
            x.valid(),
            hidden == f.hidden,
            k == e + n,
            k <= 4096 + 128,
            -4096 <= e <= 4096,
            t * pow2(n) <= h,
            rest ==> (t >= hidden || k <= 0),
            bracket(x, twice(t as nat, half), k as int, rest),
        decreases
                t + if k < 0 {
                    -k as int
                } else {
                    0int
                },
    {
        let ghost h0: nat = twice(t as nat, half);
        let ghost t0: u128 = t;
        proof {
            lemma_bracket_shift(x, h0, k as int, rest);
            if k >= 0 && n >= 128 {
                lemma_pow2_pos(n);
                if n > 128 {
                    lemma_pow2_strictly_increases(128, n);
                }
                vstd::arithmetic::power2::lemma_pow2_adds(64, 64);
                assert(t * pow2(n) >= pow2(n)) by (nonlinear_arith)
                    requires
                        t >= 1,
                        pow2(n) > 0,
                ;
                vstd::arithmetic::power2::lemma2_to64();
                assert(false);
            }
            assert(h0 / 2 == t);
            lemma_pow2_unfold(n + 1);
            assert((t as int / 2) * pow2(n + 1) <= t * pow2(n)) by (nonlinear_arith)
                requires
                    pow2(n + 1) == 2 * pow2(n),
                    pow2(n) >= 0,
                    t >= 0,
            ;
            n = n + 1;
        }
        rest = rest || half;
        half = t % 2 == 1;
        t = t / 2;
        k = k + 1;
    }
    while t < hidden as u128 && k > 0
        invariant
            f.valid(),
            x.valid(),
            hidden == f.hidden,
            t < 2 * hidden,
            0 <= k <= 4096 + 128,
            rest ==> (t >= hidden || k <= 0),
            bracket(x, twice(t as nat, half), k as int, rest),
        decreases k,
    {
        proof {
            lemma_bracket_unshift(x, twice(t as nat, half), k as int);
        }
        t = if half {
            2 * t + 1
        } else {
            2 * t
        };
        half = false;
        k = k - 1;
    }
    if k as u64 >= f.top {
        proof {
            let b = k as nat * f.hidden as nat + t as nat;
            assert(b >= f.inf()) by (nonlinear_arith)
                requires
                    b == k as nat * f.hidden as nat + t as nat,
                    f.inf() == f.hidden * f.top,
                    k >= f.top,
                    f.hidden > 0,
                    t >= 0,
            ;
            lemma_round_up_or_down(
                f,
                x,
                t as nat,
                half,
                rest,
                k as nat,
                b,
                half && (rest || b % 2 == 1),
            );
            lemma_nearest_is(f, x, f.inf());
            assert(f.hidden * f.top == f.inf());
        }
        return hidden * f.top;
    }
    assert(k * hidden <= 2047 * 0x10_0000_0000_0000) by (nonlinear_arith)
        requires
            0 <= k < f.top,
            f.top <= 2047,
            0 <= hidden <= 0x10_0000_0000_0000,
    ;
    let b: u64 = k as u64 * hidden + t as u64;
    let inf: u64 = hidden * f.top;
    let up: bool = half && (rest || b % 2 == 1);
    proof {
        lemma_round_up_or_down(f, x, t as nat, half, rest, k as nat, b as nat, up);
    }
    if b >= inf {
        proof {
            lemma_nearest_is(f, x, f.inf());
        }
        inf
    } else if up {
        proof {
            lemma_nearest_is(f, x, b as nat + 1);
        }
        b + 1
    } else {
        proof {
            lemma_nearest_is(f, x, b as nat);
        }
        b
    }
}

} // verus!
