//! Arithmetic on the magnitudes of finite patterns.
use vstd::arithmetic::power2::{lemma_pow2_adds, lemma_pow2_pos, lemma_pow2_unfold, pow2};
use vstd::prelude::*;

use crate::num::format::{lemma_magnitude_monotone, Exact, Format};
use crate::num::round::{bracket, round};

verus! {

/// A quotient that is a whole number of half powers.
proof fn lemma_bracket_exact(p: nat, q: nat, h: nat, e: int)
    requires
        q > 0,
        e >= -4096,
        2 * (p * pow2(4096)) == (h * pow2((e + 4096) as nat)) * q,
    ensures
        bracket(Exact::Ratio { p, q }, h, e, false),
{
    let u = pow2((e + 4096) as nat);
    lemma_pow2_pos((e + 4096) as nat);
    assert((h * u) * q < ((h + 1) * u) * q) by (nonlinear_arith)
        requires
            u > 0,
            q > 0,
    ;
}

/// A quotient strictly between two.
proof fn lemma_bracket_inexact(p: nat, q: nat, h: nat, e: int)
    requires
        q > 0,
        e >= -4096,
        (h * pow2((e + 4096) as nat)) * q < 2 * (p * pow2(4096)),
        2 * (p * pow2(4096)) < ((h + 1) * pow2((e + 4096) as nat)) * q,
    ensures
        bracket(Exact::Ratio { p, q }, h, e, true),
{
}

/// The digits and the exponent of a finite pattern.
pub fn digits(f: Format, low: u64) -> (r: (u64, i32))
    requires
        f.valid(),
        low < f.inf(),
    ensures
        f.magnitude(low as nat) == r.0 * pow2(r.1 as nat),
        r.0 < 2 * f.hidden,
        0 <= r.1 <= 2045,
        r.1 > 0 ==> r.0 >= f.hidden,
        low == 0 <==> r.0 == 0,
{
    let expo: u64 = low / f.hidden;
    proof {
        vstd::arithmetic::power2::lemma2_to64();
        vstd::arithmetic::div_mod::lemma_fundamental_div_mod(low as int, f.hidden as int);
        assert(expo < f.top) by (nonlinear_arith)
            requires
                low == f.hidden * expo + low as int % f.hidden as int,
                low as int % f.hidden as int >= 0,
                low < f.hidden * f.top,
                f.hidden > 0,
        ;
        if expo == 0 {
            assert(low < f.hidden) by (nonlinear_arith)
                requires
                    low == f.hidden * expo + low as int % f.hidden as int,
                    (low as int % f.hidden as int) < f.hidden,
                    expo == 0,
            ;
            assert(low * pow2(0) == low) by (nonlinear_arith)
                requires
                    pow2(0) == 1,
            ;
        } else {
            assert(low >= f.hidden) by (nonlinear_arith)
                requires
                    low == f.hidden * expo + low as int % f.hidden as int,
                    low as int % f.hidden as int >= 0,
                    expo >= 1,
                    f.hidden > 0,
            ;
        }
    }
    if expo == 0 {
        (low, 0)
    } else {
        (f.hidden + low % f.hidden, expo as i32 - 1)
    }
}

/// The whole number `n`, rounded.
pub fn whole(f: Format, n: u64) -> (b: u64)
    requires
        f.valid(),
    ensures
        b == f.nearest(Exact::Ratio { p: n as nat * pow2(f.one_exp as nat), q: 1 }),
        b <= f.inf(),
{
    let ghost k = f.one_exp as nat;
    let ghost p = n as nat * pow2(k);
    proof {
        lemma_pow2_adds(k, 4096);
        assert(2 * (p * pow2(4096)) == ((2 * n as nat) * pow2(k + 4096)) * 1) by (nonlinear_arith)
            requires
                p == n as nat * pow2(k),
                pow2(k + 4096) == pow2(k) * pow2(4096),
        ;
        assert((k as int + 4096) as nat == k + 4096);
        lemma_bracket_exact(p, 1, 2 * n as nat, k as int);
    }
    round(f, 2 * (n as u128), f.one_exp as i32, false, Ghost(Exact::Ratio { p, q: 1 }))
}

/// The product of two magnitudes, rounded.
pub fn product(f: Format, a: u64, b: u64) -> (r: u64)
    requires
        f.valid(),
        a < f.inf(),
        b < f.inf(),
    ensures
        r == f.nearest(
            Exact::Ratio {
                p: f.magnitude(a as nat) * f.magnitude(b as nat),
                q: pow2(f.one_exp as nat),
            },
        ),
        r <= f.inf(),
{
    let (ma, ea) = digits(f, a);
    let (mb, eb) = digits(f, b);
    let ghost k = f.one_exp as nat;
    let ghost p = f.magnitude(a as nat) * f.magnitude(b as nat);
    assert(ma * mb <= 0x20_0000_0000_0000 * 0x20_0000_0000_0000) by (nonlinear_arith)
        requires
            0 <= ma < 0x20_0000_0000_0000,
            0 <= mb < 0x20_0000_0000_0000,
    ;
    let h: u128 = 2 * (ma as u128 * mb as u128);
    let e: i32 = ea + eb - f.one_exp as i32;
    proof {
        lemma_pow2_pos(k);
        let i = ea as nat;
        let j = eb as nat;
        let n = (e + 4096) as nat;
        lemma_pow2_adds(i, j);
        lemma_pow2_adds(i + j, 4096);
        lemma_pow2_adds(n, k);
        assert(n + k == i + j + 4096);
        let x = pow2(i);
        let y = pow2(j);
        let z = pow2(4096);
        let (w, v) = (pow2(n), pow2(k));
        assert(2 * (p * z) == (h as nat * w) * v) by (nonlinear_arith)
            requires
                p == (ma as nat * x) * (mb as nat * y),
                h == 2 * (ma as nat * mb as nat),
                w * v == (x * y) * z,
        ;
        lemma_bracket_exact(p, pow2(k), h as nat, e as int);
    }
    round(f, h, e, false, Ghost(Exact::Ratio { p, q: pow2(f.one_exp as nat) }))
}

/// Nonzero digits with the leading one in the place of the hidden bit.
fn normalized(f: Format, low: u64) -> (r: (u64, i32))
    requires
        f.valid(),
        0 < low < f.inf(),
    ensures
        -64 <= r.1 <= 2045,
        f.hidden <= r.0 < 2 * f.hidden,
        f.magnitude(low as nat) * pow2(64) == r.0 * pow2((r.1 + 64) as nat),
{
    let (m0, e0) = digits(f, low);
    let mut m: u64 = m0;
    let mut e: i32 = e0;
    proof {
        let i = e0 as nat;
        lemma_pow2_adds(i, 64);
        assert((e0 + 64) as nat == i + 64);
        assert((m0 * pow2(i)) * pow2(64) == m0 * pow2(i + 64)) by (nonlinear_arith)
            requires
                pow2(i + 64) == pow2(i) * pow2(64),
        ;
    }
    let ghost n: nat = 0;
    proof {
        vstd::arithmetic::power2::lemma2_to64();
        assert(pow2(n) == 1);
    }
    while m < f.hidden
        invariant
            f.valid(),
            0 < m < 2 * f.hidden,
            m < f.hidden ==> e == -(n as int),
            e <= 2045,
            e >= -64,
            pow2(n) <= m || m >= f.hidden,
            f.magnitude(low as nat) * pow2(64) == m * pow2((e + 64) as nat),
        decreases 2 * f.hidden - m,
    {
        proof {
            if n >= 60 {
                if n > 60 {
                    vstd::arithmetic::power2::lemma_pow2_strictly_increases(60, n);
                }
                vstd::arithmetic::power2::lemma2_to64_rest();
            }
            lemma_pow2_unfold((e + 64) as nat);
            lemma_pow2_unfold(n + 1);
            let c = pow2((e - 1 + 64) as nat);
            assert((e + 64 - 1) as nat == (e - 1 + 64) as nat);
            assert(m * (2 * c) == (2 * m) * c) by (nonlinear_arith);
            n = n + 1;
        }
        m = 2 * m;
        e = e - 1;
    }
    (m, e)
}

/// The quotient of two magnitudes, rounded.
pub fn quotient(f: Format, a: u64, b: u64) -> (r: u64)
    requires
        f.valid(),
        a < f.inf(),
        0 < b < f.inf(),
    ensures
        r == f.nearest(
            Exact::Ratio {
                p: f.magnitude(a as nat) * pow2(f.one_exp as nat),
                q: f.magnitude(b as nat),
            },
        ),
        r <= f.inf(),
{
    let (mb, eb) = digits(f, b);
    let ghost k = f.one_exp as nat;
    let ghost p = f.magnitude(a as nat) * pow2(k);
    let ghost q = f.magnitude(b as nat);
    proof {
        lemma_pow2_pos(eb as nat);
        assert(q > 0) by (nonlinear_arith)
            requires
                q == mb * pow2(eb as nat),
                mb > 0,
                pow2(eb as nat) > 0,
        ;
    }
    if a == 0 {
        proof {
            assert(p == 0) by (nonlinear_arith)
                requires
                    p == f.magnitude(a as nat) * pow2(k),
                    f.magnitude(a as nat) == 0,
            ;
            assert(2 * (p * pow2(4096)) == (0nat * pow2(4096)) * q) by (nonlinear_arith)
                requires
                    p == 0,
            ;
            lemma_bracket_exact(p, q, 0, 0);
        }
        return round(f, 0, 0, false, Ghost(Exact::Ratio { p, q }));
    }
    let (ma, ea) = normalized(f, a);
    let wide: u128 = ma as u128 * 0x4_0000_0000_0000_0000;
    let h: u128 = wide / (mb as u128);
    let rest: bool = wide % (mb as u128) != 0;
    let e: i32 = ea - eb + f.one_exp as i32 - 65;
    proof {
        let d = mb as int;
        vstd::arithmetic::div_mod::lemma_fundamental_div_mod(wide as int, d);
        assert(d * (h as int) == (h as int) * d) by (nonlinear_arith);
        assert(h >= 2 * f.hidden) by (nonlinear_arith)
            requires
                wide == (h as int) * d + wide as int % d,
                (wide as int % d) < d,
                0 < d < 2 * f.hidden,
                f.hidden <= 0x10_0000_0000_0000,
                wide >= f.hidden * 0x4_0000_0000_0000_0000,
        ;
        // Both sides carry the common power `c`.
        let i = (ea + 64) as nat;
        let j = eb as nat;
        let n = (e + 4096) as nat;
        let c = pow2(n + j);
        lemma_pow2_pos(n + j);
        lemma_pow2_adds(n, j);
        vstd::arithmetic::power2::lemma2_to64();
        let x = f.magnitude(a as nat);
        let z = pow2(4096);
        let v = pow2(k);
        // `x * 2^64 == ma * 2^i`, so `x * 2^k * 2^4096 * 2^64 == ma * 2^(i + k + 4096)`.
        lemma_pow2_adds(i, k);
        lemma_pow2_adds(i + k, 4096);
        assert(i + k + 4096 == (n + j) + 129);
        lemma_pow2_adds(n + j, 129);
        lemma_pow2_adds(64, 64);
        lemma_pow2_adds(128, 1);
        let s = pow2(64);
        assert(pow2(129) == 2 * (s * s));
        assert(2 * (p * z) == (wide as nat) * c) by {
            let t = 2 * (p * z);
            assert(t * s == 2 * ((((x * s) * v) * z))) by (nonlinear_arith)
                requires
                    t == 2 * (p * z),
                    p == x * v,
            ;
            assert(x * s == ma * pow2(i));
            assert(((ma * pow2(i)) * v) * z == ma * ((pow2(i) * v) * z)) by (nonlinear_arith);
            assert((pow2(i) * v) * z == c * (2 * (s * s)));
            assert(2 * (ma * (c * (2 * (s * s)))) == ((ma * (4 * s)) * c) * s) by (nonlinear_arith);
            assert(wide == ma * (4 * s));
            assert(t * s == ((wide as nat) * c) * s);
            assert(t == (wide as nat) * c) by (nonlinear_arith)
                requires
                    t * s == ((wide as nat) * c) * s,
                    s > 0,
            ;
        }
        let w = pow2(n);
        assert((h as nat * w) * q == ((h as int) * d) * c && ((h + 1) as nat * w) * q == (((
        h as int) + 1) * d) * c) by (nonlinear_arith)
            requires
                q == d * pow2(j),
                c == w * pow2(j),
        ;
        let hd = (h as int) * d;
        let hd1 = ((h as int) + 1) * d;
        assert(hd1 == hd + d) by (nonlinear_arith)
            requires
                hd == (h as int) * d,
                hd1 == ((h as int) + 1) * d,
        ;
        if rest {
            assert(hd * c < wide * c && wide * c < hd1 * c) by (nonlinear_arith)
                requires
                    hd < wide < hd1,
                    c > 0,
            ;
            lemma_bracket_inexact(p, q, h as nat, e as int);
        } else {
            assert(hd == wide);
            lemma_bracket_exact(p, q, h as nat, e as int);
        }
    }
    round(f, h, e, rest, Ghost(Exact::Ratio { p, q }))
}

/// Two to the power `n`.
fn power_of_two(n: i32) -> (r: u128)
    requires
        0 <= n <= 64,
    ensures
        r == pow2(n as nat),
        r <= 0x1_0000_0000_0000_0000,
{
    let mut r: u128 = 1;
    let mut i: i32 = 0;
    proof {
        vstd::arithmetic::power2::lemma2_to64();
    }
    while i < n
        invariant
            0 <= i <= n <= 64,
            r == pow2(i as nat),
            r <= 0x1_0000_0000_0000_0000,
        decreases n - i,
    {
        proof {
            lemma_pow2_unfold((i + 1) as nat);
            if i + 1 < 64 {
                vstd::arithmetic::power2::lemma_pow2_strictly_increases((i + 1) as nat, 64);
            }
            vstd::arithmetic::power2::lemma2_to64();
        }
        r = 2 * r;
        i = i + 1;
    }
    r
}

/// The sum of two magnitudes, or with `minus` what the larger has more than the
/// smaller.
pub open spec fn combination(f: Format, a: nat, b: nat, minus: bool) -> nat {
    if minus {
        (f.magnitude(a) - f.magnitude(b)) as nat
    } else {
        f.magnitude(a) + f.magnitude(b)
    }
}

/// The sum or the difference of two magnitudes, the larger one first, rounded.
pub fn combined(f: Format, a: u64, b: u64, minus: bool) -> (r: u64)
    requires
        f.valid(),
        b <= a < f.inf(),
    ensures
        r == f.nearest(
            Exact::Ratio { p: combination(f, a as nat, b as nat, minus), q: 1 },
        ),
        r <= f.inf(),
{
    let (ma, ea) = digits(f, a);
    let (mb, eb) = digits(f, b);
    let ghost p = combination(f, a as nat, b as nat, minus);
    let ghost (va, vb) = (f.magnitude(a as nat) as int, f.magnitude(b as nat) as int);
    proof {
        if b < a {
            lemma_magnitude_monotone(f, b as nat, a as nat);
        }
        lemma_digits_ordered(f, ma as nat, ea as nat, mb as nat, eb as nat);
    }
    if ea - eb <= 64 {
        let shift: u128 = power_of_two(ea - eb);
        assert(ma * shift <= 0x20_0000_0000_0000 * 0x1_0000_0000_0000_0000) by (nonlinear_arith)
            requires
                0 <= ma < 0x20_0000_0000_0000,
                0 <= shift <= 0x1_0000_0000_0000_0000,
        ;
        let wide: u128 = ma as u128 * shift;
        proof {
            let c = pow2(eb as nat);
            lemma_pow2_pos(eb as nat);
            lemma_pow2_adds((ea - eb) as nat, eb as nat);
            assert((ea - eb) as nat + eb as nat == ea as nat);
            assert(va == wide * c) by (nonlinear_arith)
                requires
                    va == ma * (shift * c),
                    wide == ma * shift,
            ;
            assert(wide >= mb || !minus) by (nonlinear_arith)
                requires
                    va == wide * c,
                    vb == mb * c,
                    vb <= va,
                    c > 0,
            ;
        }
        let total: u128 = if minus {
            wide - mb as u128
        } else {
            wide + mb as u128
        };
        proof {
            let c = pow2(eb as nat);
            let z = pow2(4096);
            lemma_pow2_adds(eb as nat, 4096);
            assert((eb + 4096) as nat == eb as nat + 4096);
            assert(p == total * c) by (nonlinear_arith)
                requires
                    va == wide * c,
                    vb == mb * c,
                    (minus && total == wide - mb && p == va - vb) || (!minus && total == wide + mb
                        && p == va + vb),
            ;
            assert(2 * (p * z) == ((2 * total as nat) * (c * z)) * 1) by (nonlinear_arith)
                requires
                    p == total * c,
            ;
            lemma_bracket_exact(p, 1, 2 * total as nat, eb as int);
        }
        return round(f, 2 * total, eb, false, Ghost(Exact::Ratio { p, q: 1 }));
    }
    if mb == 0 {
        proof {
            let c = pow2(ea as nat);
            let z = pow2(4096);
            lemma_pow2_adds(ea as nat, 4096);
            assert((ea + 4096) as nat == ea as nat + 4096);
            assert(vb == 0) by (nonlinear_arith)
                requires
                    vb == mb * pow2(eb as nat),
                    mb == 0,
            ;
            assert(2 * (p * z) == ((2 * ma as nat) * (c * z)) * 1) by (nonlinear_arith)
                requires
                    p == ma * c,
            ;
            lemma_bracket_exact(p, 1, 2 * ma as nat, ea as int);
        }
        return round(f, 2 * (ma as u128), ea, false, Ghost(Exact::Ratio { p, q: 1 }));
    }
    // The smaller magnitude is less than one part in 2^9 of the last digit of the larger.
    let wide: u128 = ma as u128 * 512;
    let h: u128 = if minus {
        wide - 1
    } else {
        wide
    };
    proof {
        let n = (ea - 8 + 4096) as nat;
        let u = pow2(n);
        let z = pow2(4096);
        lemma_pow2_pos(n);
        lemma_pow2_adds(ea as nat, 4096);
        lemma_pow2_adds(n, 8);
        assert(n + 8 == ea as nat + 4096);
        lemma_pow2_adds(eb as nat, 4096);
        lemma_pow2_pos(eb as nat + 4096);
        let low = pow2(eb as nat + 4096);
        lemma_pow2_adds(eb as nat + 4096, 54);
        if eb as nat + 4096 + 54 < n {
            vstd::arithmetic::power2::lemma_pow2_strictly_increases(eb as nat + 4096 + 54, n);
        }
        vstd::arithmetic::power2::lemma2_to64();
        vstd::arithmetic::power2::lemma2_to64_rest();
        assert(2 * (va * z) == wide * u) by (nonlinear_arith)
            requires
                va == ma * pow2(ea as nat),
                pow2(ea as nat) * z == u * 256,
                wide == ma * 512,
        ;
        assert(0 < 2 * (vb * z) < u) by (nonlinear_arith)
            requires
                vb == mb * pow2(eb as nat),
                pow2(eb as nat) * z == low,
                low * 0x40_0000_0000_0000 <= u,
                0 < mb < 0x20_0000_0000_0000,
                low > 0,
        ;
        let t = 2 * (p * z);
        assert(t == if minus {
            2 * (va * z) - 2 * (vb * z)
        } else {
            2 * (va * z) + 2 * (vb * z)
        }) by (nonlinear_arith)
            requires
                t == 2 * (p * z),
                (minus && p == va - vb) || (!minus && p == va + vb),
        ;
        assert((wide - 1) * u == wide * u - u && (wide + 1) * u == wide * u + u)
            by (nonlinear_arith);
        lemma_bracket_inexact(p, 1, h as nat, ea - 8);
    }
    round(f, h, ea - 8, true, Ghost(Exact::Ratio { p, q: 1 }))
}

/// The larger of two magnitudes has no smaller exponent.
proof fn lemma_digits_ordered(f: Format, ma: nat, ea: nat, mb: nat, eb: nat)
    requires
        f.valid(),
        ma < 2 * f.hidden,
        mb < 2 * f.hidden,
        eb > 0 ==> mb >= f.hidden,
        mb * pow2(eb) <= ma * pow2(ea),
    ensures
        eb <= ea,
{
    if ea < eb {
        lemma_pow2_pos(ea);
        lemma_pow2_unfold(eb);
        if ea < eb - 1 {
            vstd::arithmetic::power2::lemma_pow2_strictly_increases(ea, (eb - 1) as nat);
        }
        let (x, y) = (pow2(ea), pow2((eb - 1) as nat));
        assert(ma * x < mb * (2 * y)) by (nonlinear_arith)
            requires
                ma < 2 * f.hidden,
                mb >= f.hidden,
                0 < x <= y,
        ;
    }
}

/// The whole part of the square root of `n`.
fn whole_root(n: u128) -> (r: u128)
    requires
        n < 0x1_0000_0000_0000_0000 * 0x4_0000_0000_0000,
    ensures
        r * r <= n < (r + 1) * (r + 1),
{
    let mut lo: u128 = 0;
    let mut hi: u128 = 0x200_0000_0000_0000;
    while hi - lo > 1
        invariant
            lo < hi <= 0x200_0000_0000_0000,
            lo * lo <= n < hi * hi,
        decreases hi - lo,
    {
        let mid: u128 = lo + (hi - lo) / 2;
        assert(mid * mid <= 0x200_0000_0000_0000 * 0x200_0000_0000_0000) by (nonlinear_arith)
            requires
                0 <= mid <= 0x200_0000_0000_0000,
        ;
        if mid * mid <= n {
            lo = mid;
        } else {
            hi = mid;
        }
    }
    assert(hi == lo + 1);
    lo
}

/// The square root of a magnitude, rounded.
pub fn root(f: Format, a: u64) -> (r: u64)
    requires
        f.valid(),
        a < f.inf(),
    ensures
        r == f.nearest(
            Exact::Root { n: f.magnitude(a as nat) * pow2(f.one_exp as nat) },
        ),
        r <= f.inf(),
{
    let ghost k = f.one_exp as nat;
    let ghost n = f.magnitude(a as nat) * pow2(k);
    if a == 0 {
        proof {
            let z = pow2(4096);
            lemma_pow2_pos(4096);
            assert(n == 0) by (nonlinear_arith)
                requires
                    n == f.magnitude(a as nat) * pow2(k),
                    f.magnitude(a as nat) == 0,
            ;
            assert(4 * (n * (z * z)) == 0 && (0nat * z) * (0nat * z) == 0 && ((0nat + 1) * z) * ((
            0nat + 1) * z) > 0) by (nonlinear_arith)
                requires
                    n == 0,
                    z > 0,
            ;
            assert(bracket(Exact::Root { n }, 0, 0, false));
        }
        return round(f, 0, 0, false, Ghost(Exact::Root { n }));
    }
    let (ma, ea) = normalized(f, a);
    let total: i32 = ea + f.one_exp as i32;
    let even: bool = total % 2 == 0;
    let m: u128 = if even {
        ma as u128
    } else {
        2 * (ma as u128)
    };
    let t: i32 = if even {
        total
    } else {
        total - 1
    };
    let wide: u128 = m * 0x1000_0000_0000_0000;
    let h: u128 = whole_root(wide);
    let rest: bool = h * h != wide;
    let e: i32 = t / 2 - 29;
    proof {
        let x = f.magnitude(a as nat);
        let z = pow2(4096);
        let w = (e + 4096) as nat;
        let u = pow2(w);
        let i = (ea + 64) as nat;
        let s = pow2(64);
        lemma_pow2_pos(w);
        lemma_pow2_pos(64);
        // `x * 2^64 == ma * 2^i`, so `4 * x * 2^k * 2^8192 * 2^64 == ma * 2^(i + k + 8194)`.
        lemma_pow2_adds(i, k);
        lemma_pow2_adds(4096, 4096);
        lemma_pow2_adds(i + k, 8192);
        lemma_pow2_adds(w, w);
        vstd::arithmetic::power2::lemma2_to64();
        vstd::arithmetic::power2::lemma2_to64_rest();
        let odd = if even {
            0nat
        } else {
            1nat
        };
        assert(i + k + 8192 == (w + w) + 64 + 58 + odd);
        lemma_pow2_adds(w + w, 64);
        lemma_pow2_adds(w + w + 64, 58);
        lemma_pow2_adds(w + w + 64 + 58, odd);
        let o = pow2(odd);
        assert(m == ma * o) by (nonlinear_arith)
            requires
                (even && m == ma && o == 1) || (!even && m == 2 * ma && o == 2),
        ;
        let g = 4 * (n * (z * z));
        assert(g == wide * (u * u)) by {
            assert(g * s == 4 * (((x * s) * pow2(k)) * (z * z))) by (nonlinear_arith)
                requires
                    g == 4 * (n * (z * z)),
                    n == x * pow2(k),
            ;
            assert(((ma * pow2(i)) * pow2(k)) * (z * z) == ma * ((pow2(i) * pow2(k)) * (z * z)))
                by (nonlinear_arith);
            assert((pow2(i) * pow2(k)) * (z * z) == (((u * u) * s) * 0x400_0000_0000_0000) * o);
            assert(4 * (ma * ((((u * u) * s) * 0x400_0000_0000_0000) * o)) == (((ma * o)
                * 0x1000_0000_0000_0000) * (u * u)) * s) by (nonlinear_arith);
            assert(g * s == (wide * (u * u)) * s);
            assert(g == wide * (u * u)) by (nonlinear_arith)
                requires
                    g * s == (wide * (u * u)) * s,
                    s > 0,
            ;
        }
        let uu = u * u;
        assert(uu > 0) by (nonlinear_arith)
            requires
                uu == u * u,
                u > 0,
        ;
        let (hh, hh1) = (h * h, (h + 1) * (h + 1));
        assert((h * u) * (h * u) == hh * uu && ((h + 1) * u) * ((h + 1) * u) == hh1 * uu)
            by (nonlinear_arith)
            requires
                uu == u * u,
                hh == h * h,
                hh1 == (h + 1) * (h + 1),
        ;
        assert(wide * uu < hh1 * uu && hh * uu <= wide * uu && (hh < wide ==> hh * uu < wide * uu))
            by (nonlinear_arith)
            requires
                hh <= wide < hh1,
                uu > 0,
        ;
        assert(bracket(Exact::Root { n }, h as nat, e as int, rest));
        if rest {
            assert(h >= 2 * f.hidden) by (nonlinear_arith)
                requires
                    wide < (h + 1) * (h + 1),
                    wide >= f.hidden * 0x1000_0000_0000_0000,
                    2 <= f.hidden <= 0x10_0000_0000_0000,
                    h >= 0,
            ;
        }
    }
    round(f, h, e, rest, Ghost(Exact::Root { n }))
}

/// The whole part of a magnitude, kept to 32 bits.
pub fn whole_part(f: Format, a: u64) -> (r: u32)
    requires
        f.valid(),
        a < f.inf(),
    ensures
        ({
            let w = f.magnitude(a as nat) / pow2(f.one_exp as nat);
            r == if w > u32::MAX {
                u32::MAX as nat
            } else {
                w
            }
        }),
{
    let (m, e) = digits(f, a);
    let d: i32 = f.one_exp as i32 - e;
    let ghost (v, k) = (f.magnitude(a as nat), f.one_exp as nat);
    let ghost c = pow2(e as nat);
    proof {
        lemma_pow2_pos(e as nat);
        lemma_pow2_pos(k);
        vstd::arithmetic::power2::lemma2_to64();
    }
    if d > 64 {
        proof {
            lemma_pow2_adds(e as nat, d as nat);
            assert(e as nat + d as nat == k);
            vstd::arithmetic::power2::lemma_pow2_strictly_increases(64, d as nat);
            assert(v < pow2(k)) by (nonlinear_arith)
                requires
                    v == m * c,
                    pow2(k) == c * pow2(d as nat),
                    m < pow2(d as nat),
                    c > 0,
            ;
            vstd::arithmetic::div_mod::lemma_basic_div(v as int, pow2(k) as int);
        }
        return 0;
    }
    if d < -64 {
        proof {
            let n = (-d) as nat;
            lemma_pow2_adds(k, n);
            assert(k + n == e as nat);
            vstd::arithmetic::power2::lemma_pow2_strictly_increases(64, n);
            let w = m * pow2(n);
            assert(v == w * pow2(k)) by (nonlinear_arith)
                requires
                    v == m * c,
                    c == pow2(k) * pow2(n),
                    w == m * pow2(n),
            ;
            vstd::arithmetic::div_mod::lemma_div_multiples_vanish(w as int, pow2(k) as int);
            assert(pow2(k) * w == w * pow2(k)) by (nonlinear_arith);
            assert(w >= pow2(n)) by (nonlinear_arith)
                requires
                    w == m * pow2(n),
                    m >= 1,
                    pow2(n) >= 0,
            ;
        }
        return u32::MAX;
    }
    let w: u128 = if d >= 0 {
        let s: u128 = power_of_two(d);
        proof {
            lemma_pow2_adds(e as nat, d as nat);
            assert(e as nat + d as nat == k);
            lemma_pow2_pos(d as nat);
            assert(m * c == c * m) by (nonlinear_arith);
            vstd::arithmetic::div_mod::lemma_div_denominator(v as int, c as int, s as int);
            vstd::arithmetic::div_mod::lemma_div_multiples_vanish(m as int, c as int);
        }
        m as u128 / s
    } else {
        let s: u128 = power_of_two(-d);
        assert(m * s <= 0x20_0000_0000_0000 * 0x1_0000_0000_0000_0000) by (nonlinear_arith)
            requires
                0 <= m < 0x20_0000_0000_0000,
                0 <= s <= 0x1_0000_0000_0000_0000,
        ;
        proof {
            let n = (-d) as nat;
            lemma_pow2_adds(k, n);
            assert(k + n == e as nat);
            let t = m * s;
            assert(v == pow2(k) * t) by (nonlinear_arith)
                requires
                    v == m * c,
                    c == pow2(k) * s,
                    t == m * s,
            ;
            vstd::arithmetic::div_mod::lemma_div_multiples_vanish(t as int, pow2(k) as int);
        }
        m as u128 * s
    };
    if w > u32::MAX as u128 {
        u32::MAX
    } else {
        w as u32
    }
}

/// A magnitude of the format `f` in the format `g`, rounded.
pub fn reformatted(f: Format, g: Format, a: u64) -> (r: u64)
    requires
        f.valid(),
        g.valid(),
        f.one_exp <= g.one_exp,
        a < f.inf(),
    ensures
        r == g.nearest(
            Exact::Ratio {
                p: f.magnitude(a as nat) * pow2((g.one_exp - f.one_exp) as nat),
                q: 1,
            },
        ),
        r <= g.inf(),
{
    let (m, e) = digits(f, a);
    let k: i32 = g.one_exp as i32 - f.one_exp as i32;
    let ghost p = f.magnitude(a as nat) * pow2(k as nat);
    proof {
        let (i, j) = (e as nat, k as nat);
        lemma_pow2_adds(i, j);
        lemma_pow2_adds(i + j, 4096);
        assert((e + k + 4096) as nat == i + j + 4096);
        assert(2 * (p * pow2(4096)) == ((2 * m as nat) * ((pow2(i) * pow2(j)) * pow2(4096))) * 1)
            by (nonlinear_arith)
            requires
                p == (m as nat * pow2(i)) * pow2(j),
        ;
        lemma_bracket_exact(p, 1, 2 * m as nat, e + k);
    }
    round(g, 2 * (m as u128), e + k, false, Ghost(Exact::Ratio { p, q: 1 }))
}

} // verus!
