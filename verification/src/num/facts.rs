//! Facts about rounded arithmetic.
use vstd::arithmetic::power2::{
    lemma2_to64, lemma2_to64_rest, lemma_pow2_adds, lemma_pow2_pos, pow2,
};
use vstd::prelude::*;

use crate::num::double::{
    fraction, lemma_double, lemma_mag_order, lemma_whole_monotone, of_whole, signed, F64,
};
use crate::num::format::{
    double, lemma_magnitude_of_digits, lemma_nearest_at_least, lemma_nearest_at_most, Exact, Format,
};

verus! {

/// A quantity that a pattern stands for is rounded to that pattern.
pub proof fn lemma_nearest_exact(f: Format, x: Exact, b: nat)
    requires
        f.valid(),
        x.valid(),
        b <= f.inf(),
        x.twice_minus(2 * f.magnitude(b)) == 0,
    ensures
        f.nearest(x) == b,
{
    lemma_nearest_at_least(f, x, b);
    lemma_nearest_at_most(f, x, b);
}

/// Zero and one are whole numbers that the format holds.
pub proof fn lemma_zero_one()
    ensures
        of_whole(0) == signed(false, 0),
        of_whole(0).value() == 0,
        of_whole(1).bits == 0x3ff0_0000_0000_0000,
        of_whole(1).value() == pow2(1074),
        signed(false, 0).value() == 0,
        pow2(1074) > 0,
        of_whole(1).finite(),
        of_whole(0).at_most(of_whole(1)),
{
    lemma_double();
    lemma_pow2_pos(1074);
    let z = Exact::Ratio { p: 0nat * pow2(1074), q: 1 };
    assert(0nat * pow2(1074) == 0) by (nonlinear_arith);
    lemma_nearest_exact(double(), z, 0);
    lemma_magnitude_of_digits(double(), 1022, 0x10_0000_0000_0000);
    lemma_pow2_adds(1022, 52);
    lemma2_to64_rest();
    let b = 0x3ff0_0000_0000_0000nat;
    assert(double().magnitude(b) == pow2(1074));
    let x = Exact::Ratio { p: 1nat * pow2(1074), q: 1 };
    lemma_nearest_exact(double(), x, b);
}

/// A quotient of a number by a positive one that is at least as large lies between
/// zero and one.
pub proof fn lemma_quot_at_most_one(a: F64, b: F64)
    requires
        a.finite(),
        b.finite(),
        b.low() > 0,
        a.mag() <= b.mag(),
        a.negative() == b.negative(),
    ensures
        a.quot(b).finite(),
        !a.quot(b).negative(),
        a.quot(b).at_most(of_whole(1)),
        a.quot(b).low() <= of_whole(1).low(),
{
    lemma_double();
    lemma_zero_one();
    lemma_mag_order(b, b);
    let x = Exact::Ratio { p: a.mag() * pow2(1074), q: b.mag() };
    let one = of_whole(1).low();
    assert(2 * (a.mag() * pow2(1074)) <= (2 * pow2(1074)) * b.mag()) by (nonlinear_arith)
        requires
            a.mag() <= b.mag(),
    ;
    lemma_nearest_at_most(double(), x, one);
    lemma_mag_order(a.quot(b), of_whole(1));
}

/// A fraction of whole numbers that is not above one.
pub proof fn lemma_fraction_at_most_one(n: u64, d: u64)
    requires
        n <= d,
        d > 0,
    ensures
        fraction(n, d).finite(),
        !fraction(n, d).negative(),
        fraction(n, d).at_most(of_whole(1)),
{
    lemma_double();
    lemma_whole_monotone(n as nat, d as nat);
    lemma_whole_monotone(1, d as nat);
    lemma_zero_one();
    lemma_mag_order(of_whole(1), of_whole(d as nat));
    lemma_whole_finite(d);
    lemma_mag_order(of_whole(n as nat), of_whole(d as nat));
    lemma_quot_at_most_one(of_whole(n as nat), of_whole(d as nat));
}

/// No 64-bit whole number overflows the format.
pub proof fn lemma_whole_finite(n: u64)
    ensures
        of_whole(n as nat).finite(),
        !of_whole(n as nat).negative(),
        of_whole(n as nat).low() <= 0x43f0_0000_0000_0000,
{
    lemma_double();
    let p = n as nat * pow2(1074);
    let x = Exact::Ratio { p, q: 1 };
    lemma_pow2_pos(1074);
    lemma_magnitude_of_digits(double(), 1086, 0x10_0000_0000_0000);
    lemma_pow2_adds(1074, 12);
    lemma2_to64();
    let b = 0x43f0_0000_0000_0000nat;
    assert(double().magnitude(b) == 0x10_0000_0000_0000 * (pow2(1074) * 4096));
    assert(2 * p <= (2 * (0x10_0000_0000_0000 * (pow2(1074) * 4096))) * 1) by (nonlinear_arith)
        requires
            p == n as nat * pow2(1074),
            n < 0x1_0000_0000_0000_0000,
            pow2(1074) > 0,
    ;
    lemma_nearest_at_most(double(), x, b);
}

} // verus!
