//! Numbers of the 64-bit format.
use vstd::arithmetic::power2::{lemma_pow2_adds, lemma_pow2_pos, pow2};
use vstd::prelude::*;

use crate::num::arith::{combined, product, quotient, root, whole, whole_part};
use crate::num::format::{
    double, lemma_magnitude_monotone, lemma_magnitude_of_digits, lemma_nearest,
    lemma_nearest_monotone, Exact, Format,
};

verus! {

/// A number of the 64-bit format, by its bit pattern.
#[derive(Clone, Copy, Debug)]
pub struct F64 {
    pub bits: u64,
}

/// The weight of the sign bit.
pub const SIGN: u64 = 0x8000_0000_0000_0000;

/// The pattern of positive infinity.
pub const INFINITE: u64 = 0x7ff0_0000_0000_0000;

/// The number with the sign `negative` and the pattern `low` below the sign bit.
pub open spec fn signed(negative: bool, low: nat) -> F64 {
    F64 {
        bits: if negative {
            (low + SIGN) as u64
        } else {
            low as u64
        },
    }
}

/// What an invalid operation gives: of the patterns that stand for no number, one with the
/// sign bit clear.
pub open spec fn not_a_number() -> F64 {
    F64 { bits: 0x7ff8_0000_0000_0000 }
}

/// The number nearest to `n`.
pub open spec fn of_whole(n: nat) -> F64 {
    signed(false, double().nearest(Exact::Ratio { p: n * pow2(1074), q: 1 }))
}

/// The number nearest to the fraction `n / d` of two whole numbers below 2^53.
pub open spec fn fraction(n: u64, d: u64) -> F64 {
    of_whole(n as nat).quot(of_whole(d as nat))
}

impl F64 {
    /// The sign bit is set.
    pub open spec fn negative(self) -> bool {
        self.bits >= SIGN
    }

    /// The pattern below the sign bit.
    pub open spec fn low(self) -> nat {
        if self.bits >= SIGN {
            (self.bits - SIGN) as nat
        } else {
            self.bits as nat
        }
    }

    pub open spec fn nan(self) -> bool {
        self.low() > INFINITE
    }

    pub open spec fn infinite(self) -> bool {
        self.low() == INFINITE
    }

    pub open spec fn finite(self) -> bool {
        self.low() < INFINITE
    }

    /// The magnitude, in units of 2^-1074.
    pub open spec fn mag(self) -> nat {
        double().magnitude(self.low())
    }

    /// The value, in units of 2^-1074; that of an infinity lies beyond every finite one.
    pub open spec fn value(self) -> int {
        if self.negative() {
            -(self.mag() as int)
        } else {
            self.mag() as int
        }
    }

    /// The place of the number in the total order of all patterns.
    pub open spec fn rank(self) -> int {
        if self.negative() {
            -1 - self.low()
        } else {
            self.low() as int
        }
    }

    /// `self < other`; false where one is not a number.
    pub open spec fn less(self, other: F64) -> bool {
        !self.nan() && !other.nan() && self.value() < other.value()
    }

    /// `self <= other`; false where one is not a number.
    pub open spec fn at_most(self, other: F64) -> bool {
        !self.nan() && !other.nan() && self.value() <= other.value()
    }

    pub open spec fn negated(self) -> F64 {
        signed(!self.negative(), self.low())
    }

    pub open spec fn magnitude_of(self) -> F64 {
        signed(false, self.low())
    }

    /// The sum, correctly rounded.
    pub open spec fn sum(self, other: F64) -> F64 {
        let s = self.value() + other.value();
        if self.nan() || other.nan() {
            not_a_number()
        } else if self.infinite() {
            if other.infinite() && self.negative() != other.negative() {
                not_a_number()
            } else {
                self
            }
        } else if other.infinite() {
            other
        } else if s == 0 {
            signed(self.negative() && other.negative(), 0)
        } else {
            signed(
                s < 0,
                double().nearest(
                    Exact::Ratio {
                        p: if s < 0 {
                            (-s) as nat
                        } else {
                            s as nat
                        },
                        q: 1,
                    },
                ),
            )
        }
    }

    /// The difference, correctly rounded.
    pub open spec fn diff(self, other: F64) -> F64 {
        self.sum(other.negated())
    }

    /// The product, correctly rounded.
    pub open spec fn prod(self, other: F64) -> F64 {
        let negative = self.negative() != other.negative();
        if self.nan() || other.nan() {
            not_a_number()
        } else if self.infinite() || other.infinite() {
            if self.low() == 0 || other.low() == 0 {
                not_a_number()
            } else {
                signed(negative, INFINITE as nat)
            }
        } else {
            signed(
                negative,
                double().nearest(Exact::Ratio { p: self.mag() * other.mag(), q: pow2(1074) }),
            )
        }
    }

    /// The quotient, correctly rounded.
    pub open spec fn quot(self, other: F64) -> F64 {
        let negative = self.negative() != other.negative();
        if self.nan() || other.nan() {
            not_a_number()
        } else if self.infinite() {
            if other.infinite() {
                not_a_number()
            } else {
                signed(negative, INFINITE as nat)
            }
        } else if other.infinite() {
            signed(negative, 0)
        } else if other.low() == 0 {
            if self.low() == 0 {
                not_a_number()
            } else {
                signed(negative, INFINITE as nat)
            }
        } else {
            signed(
                negative,
                double().nearest(Exact::Ratio { p: self.mag() * pow2(1074), q: other.mag() }),
            )
        }
    }

    /// The square root, correctly rounded.
    pub open spec fn square_root(self) -> F64 {
        if self.low() == 0 {
            self
        } else if self.nan() || self.negative() {
            not_a_number()
        } else if self.infinite() {
            self
        } else {
            signed(false, double().nearest(Exact::Root { n: self.mag() * pow2(1074) }))
        }
    }

    /// The larger of the two; the number where one is not a number.
    pub open spec fn larger(self, other: F64) -> F64 {
        if self.nan() || self.less(other) {
            other
        } else {
            self
        }
    }

    /// The smaller of the two; the number where one is not a number.
    pub open spec fn smaller(self, other: F64) -> F64 {
        if self.nan() || other.less(self) {
            other
        } else {
            self
        }
    }

    /// The nearest number between `lo` and `hi`.
    pub open spec fn clamped(self, lo: F64, hi: F64) -> F64 {
        if self.less(lo) {
            lo
        } else if hi.less(self) {
            hi
        } else {
            self
        }
    }

    /// The whole part, kept between zero and the largest 32-bit number.
    pub open spec fn whole_u32(self) -> u32 {
        let w = self.mag() / pow2(1074);
        if self.nan() || self.negative() {
            0
        } else if w > u32::MAX {
            u32::MAX
        } else {
            w as u32
        }
    }

    /// The number with the given bit pattern.
    pub fn from_bits(bits: u64) -> (r: F64)
        ensures
            r.bits == bits,
    {
        F64 { bits }
    }

    /// The bit pattern.
    pub fn to_bits(&self) -> (r: u64)
        ensures
            r == self.bits,
    {
        self.bits
    }

    /// Zero, with the sign bit clear.
    pub fn zero() -> (r: F64)
        ensures
            r == signed(false, 0),
    {
        F64 { bits: 0 }
    }
}

/// The 64-bit format is one of the valid formats.
pub proof fn lemma_double()
    ensures
        double().valid(),
        double().inf() == INFINITE,
{
}

/// The order of the magnitudes is that of the patterns.
pub proof fn lemma_mag_order(a: F64, b: F64)
    ensures
        a.low() < b.low() <==> a.mag() < b.mag(),
        a.low() == b.low() <==> a.mag() == b.mag(),
        a.low() == 0 <==> a.mag() == 0,
{
    if a.low() < b.low() {
        lemma_magnitude_monotone(double(), a.low(), b.low());
    }
    if b.low() < a.low() {
        lemma_magnitude_monotone(double(), b.low(), a.low());
    }
    if a.low() > 0 {
        lemma_magnitude_monotone(double(), 0, a.low());
    }
}

fn layout() -> (f: Format)
    ensures
        f == double(),
{
    Format { hidden: 0x10_0000_0000_0000, top: 2047, one_exp: 1074 }
}

fn make(negative: bool, low: u64) -> (r: F64)
    requires
        low < SIGN,
    ensures
        r == signed(negative, low as nat),
{
    if negative {
        F64 { bits: low + SIGN }
    } else {
        F64 { bits: low }
    }
}

impl F64 {
    fn is_negative(&self) -> (r: bool)
        ensures
            r == self.negative(),
    {
        self.bits >= SIGN
    }

    fn pattern(&self) -> (r: u64)
        ensures
            r == self.low(),
            r < SIGN,
    {
        if self.bits >= SIGN {
            self.bits - SIGN
        } else {
            self.bits
        }
    }

    pub fn is_nan(&self) -> (r: bool)
        ensures
            r == self.nan(),
    {
        self.pattern() > INFINITE
    }

    /// `self < other`.
    pub fn lt(&self, other: &F64) -> (r: bool)
        ensures
            r == self.less(*other),
    {
        proof {
            lemma_mag_order(*self, *other);
            lemma_mag_order(*other, *self);
        }
        let (a, b) = (self.pattern(), other.pattern());
        if a > INFINITE || b > INFINITE {
            false
        } else if self.is_negative() {
            if other.is_negative() {
                b < a
            } else {
                a != 0 || b != 0
            }
        } else {
            !other.is_negative() && a < b
        }
    }

    /// `self <= other`.
    pub fn le(&self, other: &F64) -> (r: bool)
        ensures
            r == self.at_most(*other),
    {
        !self.is_nan() && !other.is_nan() && !other.lt(self)
    }

    /// `self` stands at `other` or before it in the total order of all patterns.
    pub fn total_le(&self, other: &F64) -> (r: bool)
        ensures
            r == (self.rank() <= other.rank()),
    {
        let (a, b) = (self.pattern(), other.pattern());
        if self.is_negative() {
            !other.is_negative() || b <= a
        } else {
            !other.is_negative() && a <= b
        }
    }

    pub fn neg(&self) -> (r: F64)
        ensures
            r == self.negated(),
    {
        make(!self.is_negative(), self.pattern())
    }

    pub fn abs(&self) -> (r: F64)
        ensures
            r == self.magnitude_of(),
    {
        make(false, self.pattern())
    }

    /// `self + other`.
    pub fn plus(&self, other: &F64) -> (r: F64)
        ensures
            r == self.sum(*other),
    {
        proof {
            lemma_mag_order(*self, *other);
            lemma_mag_order(*other, *self);
        }
        let (a, b) = (self.pattern(), other.pattern());
        let (na, nb) = (self.is_negative(), other.is_negative());
        if a > INFINITE || b > INFINITE {
            F64 { bits: 0x7ff8_0000_0000_0000 }
        } else if a == INFINITE {
            if b == INFINITE && na != nb {
                F64 { bits: 0x7ff8_0000_0000_0000 }
            } else {
                *self
            }
        } else if b == INFINITE {
            *other
        } else if (a == b && na != nb) || (a == 0 && b == 0) {
            make(na && nb, 0)
        } else if b <= a {
            make(na, combined(layout(), a, b, na != nb))
        } else {
            make(nb, combined(layout(), b, a, na != nb))
        }
    }

    /// `self - other`.
    pub fn minus(&self, other: &F64) -> (r: F64)
        ensures
            r == self.diff(*other),
    {
        self.plus(&other.neg())
    }

    /// `self * other`.
    pub fn times(&self, other: &F64) -> (r: F64)
        ensures
            r == self.prod(*other),
    {
        let (a, b) = (self.pattern(), other.pattern());
        let negative: bool = self.is_negative() != other.is_negative();
        if a > INFINITE || b > INFINITE {
            F64 { bits: 0x7ff8_0000_0000_0000 }
        } else if a == INFINITE || b == INFINITE {
            if a == 0 || b == 0 {
                F64 { bits: 0x7ff8_0000_0000_0000 }
            } else {
                make(negative, INFINITE)
            }
        } else {
            make(negative, product(layout(), a, b))
        }
    }

    /// `self / other`.
    pub fn over(&self, other: &F64) -> (r: F64)
        ensures
            r == self.quot(*other),
    {
        let (a, b) = (self.pattern(), other.pattern());
        let negative: bool = self.is_negative() != other.is_negative();
        if a > INFINITE || b > INFINITE {
            F64 { bits: 0x7ff8_0000_0000_0000 }
        } else if a == INFINITE {
            if b == INFINITE {
                F64 { bits: 0x7ff8_0000_0000_0000 }
            } else {
                make(negative, INFINITE)
            }
        } else if b == INFINITE {
            make(negative, 0)
        } else if b == 0 {
            if a == 0 {
                F64 { bits: 0x7ff8_0000_0000_0000 }
            } else {
                make(negative, INFINITE)
            }
        } else {
            make(negative, quotient(layout(), a, b))
        }
    }

    pub fn sqrt(&self) -> (r: F64)
        ensures
            r == self.square_root(),
    {
        let a: u64 = self.pattern();
        if a == 0 {
            *self
        } else if a > INFINITE || self.is_negative() {
            F64 { bits: 0x7ff8_0000_0000_0000 }
        } else if a == INFINITE {
            *self
        } else {
            make(false, root(layout(), a))
        }
    }

    pub fn max(&self, other: &F64) -> (r: F64)
        ensures
            r == self.larger(*other),
    {
        if self.is_nan() || self.lt(other) {
            *other
        } else {
            *self
        }
    }

    pub fn min(&self, other: &F64) -> (r: F64)
        ensures
            r == self.smaller(*other),
    {
        if self.is_nan() || other.lt(self) {
            *other
        } else {
            *self
        }
    }

    /// The number kept between two bounds.
    pub fn clamp(&self, lo: &F64, hi: &F64) -> (r: F64)
        requires
            lo.at_most(*hi),
        ensures
            r == self.clamped(*lo, *hi),
    {
        if self.lt(lo) {
            *lo
        } else if hi.lt(self) {
            *hi
        } else {
            *self
        }
    }

    /// The number nearest to a whole number.
    pub fn from_u64(n: u64) -> (r: F64)
        ensures
            r == of_whole(n as nat),
    {
        make(false, whole(layout(), n))
    }

    /// The number nearest to `n / d`.
    pub fn ratio(n: u64, d: u64) -> (r: F64)
        ensures
            r == fraction(n, d),
    {
        F64::from_u64(n).over(&F64::from_u64(d))
    }

    /// The whole part, kept to 32 bits.
    pub fn to_u32(&self) -> (r: u32)
        ensures
            r == self.whole_u32(),
    {
        let a: u64 = self.pattern();
        if a > INFINITE || self.is_negative() {
            0
        } else if a == INFINITE {
            proof {
                lemma_infinite_is_large();
            }
            u32::MAX
        } else {
            whole_part(layout(), a)
        }
    }
}

/// The magnitude of infinity exceeds every 32-bit number.
proof fn lemma_infinite_is_large()
    ensures
        double().magnitude(INFINITE as nat) / pow2(1074) > u32::MAX,
{
    lemma_magnitude_of_digits(double(), 2046, 0x10_0000_0000_0000);
    lemma_pow2_adds(1074, 972);
    lemma_pow2_pos(1074);
    lemma_pow2_pos(972);
    let w = 0x10_0000_0000_0000 * pow2(972);
    assert(0x10_0000_0000_0000 * pow2(2046) == pow2(1074) * w) by (nonlinear_arith)
        requires
            pow2(2046) == pow2(1074) * pow2(972),
            w == 0x10_0000_0000_0000 * pow2(972),
    ;
    vstd::arithmetic::div_mod::lemma_div_multiples_vanish(w as int, pow2(1074) as int);
    assert(w >= 0x10_0000_0000_0000) by (nonlinear_arith)
        requires
            w == 0x10_0000_0000_0000 * pow2(972),
            pow2(972) >= 1,
    ;
}

/// Larger whole numbers are rounded to numbers at least as large.
pub proof fn lemma_whole_monotone(m: nat, n: nat)
    requires
        m <= n,
    ensures
        of_whole(m).low() <= of_whole(n).low() <= INFINITE,
        of_whole(m).at_most(of_whole(n)),
        !of_whole(m).negative(),
{
    let (p, s) = (m * pow2(1074), n * pow2(1074));
    assert(p <= s) by (nonlinear_arith)
        requires
            p == m * pow2(1074),
            s == n * pow2(1074),
            m <= n,
    ;
    lemma_nearest_monotone(double(), p, s, 1);
    lemma_nearest(double(), Exact::Ratio { p, q: 1 });
    lemma_nearest(double(), Exact::Ratio { p: s, q: 1 });
    lemma_mag_order(of_whole(m), of_whole(n));
}

} // verus!
