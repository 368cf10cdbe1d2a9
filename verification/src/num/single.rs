//! Numbers of the 32-bit format.
use vstd::arithmetic::power2::{lemma_pow2_adds, lemma_pow2_pos, pow2};
use vstd::prelude::*;

use crate::num::arith::{product, reformatted, whole, whole_part};
use crate::num::double::{not_a_number, signed, F64, INFINITE};
use crate::num::format::{
    double, lemma_magnitude_monotone, lemma_magnitude_of_digits, single, Exact, Format,
};

verus! {

/// A number of the 32-bit format, by its bit pattern.
#[derive(Clone, Copy, Debug)]
pub struct F32 {
    pub bits: u32,
}

/// The weight of the sign bit.
pub const SIGN_32: u32 = 0x8000_0000;

/// The pattern of positive infinity.
pub const INFINITE_32: u32 = 0x7f80_0000;

/// The number with the sign `negative` and the pattern `low` below the sign bit.
pub open spec fn signed_32(negative: bool, low: nat) -> F32 {
    F32 {
        bits: if negative {
            (low + SIGN_32) as u32
        } else {
            low as u32
        },
    }
}

/// What an invalid operation gives: of the patterns that stand for no number, one with the
/// sign bit clear.
pub open spec fn not_a_number_32() -> F32 {
    F32 { bits: 0x7fc0_0000 }
}

/// The number nearest to `n`.
pub open spec fn of_whole_32(n: nat) -> F32 {
    signed_32(false, single().nearest(Exact::Ratio { p: n * pow2(149), q: 1 }))
}

impl F32 {
    pub open spec fn negative(self) -> bool {
        self.bits >= SIGN_32
    }

    /// The pattern below the sign bit.
    pub open spec fn low(self) -> nat {
        if self.bits >= SIGN_32 {
            (self.bits - SIGN_32) as nat
        } else {
            self.bits as nat
        }
    }

    pub open spec fn nan(self) -> bool {
        self.low() > INFINITE_32
    }

    pub open spec fn infinite(self) -> bool {
        self.low() == INFINITE_32
    }

    /// The magnitude, in units of 2^-149.
    pub open spec fn mag(self) -> nat {
        single().magnitude(self.low())
    }

    /// The value, in units of 2^-149; that of an infinity lies beyond every finite one.
    pub open spec fn value(self) -> int {
        if self.negative() {
            -(self.mag() as int)
        } else {
            self.mag() as int
        }
    }

    /// `self < other`; false where one is not a number.
    pub open spec fn less(self, other: F32) -> bool {
        !self.nan() && !other.nan() && self.value() < other.value()
    }

    /// The larger of the two; the number where one is not a number.
    pub open spec fn larger(self, other: F32) -> F32 {
        if self.nan() || self.less(other) {
            other
        } else {
            self
        }
    }

    /// The product, correctly rounded.
    pub open spec fn prod(self, other: F32) -> F32 {
        let negative = self.negative() != other.negative();
        if self.nan() || other.nan() {
            not_a_number_32()
        } else if self.infinite() || other.infinite() {
            if self.low() == 0 || other.low() == 0 {
                not_a_number_32()
            } else {
                signed_32(negative, INFINITE_32 as nat)
            }
        } else {
            signed_32(
                negative,
                single().nearest(Exact::Ratio { p: self.mag() * other.mag(), q: pow2(149) }),
            )
        }
    }

    /// The whole part, kept between zero and the largest 32-bit number.
    pub open spec fn whole_u32(self) -> u32 {
        let w = self.mag() / pow2(149);
        if self.nan() || self.negative() {
            0
        } else if w > u32::MAX {
            u32::MAX
        } else {
            w as u32
        }
    }

    /// The same number in the 64-bit format.
    pub open spec fn widened(self) -> F64 {
        if self.nan() {
            not_a_number()
        } else if self.infinite() {
            signed(self.negative(), INFINITE as nat)
        } else {
            signed(
                self.negative(),
                double().nearest(Exact::Ratio { p: self.mag() * pow2(925), q: 1 }),
            )
        }
    }

    /// The number with the given bit pattern.
    pub fn from_bits(bits: u32) -> (r: F32)
        ensures
            r.bits == bits,
    {
        F32 { bits }
    }

    /// The bit pattern.
    pub fn to_bits(&self) -> (r: u32)
        ensures
            r == self.bits,
    {
        self.bits
    }

    fn is_negative(&self) -> (r: bool)
        ensures
            r == self.negative(),
    {
        self.bits >= SIGN_32
    }

    fn pattern(&self) -> (r: u32)
        ensures
            r == self.low(),
            r < SIGN_32,
    {
        if self.bits >= SIGN_32 {
            self.bits - SIGN_32
        } else {
            self.bits
        }
    }

    /// `self < other`.
    pub fn lt(&self, other: &F32) -> (r: bool)
        ensures
            r == self.less(*other),
    {
        proof {
            lemma_mag_order_32(*self, *other);
            lemma_mag_order_32(*other, *self);
        }
        let (a, b) = (self.pattern(), other.pattern());
        if a > INFINITE_32 || b > INFINITE_32 {
            false
        } else if self.is_negative() {
            if other.is_negative() {
                b < a
            } else {
                a != 0 || b != 0
            }
        } else {
            !other.is_negative() && a < b
        }
    }

    pub fn max(&self, other: &F32) -> (r: F32)
        ensures
            r == self.larger(*other),
    {
        if self.pattern() > INFINITE_32 || self.lt(other) {
            *other
        } else {
            *self
        }
    }

    /// `self * other`.
    pub fn times(&self, other: &F32) -> (r: F32)
        ensures
            r == self.prod(*other),
    {
        let (a, b) = (self.pattern(), other.pattern());
        let negative: bool = self.is_negative() != other.is_negative();
        if a > INFINITE_32 || b > INFINITE_32 {
            F32 { bits: 0x7fc0_0000 }
        } else if a == INFINITE_32 || b == INFINITE_32 {
            if a == 0 || b == 0 {
                F32 { bits: 0x7fc0_0000 }
            } else {
                make_32(negative, INFINITE_32 as u64)
            }
        } else {
            make_32(negative, product(layout_32(), a as u64, b as u64))
        }
    }

    /// The number nearest to a whole number.
    pub fn from_u32(n: u32) -> (r: F32)
        ensures
            r == of_whole_32(n as nat),
    {
        make_32(false, whole(layout_32(), n as u64))
    }

    /// The whole part, kept to 32 bits.
    pub fn to_u32(&self) -> (r: u32)
        ensures
            r == self.whole_u32(),
    {
        let a: u32 = self.pattern();
        if a > INFINITE_32 || self.is_negative() {
            0
        } else if a == INFINITE_32 {
            proof {
                lemma_infinite_is_large_32();
            }
            u32::MAX
        } else {
            whole_part(layout_32(), a as u64)
        }
    }

    /// The same number in the 64-bit format.
    pub fn widen(&self) -> (r: F64)
        ensures
            r == self.widened(),
    {
        let a: u32 = self.pattern();
        if a > INFINITE_32 {
            F64 { bits: 0x7ff8_0000_0000_0000 }
        } else {
            let low: u64 = if a == INFINITE_32 {
                INFINITE
            } else {
                reformatted(
                    layout_32(),
                    Format { hidden: 0x10_0000_0000_0000, top: 2047, one_exp: 1074 },
                    a as u64,
                )
            };
            if self.is_negative() {
                F64 { bits: low + 0x8000_0000_0000_0000 }
            } else {
                F64 { bits: low }
            }
        }
    }
}

fn layout_32() -> (f: Format)
    ensures
        f == single(),
        f.valid(),
        f.inf() == INFINITE_32,
{
    Format { hidden: 0x80_0000, top: 255, one_exp: 149 }
}

fn make_32(negative: bool, low: u64) -> (r: F32)
    requires
        low < SIGN_32,
    ensures
        r == signed_32(negative, low as nat),
{
    if negative {
        F32 { bits: low as u32 + SIGN_32 }
    } else {
        F32 { bits: low as u32 }
    }
}

proof fn lemma_mag_order_32(a: F32, b: F32)
    ensures
        a.low() < b.low() <==> a.mag() < b.mag(),
        a.low() == b.low() <==> a.mag() == b.mag(),
        a.low() == 0 <==> a.mag() == 0,
{
    if a.low() < b.low() {
        lemma_magnitude_monotone(single(), a.low(), b.low());
    }
    if b.low() < a.low() {
        lemma_magnitude_monotone(single(), b.low(), a.low());
    }
    if a.low() > 0 {
        lemma_magnitude_monotone(single(), 0, a.low());
    }
}

/// The magnitude of infinity exceeds every 32-bit number.
proof fn lemma_infinite_is_large_32()
    ensures
        single().magnitude(INFINITE_32 as nat) / pow2(149) > u32::MAX,
{
    lemma_magnitude_of_digits(single(), 254, 0x80_0000);
    lemma_pow2_adds(149, 105);
    lemma_pow2_adds(64, 41);
    lemma_pow2_pos(149);
    lemma_pow2_pos(41);
    vstd::arithmetic::power2::lemma2_to64();
    let w = 0x80_0000 * pow2(105);
    assert(0x80_0000 * pow2(254) == pow2(149) * w) by (nonlinear_arith)
        requires
            pow2(254) == pow2(149) * pow2(105),
            w == 0x80_0000 * pow2(105),
    ;
    vstd::arithmetic::div_mod::lemma_div_multiples_vanish(w as int, pow2(149) as int);
    assert(w >= 0x1_0000_0000_0000_0000) by (nonlinear_arith)
        requires
            w == 0x80_0000 * pow2(105),
            pow2(105) == 0x1_0000_0000_0000_0000 * pow2(41),
            pow2(41) >= 1,
    ;
}

} // verus!
