//! Single-precision numbers by bit pattern: what they are worth, their
//! classes and their order.

use vstd::prelude::*;
use vstd::arithmetic::mul::{lemma_mul_inequality, lemma_mul_strict_inequality};
use vstd::arithmetic::power2::{
    lemma_pow2_pos,
    lemma_pow2_strictly_increases,
    lemma_pow2_unfold,
    pow2,
};

verus! {

/// The bit that holds the sign.
pub const SIGN_BIT: u32 = 0x8000_0000;

/// The pattern of positive infinity; a larger magnitude is not a number.
pub const INFINITY_BITS: u32 = 0x7f80_0000;

/// The pattern of the number one.
pub const ONE_BITS: u32 = 0x3f80_0000;

/// The weight of the lowest exponent bit: below it stand the 23 bits of the
/// fraction.
pub const FRACTION_END: u32 = 0x80_0000;

/// An IEEE-754 single-precision number, held by its bit pattern.
///
/// The derived `==` compares patterns; the order and equality of the numbers
/// themselves are [`Scalar::lt`], [`Scalar::le`] and [`Scalar::is_zero`].
#[derive(Clone, Copy, PartialEq, Eq, Debug)]
pub struct Scalar {
    pub bits: u32,
}

impl Scalar {
    /// The pattern without its sign bit.
    pub open spec fn magnitude(self) -> int {
        if self.bits >= SIGN_BIT {
            self.bits - SIGN_BIT
        } else {
            self.bits as int
        }
    }

    /// The sign bit is set.
    pub open spec fn negative(self) -> bool {
        self.bits >= SIGN_BIT
    }

    /// The eight bits of the exponent.
    pub open spec fn exponent(self) -> int {
        self.magnitude() / (FRACTION_END as int)
    }

    /// The 23 bits of the fraction.
    pub open spec fn fraction(self) -> int {
        self.magnitude() % (FRACTION_END as int)
    }

    /// The pattern is no number at all.
    pub open spec fn nan(self) -> bool {
        self.magnitude() > INFINITY_BITS
    }

    /// The pattern is zero, of either sign.
    pub open spec fn zero(self) -> bool {
        self.magnitude() == 0
    }

    /// How far the number is from zero, counted in the smallest positive
    /// number, 2^-149: the fraction alone where the exponent is 0, and else
    /// the fraction with its leading one, doubled once for each step of the
    /// exponent above 1. An infinity counts as twice the power of two of the
    /// largest finite number, which no finite number reaches.
    pub open spec fn size(self) -> int {
        if self.exponent() == 0 {
            self.fraction()
        } else {
            (FRACTION_END + self.fraction()) * pow2((self.exponent() - 1) as nat)
        }
    }

    /// What the number is worth, counted in the smallest positive number.
    pub open spec fn value(self) -> int {
        if self.negative() {
            -self.size()
        } else {
            self.size()
        }
    }

    /// Where the pattern stands in the order of all patterns: by its sign
    /// and magnitude, so that numbers stand as their values do and both
    /// zeros share place 0, and with what is no number above positive
    /// infinity.
    pub open spec fn spec_place(self) -> int {
        if self.nan() {
            SIGN_BIT as int
        } else if self.negative() {
            -self.magnitude()
        } else {
            self.magnitude()
        }
    }

    /// `self < other` as numbers: false as soon as one of them is no number.
    pub open spec fn spec_lt(self, other: Scalar) -> bool {
        !self.nan() && !other.nan() && self.value() < other.value()
    }

    /// `self <= other` as numbers: false as soon as one of them is no number.
    pub open spec fn spec_le(self, other: Scalar) -> bool {
        !self.nan() && !other.nan() && self.value() <= other.value()
    }

    /// The same pattern with the sign bit cleared.
    pub open spec fn spec_abs(self) -> Scalar {
        Scalar { bits: self.magnitude() as u32 }
    }

    /// The number one.
    pub open spec fn spec_one() -> Scalar {
        Scalar { bits: ONE_BITS }
    }

    pub fn from_bits(bits: u32) -> (s: Scalar)
        ensures
            s.bits == bits,
    {
        Scalar { bits }
    }

    pub fn to_bits(self) -> (bits: u32)
        ensures
            bits == self.bits,
    {
        self.bits
    }

    #[verifier::when_used_as_spec(spec_one)]
    pub fn one() -> (s: Scalar)
        ensures
            s == Scalar::spec_one(),
    {
        Scalar { bits: ONE_BITS }
    }

    pub fn is_nan(self) -> (r: bool)
        ensures
            r == self.nan(),
    {
        self.abs().bits > INFINITY_BITS
    }

    pub fn is_zero(self) -> (r: bool)
        ensures
            r == self.zero(),
            r == (self.value() == 0),
    {
        proof {
            lemma_zero_is_worth_nothing(self);
        }
        self.abs().bits == 0
    }

    #[verifier::when_used_as_spec(spec_abs)]
    pub fn abs(self) -> (r: Scalar)
        ensures
            r == self.spec_abs(),
    {
        if self.bits >= SIGN_BIT {
            Scalar { bits: self.bits - SIGN_BIT }
        } else {
            self
        }
    }

    /// The place of the pattern, by which patterns are sorted.
    pub fn place(self) -> (p: i64)
        ensures
            p == self.spec_place(),
    {
        let m: u32 = self.abs().bits;
        if m > INFINITY_BITS {
            0x8000_0000i64
        } else if self.bits >= SIGN_BIT {
            -(m as i64)
        } else {
            m as i64
        }
    }

    #[verifier::when_used_as_spec(spec_lt)]
    pub fn lt(self, other: Scalar) -> (r: bool)
        ensures
            r == self.spec_lt(other),
    {
        proof {
            if !self.nan() && !other.nan() {
                lemma_places_stand_as_values(self, other);
            }
        }
        !self.is_nan() && !other.is_nan() && self.place() < other.place()
    }

    #[verifier::when_used_as_spec(spec_le)]
    pub fn le(self, other: Scalar) -> (r: bool)
        ensures
            r == self.spec_le(other),
    {
        proof {
            if !self.nan() && !other.nan() {
                lemma_places_stand_as_values(self, other);
            }
        }
        !self.is_nan() && !other.is_nan() && self.place() <= other.place()
    }
}

/// A larger magnitude is farther from zero.
proof fn lemma_size_grows(a: Scalar, b: Scalar)
    requires
        a.magnitude() < b.magnitude(),
    ensures
        0 <= a.size() < b.size(),
{
    let e1 = a.exponent();
    let f1 = a.fraction();
    let e2 = b.exponent();
    let f2 = b.fraction();
    let unit = FRACTION_END as int;
    if e1 == e2 {
        if e1 > 0 {
            let p = pow2((e1 - 1) as nat) as int;
            lemma_pow2_pos((e1 - 1) as nat);
            lemma_mul_strict_inequality(unit + f1, unit + f2, p);
            lemma_mul_inequality(0, unit + f1, p);
        }
    } else {
        let p2 = pow2((e2 - 1) as nat) as int;
        lemma_pow2_pos((e2 - 1) as nat);
        lemma_mul_inequality(unit, unit + f2, p2);
        assert(unit * p2 <= b.size());
        if e1 == 0 {
            lemma_mul_inequality(1, p2, unit);
            assert(unit <= unit * p2) by (nonlinear_arith)
                requires
                    1 * unit <= p2 * unit,
            ;
        } else {
            let p1 = pow2((e1 - 1) as nat) as int;
            let q1 = pow2(e1 as nat) as int;
            lemma_pow2_pos((e1 - 1) as nat);
            lemma_pow2_unfold(e1 as nat);
            assert(q1 == 2 * p1);
            lemma_mul_strict_inequality(unit + f1, 2 * unit, p1);
            lemma_mul_inequality(0, unit + f1, p1);
            assert((2 * unit) * p1 == unit * q1) by (nonlinear_arith)
                requires
                    q1 == 2 * p1,
            ;
            if e1 < e2 - 1 {
                lemma_pow2_strictly_increases(e1 as nat, (e2 - 1) as nat);
            }
            assert(q1 <= p2);
            lemma_mul_inequality(q1, p2, unit);
            assert(unit * q1 <= unit * p2) by (nonlinear_arith)
                requires
                    q1 * unit <= p2 * unit,
            ;
        }
    }
}

/// Only the two zeros are worth nothing.
pub proof fn lemma_zero_is_worth_nothing(a: Scalar)
    ensures
        a.size() >= 0,
        a.zero() <==> a.value() == 0,
{
    let nothing = Scalar { bits: 0 };
    if a.magnitude() > 0 {
        lemma_size_grows(nothing, a);
    }
}

/// Patterns stand in the order of what they are worth: of two numbers, the
/// one at the lower place is the smaller, and two numbers share a place
/// exactly where they are worth the same.
pub proof fn lemma_places_stand_as_values(a: Scalar, b: Scalar)
    requires
        !a.nan(),
        !b.nan(),
    ensures
        a.spec_place() < b.spec_place() <==> a.value() < b.value(),
        a.spec_place() == b.spec_place() <==> a.value() == b.value(),
        a.spec_lt(b) <==> a.spec_place() < b.spec_place(),
        a.spec_le(b) <==> a.spec_place() <= b.spec_place(),
{
    lemma_zero_is_worth_nothing(a);
    lemma_zero_is_worth_nothing(b);
    if a.magnitude() < b.magnitude() {
        lemma_size_grows(a, b);
    } else if b.magnitude() < a.magnitude() {
        lemma_size_grows(b, a);
    }
}

/// The order of the numbers is strict and total, up to the sign of zero: of
/// two numbers, exactly one of `a < b`, `b < a` and "worth the same" holds,
/// `<=` is `<` or "worth the same", and only the two zeros are worth the
/// same without being the same pattern.
pub proof fn lemma_order_is_total(a: Scalar, b: Scalar)
    requires
        !a.nan(),
        !b.nan(),
    ensures
        a.spec_lt(b) || b.spec_lt(a) || a.value() == b.value(),
        !(a.spec_lt(b) && b.spec_lt(a)),
        a.spec_le(b) <==> (a.spec_lt(b) || a.value() == b.value()),
        a.value() == b.value() <==> (a == b || (a.zero() && b.zero())),
{
    lemma_places_stand_as_values(a, b);
}

/// Nothing compares with what is no number, not even itself.
pub proof fn lemma_nan_is_unordered(a: Scalar, b: Scalar)
    requires
        a.nan() || b.nan(),
    ensures
        !a.spec_lt(b),
        !a.spec_le(b),
        !b.spec_lt(a),
        !b.spec_le(a),
{
}

/// An absolute value is never negative, is a number exactly when its
/// argument is one, and is worth what the argument is worth, without the
/// sign.
pub proof fn lemma_abs(a: Scalar)
    ensures
        !a.spec_abs().negative(),
        a.spec_abs().nan() == a.nan(),
        a.spec_abs().magnitude() == a.magnitude(),
        a.spec_abs().value() == (if a.value() < 0 {
            -a.value()
        } else {
            a.value()
        }),
{
    lemma_zero_is_worth_nothing(a);
}

/// The number one is worth 2^149 of the smallest positive number.
pub proof fn lemma_one_is_one()
    ensures
        Scalar::spec_one().value() == pow2(149),
        !Scalar::spec_one().nan(),
        !Scalar::spec_one().zero(),
{
    let one = Scalar::spec_one();
    assert(one.exponent() == 127);
    assert(one.fraction() == 0);
    vstd::arithmetic::power2::lemma_pow2_adds(23, 126);
    vstd::arithmetic::power2::lemma2_to64();
    assert(pow2(23) == 0x80_0000);
}

} // verus!
