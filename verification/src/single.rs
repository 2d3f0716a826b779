//! Single-precision numbers held by their bit patterns.
//!
//! Audio samples and meter levels are 32-bit IEEE 754 numbers. Everything that the splitter does
//! with them (taking a magnitude, comparing, clamping to the unit range) can be done exactly on
//! the bit pattern; the contracts speak of the number that the pattern stands for.

use vstd::arithmetic::mul::*;
use vstd::arithmetic::power2::*;
use vstd::prelude::*;

verus! {

/// The bit that carries the sign.
pub const SIGN_BIT: u32 = 0x8000_0000;

/// The pattern of positive infinity: magnitudes below it are finite, those above it are NaN.
pub const INFINITY_BITS: u32 = 0x7f80_0000;

/// The pattern of `1.0`.
pub const ONE_BITS: u32 = 0x3f80_0000;

/// How many magnitudes share one exponent.
pub const BINADE: u32 = 0x80_0000;

/// A single-precision number, by its bit pattern.
#[derive(Clone, Copy, Debug, PartialEq, Eq, Structural)]
pub struct Single {
    pub bits: u32,
}

/// The size of the number whose pattern without the sign is `magnitude`, counted in units of the
/// smallest positive number (two to the power of -149). Infinity counts as the number that would
/// follow the largest finite one.
pub open spec fn units(magnitude: int) -> int {
    let exponent = magnitude / (BINADE as int);
    let fraction = magnitude % (BINADE as int);
    if exponent == 0 {
        fraction
    } else {
        (BINADE + fraction) * pow2((exponent - 1) as nat)
    }
}

/// `1.0`, counted in units.
pub open spec fn one_in_units() -> int {
    pow2(149) as int
}

impl Single {
    /// The pattern without the sign.
    pub open spec fn magnitude(self) -> int {
        self.bits as int % (SIGN_BIT as int)
    }

    /// Whether the sign bit is set.
    pub open spec fn is_signed(self) -> bool {
        self.bits >= SIGN_BIT
    }

    /// Whether the pattern stands for no number.
    pub open spec fn is_nan(self) -> bool {
        self.magnitude() > INFINITY_BITS
    }

    /// Whether the pattern stands for a finite number.
    pub open spec fn finite(self) -> bool {
        self.magnitude() < INFINITY_BITS
    }

    /// The number, counted in units; of a NaN it says nothing.
    pub open spec fn value(self) -> int {
        if self.is_signed() {
            -units(self.magnitude())
        } else {
            units(self.magnitude())
        }
    }

    /// `self < other`, which is false where either is a NaN.
    pub open spec fn below(self, other: Single) -> bool {
        !self.is_nan() && !other.is_nan() && self.value() < other.value()
    }

    /// The nearest number between zero and one; a NaN stays as it is, and so does negative zero.
    pub open spec fn clamped(self) -> Single {
        if self.is_nan() {
            self
        } else if self.value() < 0 {
            Single { bits: 0 }
        } else if self.value() > one_in_units() {
            Single { bits: ONE_BITS }
        } else {
            self
        }
    }

    /// A number from zero to one whose sign bit is clear.
    pub open spec fn is_unit(self) -> bool {
        self.bits <= ONE_BITS
    }
}

/// The number whose pattern is given by four bytes, least significant first.
pub open spec fn single_of_bytes(b0: u8, b1: u8, b2: u8, b3: u8) -> Single {
    Single { bits: (b0 + 0x100 * b1 + 0x1_0000 * b2 + 0x100_0000 * b3) as u32 }
}

/// A larger pattern stands for a larger number.
pub proof fn lemma_units_increase(a: int, b: int)
    requires
        0 <= a < b,
    ensures
        units(a) < units(b),
{
    let d = BINADE as int;
    let (ea, fa) = (a / d, a % d);
    let (eb, fb) = (b / d, b % d);
    assert(ea <= eb);
    if ea == eb {
        if ea > 0 {
            lemma_pow2_pos((ea - 1) as nat);
            lemma_mul_strict_inequality(d + fa, d + fb, pow2((ea - 1) as nat) as int);
        }
    } else {
        lemma_pow2_pos((eb - 1) as nat);
        let pb = pow2((eb - 1) as nat) as int;
        lemma_mul_inequality(d, d + fb, pb);
        if ea == 0 {
            lemma_mul_inequality(1, pb, d);
            lemma_mul_is_commutative(d, pb);
        } else {
            let pa = pow2((ea - 1) as nat) as int;
            lemma_pow2_pos((ea - 1) as nat);
            lemma_pow2_unfold(ea as nat);
            if ea < eb - 1 {
                lemma_pow2_strictly_increases(ea as nat, (eb - 1) as nat);
            }
            assert(2 * pa <= pb);
            lemma_mul_strict_inequality(d + fa, 2 * d, pa);
            lemma_mul_inequality(2 * pa, pb, d);
            assert((2 * d) * pa == (2 * pa) * d) by (nonlinear_arith);
            lemma_mul_is_commutative(d, pb);
        }
    }
}

/// `units` of the landmark patterns.
pub proof fn lemma_units_landmarks()
    ensures
        units(0) == 0,
        units(ONE_BITS as int) == one_in_units(),
        one_in_units() > 0,
{
    lemma_pow2_adds(23, 126);
    lemma_pow2_pos(149);
    lemma2_to64();
    assert(units(ONE_BITS as int) == 0x80_0000 * pow2(126));
}

/// Order between patterns and order between the numbers they stand for are the same.
pub proof fn lemma_units_order(a: int, b: int)
    requires
        0 <= a,
        0 <= b,
    ensures
        units(a) < units(b) <==> a < b,
        units(a) == units(b) <==> a == b,
        units(a) >= 0,
        units(a) == 0 <==> a == 0,
{
    lemma_units_landmarks();
    if a < b {
        lemma_units_increase(a, b);
    } else if b < a {
        lemma_units_increase(b, a);
    }
    if 0 < a {
        lemma_units_increase(0, a);
    }
}

/// A number from zero to one is known by its value: no two such patterns share one.
pub proof fn lemma_unit_determined_by_value(a: Single, b: Single)
    requires
        a.is_unit(),
        b.is_unit(),
        a.value() == b.value(),
    ensures
        a == b,
{
    lemma_units_order(a.bits as int, b.bits as int);
}

/// Clamping always gives a number between zero and one, unless it was given no number, and keeps
/// what is already there.
pub proof fn lemma_clamped(a: Single)
    ensures
        !a.is_nan() ==> 0 <= a.clamped().value() <= one_in_units(),
        a.clamped().is_nan() == a.is_nan(),
        a.clamped().clamped() == a.clamped(),
        a.is_unit() ==> a.clamped() == a,
        a.clamped().is_unit() <==> !a.is_nan() && a.bits != SIGN_BIT,
{
    lemma_units_landmarks();
    lemma_units_order(a.magnitude(), ONE_BITS as int);
    lemma_units_order(ONE_BITS as int, a.magnitude());
}

/// Four bytes make up a pattern of which the first is the least significant byte, and the last the
/// most significant one.
pub proof fn law_pattern_of_bytes(b0: u8, b1: u8, b2: u8, b3: u8)
    ensures
        single_of_bytes(b0, b1, b2, b3).bits % 0x100 == b0,
        single_of_bytes(b0, b1, b2, b3).bits / 0x100 % 0x100 == b1,
        single_of_bytes(b0, b1, b2, b3).bits / 0x1_0000 % 0x100 == b2,
        single_of_bytes(b0, b1, b2, b3).bits / 0x100_0000 == b3,
{
    let bits = single_of_bytes(b0, b1, b2, b3).bits;
    let above_b2: int = b3 as int;
    let above_b1: int = b2 + 0x100 * above_b2;
    let above_b0: int = b1 + 0x100 * above_b1;
    assert(bits == b0 + 0x100 * above_b0);
    assert(bits / 0x100 == above_b0);
    assert(bits / 0x1_0000 == above_b1);
    assert(bits / 0x100_0000 == above_b2);
}

/// The pattern without the sign, from four bytes: the sign is the highest bit of the last one.
pub proof fn lemma_magnitude_of_bytes(b0: u8, b1: u8, b2: u8, b3: u8)
    ensures
        single_of_bytes(b0, b1, b2, b3).magnitude() == b0 + 0x100 * b1 + 0x1_0000 * b2 + 0x100_0000
            * (b3 % 128),
{
}

/// Which patterns stand for finite numbers, and which for no number: the eight bits below the sign
/// tell the finite ones, and the rest tells infinity from a NaN.
pub proof fn law_kinds_of_patterns(a: Single)
    ensures
        a.finite() <==> (a.bits / 0x80_0000) % 0x100 != 0xff,
        a.is_nan() <==> (a.bits / 0x80_0000) % 0x100 == 0xff && a.bits % 0x80_0000 != 0,
        a.is_signed() <==> a.bits / 0x8000_0000 == 1,
        a.magnitude() == a.bits % 0x8000_0000,
{
}

/// The smallest numbers follow each other in steps of one unit: each is as many units as its
/// pattern says.
pub proof fn law_small_numbers_count_units(magnitude: int)
    requires
        0 <= magnitude < 0x100_0000,
    ensures
        units(magnitude) == magnitude,
{
    lemma2_to64();
    let fraction = magnitude % 0x80_0000;
    if magnitude >= 0x80_0000 {
        assert(magnitude / 0x80_0000 == 1);
        assert((0x80_0000 + fraction) * pow2(0) == 0x80_0000 + fraction) by (nonlinear_arith)
            requires
                pow2(0) == 1,
        ;
    }
}

/// From there on, the next exponent is twice the number.
pub proof fn law_next_exponent_is_twice_the_number(magnitude: int)
    requires
        magnitude >= 0x80_0000,
    ensures
        units(magnitude + 0x80_0000) == 2 * units(magnitude),
{
    let exponent = magnitude / 0x80_0000;
    let fraction = magnitude % 0x80_0000;
    assert((magnitude + 0x80_0000) / 0x80_0000 == exponent + 1);
    assert((magnitude + 0x80_0000) % 0x80_0000 == fraction);
    lemma_pow2_unfold(exponent as nat);
    let power = pow2((exponent - 1) as nat) as int;
    assert((0x80_0000 + fraction) * (2 * power) == 2 * ((0x80_0000 + fraction) * power))
        by (nonlinear_arith);
}

/// The sign bit turns a number into its opposite, and changes nothing else.
pub proof fn law_sign_bit_negates(a: Single, b: Single)
    requires
        b.bits == a.bits + 0x8000_0000,
    ensures
        b.value() == -a.value(),
        a.value() >= 0,
        a.is_nan() == b.is_nan(),
        a.finite() == b.finite(),
{
    lemma_units_order(a.magnitude(), 0);
}

/// `1.0` is the number of the pattern `0x3f800000`.
pub proof fn law_pattern_of_one()
    ensures
        one_in_units() == units(0x3f80_0000),
        (Single { bits: 0x3f80_0000 }).value() == one_in_units(),
        one_in_units() > 0,
{
    lemma_units_landmarks();
}

/// Order by pattern: numbers without a sign are ordered as their patterns, those with one the other
/// way round, and a number with a sign comes before one without unless both are zero. A NaN has no
/// place in the order.
pub proof fn law_order_by_pattern(a: Single, b: Single)
    ensures
        a.is_nan() || b.is_nan() ==> !a.below(b),
        !a.is_nan() && !b.is_nan() ==> {
            &&& a.bits < 0x8000_0000 && b.bits < 0x8000_0000 ==> (a.below(b) <==> a.bits < b.bits)
            &&& a.bits >= 0x8000_0000 && b.bits >= 0x8000_0000 ==> (a.below(b) <==> a.bits > b.bits)
            &&& a.bits >= 0x8000_0000 && b.bits < 0x8000_0000 ==> (a.below(b) <==> !(a.bits
                == 0x8000_0000 && b.bits == 0))
            &&& a.bits < 0x8000_0000 && b.bits >= 0x8000_0000 ==> !a.below(b)
        },
{
    lemma_units_order(a.magnitude(), b.magnitude());
    lemma_units_order(b.magnitude(), a.magnitude());
}

/// Clamping by pattern: what lies between zero and one stays, what lies above one becomes one,
/// infinity with it, what lies below zero becomes zero, and a NaN stays, as does negative zero.
pub proof fn law_clamping_by_pattern(a: Single)
    ensures
        a.bits <= 0x3f80_0000 ==> a.clamped().bits == a.bits,
        0x3f80_0000 < a.bits <= 0x7f80_0000 ==> a.clamped().bits == 0x3f80_0000,
        0x7f80_0000 < a.bits <= 0x8000_0000 ==> a.clamped().bits == a.bits,
        0x8000_0000 < a.bits <= 0xff80_0000 ==> a.clamped().bits == 0,
        0xff80_0000 < a.bits ==> a.clamped().bits == a.bits,
{
    lemma_units_landmarks();
    lemma_units_order(a.magnitude(), ONE_BITS as int);
    lemma_units_order(ONE_BITS as int, a.magnitude());
}

/// Clamping keeps the order: of two numbers the smaller is never clamped to the larger value.
pub proof fn law_clamping_keeps_order(a: Single, b: Single)
    requires
        !a.is_nan(),
        !b.is_nan(),
        a.value() <= b.value(),
    ensures
        a.clamped().value() <= b.clamped().value(),
{
    lemma_units_landmarks();
    lemma_clamped(a);
    lemma_clamped(b);
}

/// The numbers from zero to one are those without a sign that are at most one.
pub proof fn law_unit_range(a: Single)
    ensures
        a.is_unit() <==> !a.is_nan() && !a.is_signed() && a.value() <= one_in_units(),
        a.is_unit() <==> a.bits <= 0x3f80_0000,
{
    lemma_units_landmarks();
    lemma_units_order(ONE_BITS as int, a.magnitude());
}

impl Single {
    /// `0.0`.
    pub fn zero() -> (result: Single)
        ensures
            result.bits == 0,
            result.value() == 0,
            result.is_unit(),
    {
        proof {
            lemma_units_landmarks();
        }
        Single { bits: 0 }
    }

    /// The number whose pattern is given by four bytes, least significant first.
    pub fn from_le_bytes(b0: u8, b1: u8, b2: u8, b3: u8) -> (result: Single)
        ensures
            result == single_of_bytes(b0, b1, b2, b3),
    {
        Single {
            bits: b0 as u32 + 0x100 * (b1 as u32) + 0x1_0000 * (b2 as u32) + 0x100_0000 * (
            b3 as u32),
        }
    }

    /// Whether this is a finite number.
    pub fn is_finite(self) -> (result: bool)
        ensures
            result == self.finite(),
    {
        self.bits % SIGN_BIT < INFINITY_BITS
    }

    /// The number without its sign.
    pub fn abs(self) -> (result: Single)
        ensures
            result.bits == self.magnitude(),
            result.bits == self.bits % 0x8000_0000,
            !self.is_nan() ==> result.value() == if self.value() < 0 {
                -self.value()
            } else {
                self.value()
            },
    {
        proof {
            lemma_units_order(self.magnitude(), 0);
        }
        Single { bits: self.bits % SIGN_BIT }
    }

    /// `self < other`, which is false where either is a NaN.
    pub fn less_than(self, other: Single) -> (result: bool)
        ensures
            result == self.below(other),
    {
        let a: u32 = self.bits % SIGN_BIT;
        let b: u32 = other.bits % SIGN_BIT;
        proof {
            lemma_units_order(a as int, b as int);
            lemma_units_order(b as int, a as int);
        }
        if a > INFINITY_BITS || b > INFINITY_BITS {
            false
        } else if self.bits < SIGN_BIT {
            other.bits < SIGN_BIT && a < b
        } else if other.bits < SIGN_BIT {
            a != 0 || b != 0
        } else {
            b < a
        }
    }

    /// `self >= other`, which is false where either is a NaN.
    pub fn at_least(self, other: Single) -> (result: bool)
        ensures
            result == (!self.is_nan() && !other.is_nan() && self.value() >= other.value()),
    {
        self.bits % SIGN_BIT <= INFINITY_BITS && other.bits % SIGN_BIT <= INFINITY_BITS
            && !self.less_than(other)
    }

    /// The nearest number between zero and one; a NaN stays as it is, and so does negative zero.
    pub fn clamp_to_unit(self) -> (result: Single)
        ensures
            result == self.clamped(),
    {
        let magnitude: u32 = self.bits % SIGN_BIT;
        proof {
            lemma_units_landmarks();
            lemma_units_order(magnitude as int, ONE_BITS as int);
            lemma_units_order(ONE_BITS as int, magnitude as int);
        }
        if magnitude > INFINITY_BITS {
            self
        } else if self.bits > SIGN_BIT {
            Single { bits: 0 }
        } else if self.bits < SIGN_BIT && self.bits > ONE_BITS {
            Single { bits: ONE_BITS }
        } else {
            self
        }
    }

    /// The whole number `n`, which is exact.
    pub fn whole(n: u16) -> (result: Single)
        ensures
            result.finite(),
            !result.is_signed(),
            result.value() == n * one_in_units(),
    {
        if n == 0 {
            proof {
                lemma_units_landmarks();
            }
            return Single { bits: 0 };
        }
        let mut significand: u32 = n as u32;
        let mut exponent: u32 = 150;
        let ghost mut shift: nat = 0;
        proof {
            lemma2_to64();
        }
        while significand < BINADE
            invariant
                0 < n,
                0 < significand < 2 * BINADE,
                exponent + shift == 150,
                significand == n * pow2(shift),
                shift <= 23,
                n * pow2(shift) >= pow2(shift),
            decreases 2 * BINADE - significand,
        {
            proof {
                lemma_pow2_unfold(shift + 1);
                lemma_pow2_pos(shift);
                assert(n * (2 * pow2(shift)) == 2 * (n * pow2(shift))) by (nonlinear_arith);
                if shift == 23 {
                    lemma2_to64();
                }
                shift = shift + 1;
            }
            significand = 2 * significand;
            exponent = exponent - 1;
        }
        let bits: u32 = exponent * BINADE + (significand - BINADE);
        proof {
            let e = (exponent - 1) as nat;
            assert(bits as int / (BINADE as int) == exponent);
            assert(bits as int % (BINADE as int) == significand - BINADE);
            lemma_pow2_adds(shift, e);
            lemma_mul_is_associative(n as int, pow2(shift) as int, pow2(e) as int);
        }
        Single { bits }
    }
}

} // verus!
