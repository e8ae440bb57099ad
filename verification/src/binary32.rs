//! Single precision numbers, held by their bit patterns.
use core::cmp::Ordering;
use vstd::arithmetic::power2::pow2;
use vstd::prelude::*;
use vstd::std_specs::cmp::{PartialEqSpec, PartialEqSpecImpl};

verus! {

/// The sign bit of a binary32 number.
pub const SIGN_BIT: u32 = 0x8000_0000;

/// The magnitude bits of infinity. Finite magnitudes lie below it, NaN magnitudes above it.
pub const INFINITY_BITS: u32 = 0x7f80_0000;

/// The bits of the number one.
pub const ONE_BITS: u32 = 0x3f80_0000;

/// The number of bit patterns that share a sign and an exponent.
pub const FRACTION_SPAN: u32 = 0x0080_0000;

/// An IEEE 754 binary32 number, held by its bit pattern.
///
/// `==` compares numbers: the two zeros are equal, and NaN equals nothing.
#[derive(Clone, Copy, Debug)]
pub struct Binary32 {
    pub bits: u32,
}

/// An IEEE 754 binary64 number, held by its bit pattern. The library only carries these between
/// two steps of an [`Arithmetic`].
#[derive(Clone, Copy, Debug)]
pub struct Binary64 {
    pub bits: u64,
}

/// The rounding operations of a floating point unit.
///
/// No clause says what an operation returns. Contracts that depend on one speak of
/// `call_ensures`: of the values that the operation may return for the operands it was handed.
pub trait Arithmetic {
    /// `x + y` in single precision.
    fn sum(x: Binary32, y: Binary32) -> Binary32;

    /// `x - y` in single precision.
    fn difference(x: Binary32, y: Binary32) -> Binary32;

    /// `x * y` in single precision.
    fn product(x: Binary32, y: Binary32) -> Binary32;

    /// `x / y` in single precision.
    fn quotient(x: Binary32, y: Binary32) -> Binary32;

    /// `x` in double precision.
    fn widen(x: Binary32) -> Binary64;

    /// The square root of `x` in double precision.
    fn wide_root(x: Binary64) -> Binary64;

    /// `x * y` in double precision.
    fn wide_product(x: Binary64, y: Binary64) -> Binary64;

    /// `x` rounded to single precision.
    fn narrow(x: Binary64) -> Binary32;
}

/// How two integers compare.
pub open spec fn int_order(x: int, y: int) -> Ordering {
    if x < y {
        Ordering::Less
    } else if x == y {
        Ordering::Equal
    } else {
        Ordering::Greater
    }
}

impl Binary32 {
    /// The sign bit is set.
    pub open spec fn negative(self) -> bool {
        self.bits >= SIGN_BIT
    }

    /// The bits below the sign bit.
    pub open spec fn magnitude(self) -> int {
        if self.negative() {
            self.bits - SIGN_BIT
        } else {
            self.bits as int
        }
    }

    /// Neither infinite nor NaN.
    pub open spec fn finite(self) -> bool {
        self.magnitude() < INFINITY_BITS
    }

    /// Not a number.
    pub open spec fn nan(self) -> bool {
        self.magnitude() > INFINITY_BITS
    }

    /// The place of the number in the IEEE 754 `totalOrder`: negative NaN, negative infinity,
    /// the negative numbers, negative zero, zero, the positive numbers, infinity, positive NaN.
    pub open spec fn total_order(self) -> int {
        if self.negative() {
            -1 - self.magnitude()
        } else {
            self.magnitude()
        }
    }

    /// The place of a number that is not NaN among the numbers: as `total_order`, with both
    /// zeros in one place.
    pub open spec fn numeric_order(self) -> int {
        if self.negative() {
            -self.magnitude()
        } else {
            self.magnitude()
        }
    }

    /// `self < other` as numbers. NaN is less than nothing, and nothing is less than NaN.
    pub open spec fn less_than(self, other: Binary32) -> bool {
        !self.nan() && !other.nan() && self.numeric_order() < other.numeric_order()
    }

    /// `self == other` as numbers. NaN equals nothing.
    pub open spec fn equals(self, other: Binary32) -> bool {
        !self.nan() && !other.nan() && self.numeric_order() == other.numeric_order()
    }

    /// `self <= other` as numbers. NaN is comparable to nothing.
    pub open spec fn at_most(self, other: Binary32) -> bool {
        !self.nan() && !other.nan() && self.numeric_order() <= other.numeric_order()
    }

    /// The same bits, or NaN both.
    pub open spec fn alike(self, other: Binary32) -> bool {
        self == other || self.nan() && other.nan()
    }

    /// The negation of `other` as a number, or NaN both.
    pub open spec fn opposes(self, other: Binary32) -> bool {
        ||| self.equals(other.negated())
        ||| self.nan() && other.nan()
    }

    /// The value of a finite number, in multiples of the smallest positive one (two to the power
    /// of minus 149).
    pub open spec fn units(self) -> int {
        let exponent = self.magnitude() / FRACTION_SPAN as int;
        let fraction = self.magnitude() % FRACTION_SPAN as int;
        let size = if exponent == 0 {
            fraction
        } else {
            (FRACTION_SPAN + fraction) * pow2((exponent - 1) as nat)
        };
        if self.negative() {
            -size
        } else {
            size
        }
    }

    /// The number with its sign bit flipped.
    pub open spec fn negated(self) -> Binary32 {
        if self.negative() {
            Binary32 { bits: (self.bits - SIGN_BIT) as u32 }
        } else {
            Binary32 { bits: (self.bits + SIGN_BIT) as u32 }
        }
    }

    /// The number nearest to `self` in `min ..= max`. NaN stays as it is.
    pub open spec fn clamped(self, min: Binary32, max: Binary32) -> Binary32 {
        if self.less_than(min) {
            min
        } else if max.less_than(self) {
            max
        } else {
            self
        }
    }

    /// The number with the given bit pattern.
    pub fn from_bits(bits: u32) -> (result: Binary32)
        ensures
            result.bits == bits,
    {
        Binary32 { bits }
    }

    /// The bit pattern of the number.
    pub fn to_bits(self) -> (result: u32)
        ensures
            result == self.bits,
    {
        self.bits
    }

    /// Zero.
    #[verifier::allow_in_spec]
    pub fn zero() -> Binary32
        returns
            (Binary32 { bits: 0 }),
    {
        Binary32 { bits: 0 }
    }

    /// One.
    #[verifier::allow_in_spec]
    pub fn one() -> Binary32
        returns
            (Binary32 { bits: ONE_BITS }),
    {
        Binary32 { bits: ONE_BITS }
    }

    /// The sign bit and the bits below it.
    fn split(self) -> (result: (bool, u32))
        ensures
            result.0 == self.negative(),
            result.1 == self.magnitude(),
            result.1 < SIGN_BIT,
    {
        if self.bits >= SIGN_BIT {
            (true, self.bits - SIGN_BIT)
        } else {
            (false, self.bits)
        }
    }

    /// Whether the number is neither infinite nor NaN.
    pub fn is_finite(self) -> (result: bool)
        ensures
            result == self.finite(),
    {
        let (_, magnitude) = self.split();
        magnitude < INFINITY_BITS
    }

    /// Whether the number equals zero, of either sign.
    pub fn is_zero(self) -> (result: bool)
        ensures
            result == (self.magnitude() == 0),
    {
        let (_, magnitude) = self.split();
        magnitude == 0
    }

    /// Compares two numbers in the IEEE 754 `totalOrder`.
    pub fn total_cmp(&self, other: &Binary32) -> (result: Ordering)
        ensures
            result == int_order(self.total_order(), other.total_order()),
    {
        let (x_negative, x) = self.split();
        let (y_negative, y) = other.split();
        if x_negative != y_negative {
            if x_negative {
                Ordering::Less
            } else {
                Ordering::Greater
            }
        } else if x == y {
            Ordering::Equal
        } else if (x < y) != x_negative {
            Ordering::Less
        } else {
            Ordering::Greater
        }
    }

    /// Whether `self < other` as numbers.
    pub fn is_less_than(self, other: Binary32) -> (result: bool)
        ensures
            result == self.less_than(other),
    {
        let (x_negative, x) = self.split();
        let (y_negative, y) = other.split();
        if x > INFINITY_BITS || y > INFINITY_BITS {
            false
        } else if x_negative && y_negative {
            y < x
        } else if x_negative {
            x != 0 || y != 0
        } else if y_negative {
            false
        } else {
            x < y
        }
    }

    /// Flips the sign bit.
    pub fn negate(self) -> (result: Binary32)
        ensures
            result == self.negated(),
    {
        let (negative, magnitude) = self.split();
        if negative {
            Binary32 { bits: magnitude }
        } else {
            Binary32 { bits: magnitude + SIGN_BIT }
        }
    }

    /// Brings the number into `min ..= max`. NaN stays as it is.
    pub fn clamp(self, min: Binary32, max: Binary32) -> (result: Binary32)
        requires
            !min.nan(),
            !max.nan(),
            !max.less_than(min),
        ensures
            result == self.clamped(min, max),
    {
        if self.is_less_than(min) {
            min
        } else if max.is_less_than(self) {
            max
        } else {
            self
        }
    }
}

impl PartialEq for Binary32 {
    /// Whether the two are the same number.
    fn eq(&self, other: &Binary32) -> (result: bool) {
        let (x_negative, x) = self.split();
        let (y_negative, y) = other.split();
        if x > INFINITY_BITS || y > INFINITY_BITS {
            false
        } else {
            x == y && (x_negative == y_negative || x == 0)
        }
    }
}

impl PartialEqSpecImpl for Binary32 {
    open spec fn obeys_eq_spec() -> bool {
        true
    }

    open spec fn eq_spec(&self, other: &Binary32) -> bool {
        self.equals(*other)
    }
}

/// The total order tells any two bit patterns apart: whatever the distances are, NaN among them,
/// two that compare as equal are the same.
pub proof fn total_order_is_injective(x: Binary32, y: Binary32)
    requires
        x.total_order() == y.total_order(),
    ensures
        x == y,
{
}

/// The total order agrees with the order of numbers wherever that one decides.
pub proof fn total_order_extends_less_than(x: Binary32, y: Binary32)
    requires
        x.less_than(y),
    ensures
        x.total_order() < y.total_order(),
{
}

/// A NaN with a clear sign bit comes after every number, one with a set sign bit before every
/// number.
pub proof fn total_order_puts_nan_outside(nan: Binary32, x: Binary32)
    requires
        nan.nan(),
        !x.nan(),
    ensures
        !nan.negative() ==> x.total_order() < nan.total_order(),
        nan.negative() ==> nan.total_order() < x.total_order(),
{
}

/// Negation reverses the total order, and undoes itself.
pub proof fn negation_reverses_total_order(x: Binary32, y: Binary32)
    ensures
        x.total_order() < y.total_order() <==> y.negated().total_order()
            < x.negated().total_order(),
        x.negated().negated() == x,
{
}

/// Of two numbers without a sign, the one whose bits follow on those of the other is the greater.
proof fn next_magnitude_is_greater(x: Binary32, y: Binary32)
    requires
        !x.negative(),
        !y.negative(),
        y.magnitude() == x.magnitude() + 1,
    ensures
        x.units() < y.units(),
{
    let span = FRACTION_SPAN as int;
    let exponent = x.magnitude() / span;
    let fraction = x.magnitude() % span;
    if exponent > 0 {
        vstd::arithmetic::power2::lemma_pow2_pos((exponent - 1) as nat);
    }
    if fraction + 1 < span {
        assert(y.magnitude() / span == exponent && y.magnitude() % span == fraction + 1);
        if exponent > 0 {
            let p = pow2((exponent - 1) as nat) as int;
            assert((span + fraction) * p < (span + fraction + 1) * p) by (nonlinear_arith)
                requires
                    p > 0,
            ;
        }
    } else {
        assert(y.magnitude() / span == exponent + 1 && y.magnitude() % span == 0);
        vstd::arithmetic::power2::lemma2_to64();
        if exponent > 0 {
            let p = pow2((exponent - 1) as nat) as int;
            vstd::arithmetic::power2::lemma_pow2_unfold(exponent as nat);
            assert((span + fraction) * p < span * (2 * p)) by (nonlinear_arith)
                requires
                    p > 0,
                    fraction < span,
            ;
        }
    }
}

proof fn greater_magnitude_is_greater(x: Binary32, y: Binary32)
    requires
        !x.negative(),
        !y.negative(),
        x.magnitude() < y.magnitude(),
    ensures
        x.units() < y.units(),
    decreases y.magnitude() - x.magnitude(),
{
    let before = Binary32 { bits: (y.bits - 1) as u32 };
    next_magnitude_is_greater(before, y);
    if x.magnitude() < before.magnitude() {
        greater_magnitude_is_greater(x, before);
    }
}

/// Finite numbers are ordered as their values are, and equal where those are equal.
pub proof fn values_are_ordered_as_numbers(x: Binary32, y: Binary32)
    requires
        x.finite(),
        y.finite(),
    ensures
        x.less_than(y) <==> x.units() < y.units(),
        x.equals(y) <==> x.units() == y.units(),
{
    let zero = Binary32 { bits: 0 };
    let size_x = Binary32 { bits: x.magnitude() as u32 };
    let size_y = Binary32 { bits: y.magnitude() as u32 };
    assert(x.units() == if x.negative() { -size_x.units() } else { size_x.units() });
    assert(y.units() == if y.negative() { -size_y.units() } else { size_y.units() });
    assert(zero.units() == 0);
    if x.magnitude() > 0 {
        greater_magnitude_is_greater(zero, size_x);
    }
    if y.magnitude() > 0 {
        greater_magnitude_is_greater(zero, size_y);
    }
    if x.magnitude() < y.magnitude() {
        greater_magnitude_is_greater(size_x, size_y);
    } else if y.magnitude() < x.magnitude() {
        greater_magnitude_is_greater(size_y, size_x);
    }
}

/// What is not NaN is brought between the bounds, and what is there already is left alone.
pub proof fn clamped_lies_between(x: Binary32, min: Binary32, max: Binary32)
    requires
        !min.nan(),
        !max.nan(),
        !max.less_than(min),
    ensures
        !x.nan() ==> !x.clamped(min, max).nan() && min.numeric_order() <= x.clamped(
            min,
            max,
        ).numeric_order() <= max.numeric_order(),
        x.nan() ==> x.clamped(min, max) == x,
        x.clamped(min, max).clamped(min, max) == x.clamped(min, max),
{
}

/// The parts of a number are those of the binary32 format: one sign bit, eight bits of exponent
/// and 23 bits of fraction. An exponent of ones only is that of infinity and of NaN.
pub proof fn parts_are_those_of_the_format(x: Binary32)
    ensures
        x.negative() <==> x.bits >> 31 == 1,
        x.magnitude() == x.bits & 0x7fff_ffff,
        x.finite() <==> (x.bits >> 23) & 0xff != 0xff,
        x.nan() <==> (x.bits >> 23) & 0xff == 0xff && x.bits & 0x7f_ffff != 0,
        x.negated().bits == x.bits ^ 0x8000_0000,
{
    let b = x.bits;
    assert(b >= 0x8000_0000 <==> b >> 31 == 1) by (bit_vector);
    assert(b >= 0x8000_0000 ==> b & 0x7fff_ffff == b - 0x8000_0000) by (bit_vector);
    assert(b < 0x8000_0000 ==> b & 0x7fff_ffff == b) by (bit_vector);
    assert(b & 0x7fff_ffff < 0x7f80_0000 <==> (b >> 23) & 0xff != 0xff) by (bit_vector);
    assert(b & 0x7fff_ffff > 0x7f80_0000 <==> (b >> 23) & 0xff == 0xff && b & 0x7f_ffff != 0)
        by (bit_vector);
    assert(b >= 0x8000_0000 ==> b ^ 0x8000_0000 == b - 0x8000_0000) by (bit_vector);
    assert(b < 0x8000_0000 ==> b ^ 0x8000_0000 == b + 0x8000_0000) by (bit_vector);
}

/// In the total order, what has a sign comes before what has none. Without a sign the greater bit
/// pattern comes later, with one it comes earlier. So negative zero comes before zero, and NaNs
/// are told apart.
pub proof fn total_order_follows_the_bits(x: Binary32, y: Binary32)
    ensures
        x.bits < 0x8000_0000 && y.bits < 0x8000_0000 ==> (x.total_order() < y.total_order()
            <==> x.bits < y.bits),
        x.bits >= 0x8000_0000 && y.bits >= 0x8000_0000 ==> (x.total_order() < y.total_order()
            <==> y.bits < x.bits),
        x.bits >= 0x8000_0000 && y.bits < 0x8000_0000 ==> x.total_order() < y.total_order(),
{
}

/// Comparing two integers tells which of them is the smaller, or that none is.
pub proof fn int_order_tells_the_smaller(x: int, y: int)
    ensures
        int_order(x, y) == Ordering::Less <==> x < y,
        int_order(x, y) == Ordering::Greater <==> y < x,
        int_order(x, y) == Ordering::Equal <==> x == y,
{
}

/// Numbers compare as their values do. Infinity is above every finite number, its negation below
/// every one, and each is equal to itself alone. NaN compares with nothing.
pub proof fn comparisons_follow_the_values(x: Binary32, y: Binary32)
    ensures
        x.finite() && y.finite() ==> {
            &&& x.less_than(y) <==> x.units() < y.units()
            &&& x.equals(y) <==> x.units() == y.units()
            &&& x.at_most(y) <==> x.units() <= y.units()
        },
        x.finite() && y.bits == 0x7f80_0000 ==> x.less_than(y) && x.at_most(y) && !y.at_most(x),
        x.finite() && y.bits == 0xff80_0000 ==> y.less_than(x) && y.at_most(x) && !x.at_most(y),
        x.bits == 0xff80_0000 && y.bits == 0x7f80_0000 ==> x.less_than(y) && !y.at_most(x),
        !x.finite() && !x.nan() && !y.nan() ==> (x.equals(y) <==> x.bits == y.bits),
        x.nan() ==> !x.less_than(y) && !y.less_than(x) && !x.equals(y) && !x.at_most(y)
            && !y.at_most(x),
        x.at_most(y) <==> x.less_than(y) || x.equals(y),
        x.less_than(y) ==> !x.equals(y) && !y.at_most(x),
{
    if x.finite() && y.finite() {
        values_are_ordered_as_numbers(x, y);
    }
}

/// `==` on numbers is equality of their values: of the units of finite numbers, and of the bits of
/// infinities. NaN is equal to nothing, itself included.
pub proof fn numbers_are_equal_by_value(x: Binary32, y: Binary32)
    ensures
        x.finite() && y.finite() ==> (PartialEqSpec::eq_spec(&x, &y) <==> x.units() == y.units()),
        x.nan() || y.nan() ==> !PartialEqSpec::eq_spec(&x, &y),
        !x.nan() && !y.nan() && !(x.finite() && y.finite()) ==> (PartialEqSpec::eq_spec(&x, &y) <==> x.bits
            == y.bits),
{
    comparisons_follow_the_values(x, y);
    comparisons_follow_the_values(y, x);
}

/// The values of the first bit patterns are their own numbers of units, and from there on raising
/// the exponent by one doubles the value.
pub proof fn values_follow_the_bits(x: Binary32)
    ensures
        x.bits <= 0x0100_0000 ==> x.units() == x.bits,
        0x0080_0000 <= x.bits < 0x7f00_0000 ==> (Binary32 {
            bits: (x.bits + 0x0080_0000) as u32,
        }).units() == 2 * x.units(),
        x.negated().units() == -x.units(),
{
    let span = FRACTION_SPAN as int;
    vstd::arithmetic::power2::lemma2_to64();
    if x.bits <= 0x0100_0000 {
        if x.bits < 0x0080_0000 {
            assert(x.magnitude() / span == 0 && x.magnitude() % span == x.bits);
        } else if x.bits < 0x0100_0000 {
            assert(x.magnitude() / span == 1 && x.magnitude() % span == x.bits - span);
            assert(x.units() == (span + (x.bits - span)) * pow2(0));
        } else {
            assert(x.magnitude() / span == 2 && x.magnitude() % span == 0);
            assert(x.units() == (span + 0) * pow2(1));
        }
    }
    if 0x0080_0000 <= x.bits < 0x7f00_0000 {
        let y = Binary32 { bits: (x.bits + 0x0080_0000) as u32 };
        let exponent = x.magnitude() / span;
        let fraction = x.magnitude() % span;
        assert(y.magnitude() / span == exponent + 1 && y.magnitude() % span == fraction);
        let p = pow2((exponent - 1) as nat) as int;
        vstd::arithmetic::power2::lemma_pow2_unfold(exponent as nat);
        assert((span + fraction) * (2 * p) == 2 * ((span + fraction) * p)) by (nonlinear_arith);
    }
}

/// A number between the bounds is left as it is. One below them becomes the lower bound, and one
/// above them the upper bound.
pub proof fn clamping_moves_only_what_lies_outside(x: Binary32, min: Binary32, max: Binary32)
    requires
        !min.nan(),
        !max.nan(),
        !max.less_than(min),
    ensures
        min.at_most(x) && x.at_most(max) ==> x.clamped(min, max) == x,
        x.less_than(min) ==> x.clamped(min, max) == min,
        max.less_than(x) ==> x.clamped(min, max) == max,
        x.nan() ==> x.clamped(min, max) == x,
{
}

/// Zero is the number without units and without a sign, and one is the number of two to the power of
/// 149 units, each of which is two to the power of minus 149.
pub proof fn zero_and_one_have_their_values()
    ensures
        Binary32::zero().finite(),
        Binary32::zero().units() == 0,
        !Binary32::zero().negative(),
        Binary32::one().finite(),
        Binary32::one().units() == pow2(149),
{
    let one = Binary32::one();
    assert(one.magnitude() / FRACTION_SPAN as int == 127);
    assert(one.magnitude() % FRACTION_SPAN as int == 0);
    vstd::arithmetic::power2::lemma2_to64();
    vstd::arithmetic::power2::lemma_pow2_adds(23, 126);
}

} // verus!
