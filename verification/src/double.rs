//! IEEE 754 binary64 values as bit patterns.
//!
//! [`Double`] carries a floating-point value through the library without any
//! arithmetic on it. Classification, sign changes and both of the orders that
//! the experiments use, the numeric one and the total one, are integer
//! questions about the 64 bits, so they are answered exactly.

use vstd::arithmetic::power2::{lemma_pow2, lemma_pow2_pos, lemma_pow2_unfold, pow2};
use vstd::prelude::*;
use vstd::std_specs::cmp::PartialEqSpec;

verus! {

/// The sign bit of a binary64 pattern.
pub const SIGN_BIT: u64 = 0x8000_0000_0000_0000;

/// The pattern of positive infinity. Magnitudes above it are NaN.
pub const INFINITY_BITS: u64 = 0x7FF0_0000_0000_0000;

/// A binary64 value, held as its bit pattern.
///
/// `==` compares two values as numbers: both zeros agree, and a NaN equals
/// nothing. In a contract it says that the patterns are the same, and
/// [`Double::same_value`] stands for the numeric comparison.
#[derive(Clone, Copy, Debug)]
pub struct Double {
    /// The bit pattern: sign, eleven exponent bits, fifty-two fraction bits.
    pub bits: u64,
}

/// The magnitude `m` of a finite pattern, scaled by two to the power 1074 so
/// that it is an integer: a subnormal pattern is its fraction, and a normal one
/// is its fraction with the implicit leading bit, shifted by its exponent.
pub open spec fn scaled_magnitude(m: int) -> int {
    let exponent: int = m / 0x10_0000_0000_0000;
    let fraction: int = m % 0x10_0000_0000_0000;
    if exponent == 0 {
        fraction
    } else {
        (0x10_0000_0000_0000 + fraction) * (pow2((exponent - 1) as nat) as int)
    }
}

impl Double {
    /// Whether the sign bit is set.
    pub open spec fn negative(self) -> bool {
        self.bits >= SIGN_BIT
    }

    /// The pattern without its sign bit.
    pub open spec fn magnitude(self) -> int {
        if self.negative() {
            self.bits - SIGN_BIT
        } else {
            self.bits as int
        }
    }

    /// Whether the value is a NaN.
    pub open spec fn nan(self) -> bool {
        self.magnitude() > INFINITY_BITS
    }

    /// Whether the value is neither infinite nor a NaN.
    pub open spec fn finite(self) -> bool {
        self.magnitude() < INFINITY_BITS
    }

    /// An integer that orders the values that are no NaN as their numeric order
    /// does; both zeros have rank zero.
    pub open spec fn rank(self) -> int {
        if self.negative() {
            -self.magnitude()
        } else {
            self.magnitude()
        }
    }

    /// An integer that orders all patterns as the IEEE 754 total order does:
    /// negative NaNs first, negative zero just below positive zero, positive
    /// NaNs last.
    pub open spec fn total_rank(self) -> int {
        if self.negative() {
            -self.magnitude() - 1
        } else {
            self.magnitude()
        }
    }

    /// The exact numeric value of a finite pattern, scaled by two to the power
    /// 1074 so that it is an integer.
    pub open spec fn scaled_value(self) -> int {
        if self.negative() {
            -scaled_magnitude(self.magnitude())
        } else {
            scaled_magnitude(self.magnitude())
        }
    }

    /// Numeric `self > other`: false where either side is a NaN.
    pub open spec fn greater(self, other: Double) -> bool {
        !self.nan() && !other.nan() && self.rank() > other.rank()
    }

    /// Numeric `self == other`: false where either side is a NaN.
    pub open spec fn same_value(self, other: Double) -> bool {
        !self.nan() && !other.nan() && self.rank() == other.rank()
    }

    /// Numeric `self >= other`: false where either side is a NaN.
    pub open spec fn greater_or_same(self, other: Double) -> bool {
        !self.nan() && !other.nan() && self.rank() >= other.rank()
    }

    /// The value with its sign bit flipped.
    pub open spec fn negated(self) -> Double {
        Double {
            bits: if self.negative() {
                (self.bits - SIGN_BIT) as u64
            } else {
                (self.bits + SIGN_BIT) as u64
            },
        }
    }

    /// The value with its sign bit cleared.
    pub open spec fn absolute(self) -> Double {
        Double { bits: self.magnitude() as u64 }
    }

    /// Whether the value is positive and finite.
    pub open spec fn positive_finite(self) -> bool {
        self.finite() && self.rank() > 0
    }

    /// The value whose pattern is `bits`.
    pub fn from_bits(bits: u64) -> (value: Double)
        ensures
            value.bits == bits,
    {
        Double { bits }
    }

    /// The pattern.
    pub fn to_bits(self) -> (bits: u64)
        ensures
            bits == self.bits,
    {
        self.bits
    }

    /// Whether the value is a NaN.
    pub fn is_nan(self) -> (answer: bool)
        ensures
            answer == self.nan(),
    {
        self.abs().bits > INFINITY_BITS
    }

    /// Whether the value is neither infinite nor a NaN.
    pub fn is_finite(self) -> (answer: bool)
        ensures
            answer == self.finite(),
    {
        self.abs().bits < INFINITY_BITS
    }

    /// The absolute value.
    pub fn abs(self) -> (value: Double)
        ensures
            value == self.absolute(),
            !value.negative(),
            value.magnitude() == self.magnitude(),
    {
        if self.bits >= SIGN_BIT {
            Double { bits: self.bits - SIGN_BIT }
        } else {
            self
        }
    }

    /// The negated value. The sign bit flips on zeros and NaNs too.
    pub fn neg(self) -> (value: Double)
        ensures
            value == self.negated(),
    {
        if self.bits >= SIGN_BIT {
            Double { bits: self.bits - SIGN_BIT }
        } else {
            Double { bits: self.bits + SIGN_BIT }
        }
    }

    /// Numeric `self > other`.
    pub fn exceeds(self, other: Double) -> (answer: bool)
        ensures
            answer == self.greater(other),
    {
        !self.is_nan() && !other.is_nan() && self.order_key() > other.order_key()
    }

    /// Numeric `self >= other`.
    pub fn reaches(self, other: Double) -> (answer: bool)
        ensures
            answer == self.greater_or_same(other),
    {
        !self.is_nan() && !other.is_nan() && self.order_key() >= other.order_key()
    }

    /// Numeric `self == other`.
    pub fn equals(self, other: Double) -> (answer: bool)
        ensures
            answer == self.same_value(other),
    {
        !self.is_nan() && !other.is_nan() && self.order_key() == other.order_key()
    }

    /// Whether the value is positive and finite.
    pub fn is_positive_finite(self) -> (answer: bool)
        ensures
            answer == self.positive_finite(),
    {
        self.is_finite() && self.order_key() > 0
    }

    /// Whether `self` comes after `other` in the total order.
    pub fn totally_exceeds(self, other: Double) -> (answer: bool)
        ensures
            answer == (self.total_rank() > other.total_rank()),
    {
        self.total_key() > other.total_key()
    }

    fn order_key(self) -> (key: i64)
        ensures
            key == self.rank(),
    {
        if self.bits >= SIGN_BIT {
            -((self.bits - SIGN_BIT) as i64)
        } else {
            self.bits as i64
        }
    }

    fn total_key(self) -> (key: i64)
        ensures
            key == self.total_rank(),
    {
        if self.bits >= SIGN_BIT {
            -((self.bits - SIGN_BIT) as i64) - 1
        } else {
            self.bits as i64
        }
    }
}

impl PartialEq for Double {
    fn eq(&self, other: &Double) -> (answer: bool) {
        self.equals(*other)
    }
}

impl vstd::std_specs::cmp::PartialEqSpecImpl for Double {
    open spec fn obeys_eq_spec() -> bool {
        true
    }

    open spec fn eq_spec(&self, other: &Double) -> bool {
        self.same_value(*other)
    }
}

/// The first largest of `values` that is no NaN, or negative infinity where
/// there is none: the left fold of the NaN-ignoring maximum from negative
/// infinity.
pub open spec fn peak_of(values: Seq<Double>) -> Double
    decreases values.len(),
{
    if values.len() == 0 {
        Double { bits: 0xFFF0_0000_0000_0000 }
    } else {
        let before = peak_of(values.drop_last());
        if values.last().greater(before) {
            values.last()
        } else {
            before
        }
    }
}

/// The largest of `values` that is no NaN, negative infinity where there is
/// none.
pub fn peak(values: &[Double]) -> (largest: Double)
    ensures
        largest == peak_of(values@),
        !largest.nan(),
        largest.bits == 0xFFF0_0000_0000_0000 || values@.contains(largest),
        forall|i: int|
            0 <= i < values@.len() && !(#[trigger] values@[i]).nan() ==> values@[i].rank()
                <= largest.rank(),
{
    let mut largest = Double { bits: 0xFFF0_0000_0000_0000 };
    let mut i: usize = 0;
    while i < values.len()
        invariant
            i <= values@.len(),
            largest == peak_of(values@.take(i as int)),
            !largest.nan(),
            largest.bits == 0xFFF0_0000_0000_0000 || values@.contains(largest),
            forall|k: int|
                0 <= k < i && !(#[trigger] values@[k]).nan() ==> values@[k].rank()
                    <= largest.rank(),
        decreases values@.len() - i,
    {
        assert(values@.take(i + 1).drop_last() =~= values@.take(i as int));
        let value = values[i];
        if value.exceeds(largest) {
            largest = value;
        }
        i += 1;
    }
    assert(values@.take(i as int) =~= values@);
    largest
}

proof fn lemma_magnitude_step(m: int)
    requires
        0 <= m,
    ensures
        scaled_magnitude(m) < scaled_magnitude(m + 1),
{
    let exponent = m / 0x10_0000_0000_0000;
    let fraction = m % 0x10_0000_0000_0000;
    if fraction + 1 < 0x10_0000_0000_0000 {
        assert((m + 1) / 0x10_0000_0000_0000 == exponent);
        assert((m + 1) % 0x10_0000_0000_0000 == fraction + 1);
        if exponent > 0 {
            let unit = pow2((exponent - 1) as nat) as int;
            lemma_pow2_pos((exponent - 1) as nat);
            assert((0x10_0000_0000_0000 + fraction) * unit < (0x10_0000_0000_0000 + (fraction + 1))
                * unit) by (nonlinear_arith)
                requires
                    unit > 0,
            ;
        }
    } else {
        assert((m + 1) / 0x10_0000_0000_0000 == exponent + 1);
        assert((m + 1) % 0x10_0000_0000_0000 == 0);
        if exponent == 0 {
            lemma_pow2(0);
            assert(pow2(0) == 1) by {
                vstd::arithmetic::power2::lemma2_to64();
            }
        } else {
            let unit = pow2((exponent - 1) as nat) as int;
            lemma_pow2_pos((exponent - 1) as nat);
            lemma_pow2_unfold(exponent as nat);
            assert(pow2(exponent as nat) == 2 * unit);
            assert((0x10_0000_0000_0000 + fraction) * unit < 0x10_0000_0000_0000 * (2 * unit))
                by (nonlinear_arith)
                requires
                    unit > 0,
                    fraction < 0x10_0000_0000_0000,
            ;
        }
    }
}

proof fn lemma_magnitude_increases(low: int, high: int)
    requires
        0 <= low < high,
    ensures
        scaled_magnitude(low) < scaled_magnitude(high),
    decreases high - low,
{
    lemma_magnitude_step(high - 1);
    if low < high - 1 {
        lemma_magnitude_increases(low, high - 1);
    }
}

/// The ranks of two finite patterns are ordered as their exact values are, so
/// comparing ranks is comparing numbers.
pub proof fn rank_orders_exact_values(a: Double, b: Double)
    requires
        a.finite(),
        b.finite(),
    ensures
        a.rank() < b.rank() <==> a.scaled_value() < b.scaled_value(),
        a.rank() == b.rank() <==> a.scaled_value() == b.scaled_value(),
{
    let (x, y) = (a.magnitude(), b.magnitude());
    if x < y {
        lemma_magnitude_increases(x, y);
    }
    if y < x {
        lemma_magnitude_increases(y, x);
    }
    assert(scaled_magnitude(0) == 0);
    if x > 0 {
        lemma_magnitude_increases(0, x);
    }
    if y > 0 {
        lemma_magnitude_increases(0, y);
    }
}

/// Negation undoes itself, keeps the classification, and negates the exact
/// value and the rank.
pub proof fn negation_is_an_involution(a: Double)
    ensures
        a.negated().negated() == a,
        a.negated().magnitude() == a.magnitude(),
        a.negated().rank() == -a.rank(),
        a.negated().scaled_value() == -a.scaled_value(),
{
}

/// A pattern reads as IEEE 754 lays it out, by its sign bit, its eleven exponent
/// bits and its fifty-two fraction bits: an exponent of all ones is an infinity
/// or, with a fraction, a NaN; an exponent of zero scales the bare fraction; and
/// any other one scales the fraction with its leading bit.
pub proof fn patterns_have_fields(value: Double, sign: u64, exponent: u64, fraction: u64)
    requires
        sign <= 1,
        exponent <= 2047,
        fraction < 0x10_0000_0000_0000,
        value.bits == sign * 0x8000_0000_0000_0000 + exponent * 0x10_0000_0000_0000 + fraction,
    ensures
        value.negative() <==> sign == 1,
        value.magnitude() == exponent * 0x10_0000_0000_0000 + fraction,
        value.nan() <==> exponent == 2047 && fraction > 0,
        value.finite() <==> exponent < 2047,
        sign == 0 ==> value.rank() == exponent * 0x10_0000_0000_0000 + fraction,
        sign == 1 ==> value.rank() == -(exponent * 0x10_0000_0000_0000 + fraction),
        sign == 0 && exponent == 0 ==> value.scaled_value() == fraction,
        sign == 1 && exponent == 0 ==> value.scaled_value() == -fraction,
        sign == 0 && exponent > 0 ==> value.scaled_value() == (0x10_0000_0000_0000 + fraction)
            * pow2((exponent - 1) as nat),
        sign == 1 && exponent > 0 ==> value.scaled_value() == -((0x10_0000_0000_0000 + fraction)
            * pow2((exponent - 1) as nat)),
{
    let m = value.magnitude();
    assert(m == exponent * 0x10_0000_0000_0000 + fraction);
    assert(m / 0x10_0000_0000_0000 == exponent);
    assert(m % 0x10_0000_0000_0000 == fraction);
}

/// The comparisons are those of the numbers: of finite values, those of the
/// exact values; the infinities lie beyond all finite values and equal
/// themselves; and a NaN compares with nothing, itself included.
pub proof fn comparisons_are_numeric(a: Double, b: Double)
    ensures
        a.eq_spec(&b) == a.same_value(b),
        a.nan() || b.nan() ==> !a.greater(b) && !a.same_value(b) && !a.greater_or_same(b),
        a.finite() && b.finite() ==> {
            &&& a.greater(b) <==> a.scaled_value() > b.scaled_value()
            &&& a.same_value(b) <==> a.scaled_value() == b.scaled_value()
            &&& a.greater_or_same(b) <==> a.scaled_value() >= b.scaled_value()
        },
        !a.nan() && !a.finite() <==> a.bits == 0x7FF0_0000_0000_0000 || a.bits
            == 0xFFF0_0000_0000_0000,
        a.bits == 0x7FF0_0000_0000_0000 && !b.nan() ==> {
            &&& a.greater_or_same(b)
            &&& a.greater(b) <==> a.bits != b.bits
            &&& a.same_value(b) <==> a.bits == b.bits
            &&& !b.greater(a)
            &&& b.greater_or_same(a) <==> a.bits == b.bits
        },
        a.bits == 0xFFF0_0000_0000_0000 && !b.nan() ==> {
            &&& b.greater_or_same(a)
            &&& b.greater(a) <==> a.bits != b.bits
            &&& a.same_value(b) <==> a.bits == b.bits
            &&& !a.greater(b)
            &&& a.greater_or_same(b) <==> a.bits == b.bits
        },
        a.positive_finite() <==> 0 < a.bits < 0x7FF0_0000_0000_0000,
{
    if a.finite() && b.finite() {
        rank_orders_exact_values(a, b);
    }
}

/// The total order puts the patterns with a clear sign bit in the order of their
/// bits, those with a set one below them in the opposite order, and tells all
/// patterns apart.
pub proof fn total_order_is_by_bits(a: Double, b: Double)
    ensures
        a.total_rank() == b.total_rank() <==> a.bits == b.bits,
        a.bits < 0x8000_0000_0000_0000 && b.bits < 0x8000_0000_0000_0000 ==> (a.total_rank()
            < b.total_rank() <==> a.bits < b.bits),
        a.bits >= 0x8000_0000_0000_0000 && b.bits >= 0x8000_0000_0000_0000 ==> (a.total_rank()
            < b.total_rank() <==> a.bits > b.bits),
        a.bits >= 0x8000_0000_0000_0000 && b.bits < 0x8000_0000_0000_0000 ==> a.total_rank()
            < b.total_rank(),
{
}

/// Negating changes the sign bit and no other, also of a zero and a NaN; and the
/// absolute value clears it.
pub proof fn signs_change_alone(a: Double)
    ensures
        a.bits < 0x8000_0000_0000_0000 ==> a.negated().bits == a.bits + 0x8000_0000_0000_0000
            && a.absolute().bits == a.bits,
        a.bits >= 0x8000_0000_0000_0000 ==> a.negated().bits == a.bits - 0x8000_0000_0000_0000
            && a.absolute().bits == a.bits - 0x8000_0000_0000_0000,
{
}

} // verus!
