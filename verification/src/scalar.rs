//! Single-precision numbers carried as their IEEE-754 bit patterns.
//!
//! The library stores, compares and clamps such numbers; it never adds or
//! multiplies them.
use vstd::prelude::*;

verus! {

/// One IEEE-754 binary32 value, kept as its bit pattern.
///
/// `==` compares bit patterns; [`Scalar::equals`] and the order predicates
/// compare the numbers that the patterns stand for.
#[derive(Clone, Copy, Debug, PartialEq, Eq, Structural)]
pub struct Scalar {
    /// Sign, exponent and fraction as one word.
    pub bits: u32,
}

/// Weight of the sign bit.
pub const SIGN_WEIGHT: u32 = 0x8000_0000;

/// Magnitude of the infinities; every larger magnitude is a NaN.
pub const INFINITE_MAGNITUDE: u32 = 0x7f80_0000;

impl Scalar {
    /// Positive zero.
    #[verifier::allow_in_spec]
    pub fn zero() -> Scalar
        returns
            (Scalar { bits: 0 }),
    {
        Scalar { bits: 0 }
    }

    /// The number one.
    #[verifier::allow_in_spec]
    pub fn one() -> Scalar
        returns
            (Scalar { bits: 0x3f80_0000 }),
    {
        Scalar { bits: 0x3f80_0000 }
    }

    /// The bit pattern without its sign.
    pub open spec fn spec_magnitude(self) -> int {
        if self.bits < SIGN_WEIGHT { self.bits as int } else { self.bits - SIGN_WEIGHT }
    }

    /// Whether the value is not a number.
    pub open spec fn nan(self) -> bool {
        self.spec_magnitude() > INFINITE_MAGNITUDE
    }

    /// Whether the value is neither infinite nor a NaN.
    pub open spec fn finite(self) -> bool {
        self.spec_magnitude() < INFINITE_MAGNITUDE
    }

    /// Position of a number in numeric order; both zeroes share one position.
    pub open spec fn position(self) -> int {
        if self.bits < SIGN_WEIGHT { self.bits as int } else { SIGN_WEIGHT - self.bits }
    }

    /// Numeric equality: a NaN equals nothing, the two zeroes are equal.
    pub open spec fn same_number(self, other: Scalar) -> bool {
        !self.nan() && !other.nan() && self.position() == other.position()
    }

    /// Numeric order: false whenever a NaN takes part.
    pub open spec fn below(self, other: Scalar) -> bool {
        !self.nan() && !other.nan() && self.position() < other.position()
    }

    /// The number confined to `low..=high`; a NaN stays a NaN.
    pub open spec fn confined(self, low: Scalar, high: Scalar) -> Scalar {
        if self.below(low) { low } else if high.below(self) { high } else { self }
    }

    /// Wraps a bit pattern.
    pub fn from_bits(bits: u32) -> (scalar: Scalar)
        ensures
            scalar.bits == bits,
    {
        Scalar { bits }
    }

    /// The bit pattern without its sign.
    pub fn magnitude(self) -> (magnitude: u32)
        ensures
            magnitude == self.spec_magnitude(),
    {
        if self.bits < SIGN_WEIGHT { self.bits } else { self.bits - SIGN_WEIGHT }
    }

    /// Whether the value is not a number.
    pub fn is_nan(self) -> (nan: bool)
        ensures
            nan == self.nan(),
    {
        self.magnitude() > INFINITE_MAGNITUDE
    }

    /// Whether the value is neither infinite nor a NaN.
    pub fn is_finite(self) -> (finite: bool)
        ensures
            finite == self.finite(),
    {
        self.magnitude() < INFINITE_MAGNITUDE
    }

    /// Numeric equality.
    pub fn equals(self, other: Scalar) -> (equal: bool)
        ensures
            equal == self.same_number(other),
    {
        if self.is_nan() || other.is_nan() {
            false
        } else {
            self.bits == other.bits || (self.magnitude() == 0 && other.magnitude() == 0)
        }
    }

    /// Numeric less-than.
    pub fn less_than(self, other: Scalar) -> (less: bool)
        ensures
            less == self.below(other),
    {
        if self.is_nan() || other.is_nan() {
            false
        } else if self.bits < SIGN_WEIGHT {
            other.bits < SIGN_WEIGHT && self.bits < other.bits
        } else if other.bits < SIGN_WEIGHT {
            self.magnitude() != 0 || other.bits != 0
        } else {
            other.bits < self.bits
        }
    }

    /// Confines the number to `low..=high`; a NaN passes through.
    pub fn clamp(self, low: Scalar, high: Scalar) -> (clamped: Scalar)
        ensures
            clamped == self.confined(low, high),
    {
        if self.less_than(low) {
            low
        } else if high.less_than(self) {
            high
        } else {
            self
        }
    }
}

/// Confining to the unit interval leaves a number of the unit interval, or a NaN.
pub proof fn law_confined_numbers_stay_in_the_unit_interval(value: Scalar)
    ensures
        value.nan() ==> value.confined(Scalar::zero(), Scalar::one()) == value,
        !value.nan() ==> {
            let confined = value.confined(Scalar::zero(), Scalar::one());
            &&& confined.finite()
            &&& 0 <= confined.position() <= Scalar::one().position()
        },
{
}

} // verus!
