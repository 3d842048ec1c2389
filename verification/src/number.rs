//! JSON numbers, held as integers only.

use vstd::prelude::*;
use vstd::std_specs::cmp::PartialEqSpecImpl;

verus! {

/// Bit pattern of the IEEE-754 binary64 value `-0.0`.
pub const NEGATIVE_ZERO_BITS: u64 = 0x8000_0000_0000_0000;

/// A JSON number.
///
/// Integers are kept apart from floating-point values, and a floating-point
/// value is carried as its IEEE-754 binary64 bit pattern, so that the whole
/// type is made of integers.
#[derive(Clone, Copy, Debug, Eq)]
pub enum Number {
    /// A non-negative integer.
    PosInt(u64),
    /// A negative integer.
    NegInt(i64),
    /// The bit pattern of a finite binary64 value.
    Float(u64),
}

/// Whether `bits` is the pattern of `0.0` or of `-0.0`.
pub open spec fn is_zero_bits(bits: u64) -> bool {
    bits == 0 || bits == NEGATIVE_ZERO_BITS
}

/// Numeric equality of two finite binary64 values given by their patterns:
/// the patterns coincide, or both stand for a zero.
pub open spec fn float_bits_equal(a: u64, b: u64) -> bool {
    a == b || (is_zero_bits(a) && is_zero_bits(b))
}

impl Number {
    /// Equality of numbers: the same variant holding the same number. An
    /// integer never equals a float, and the two zeros of binary64 are equal.
    pub open spec fn same(self, other: Number) -> bool {
        match (self, other) {
            (Number::PosInt(a), Number::PosInt(b)) => a == b,
            (Number::NegInt(a), Number::NegInt(b)) => a == b,
            (Number::Float(a), Number::Float(b)) => float_bits_equal(a, b),
            _ => false,
        }
    }

    /// `same` is reflexive.
    pub proof fn lemma_same_reflexive(self)
        ensures
            self.same(self),
    {
    }

    /// `same` is symmetric.
    pub proof fn lemma_same_symmetric(self, other: Number)
        ensures
            self.same(other) == other.same(self),
    {
    }

    /// `same` is transitive.
    pub proof fn lemma_same_transitive(self, middle: Number, other: Number)
        requires
            self.same(middle),
            middle.same(other),
        ensures
            self.same(other),
    {
    }
}

impl PartialEq for Number {
    fn eq(&self, other: &Number) -> (equal: bool) {
        match (*self, *other) {
            (Number::PosInt(a), Number::PosInt(b)) => a == b,
            (Number::NegInt(a), Number::NegInt(b)) => a == b,
            (Number::Float(a), Number::Float(b)) => {
                a == b || ((a == 0 || a == NEGATIVE_ZERO_BITS) && (b == 0 || b
                    == NEGATIVE_ZERO_BITS))
            },
            _ => false,
        }
    }
}

impl PartialEqSpecImpl for Number {
    open spec fn obeys_eq_spec() -> bool {
        true
    }

    open spec fn eq_spec(&self, other: &Number) -> bool {
        self.same(*other)
    }
}

} // verus!
