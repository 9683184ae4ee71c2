//! Speech probabilities as the model emits them: IEEE-754 binary32 values,
//! held by their bit pattern so that every comparison the detectors make can
//! be stated and checked exactly (NaN and signed zero included).

use vstd::prelude::*;

verus! {

/// Bit pattern of binary32 `1.0`.
pub const ONE_BITS: u32 = 0x3f80_0000;

/// The sign bit of a binary32 value.
pub const SIGN_BIT: u32 = 0x8000_0000;

/// Bit pattern of binary32 `+inf`; every magnitude above it encodes a NaN.
pub const INFINITY_BITS: u32 = 0x7f80_0000;

/// A binary32 value given by its bit pattern.
#[derive(Clone, Copy, Debug, PartialEq, Eq, Structural)]
pub struct Probability {
    pub bits: u32,
}

impl Probability {
    /// The bit pattern without its sign bit.
    pub open spec fn magnitude(self) -> int {
        if self.bits >= SIGN_BIT {
            self.bits - SIGN_BIT
        } else {
            self.bits as int
        }
    }

    /// Whether the bit pattern encodes a NaN.
    pub open spec fn is_nan_spec(self) -> bool {
        self.magnitude() > INFINITY_BITS
    }

    /// For values that are not NaN, the position on the extended real line,
    /// as an integer: binary32 values of one sign are ordered as their
    /// magnitudes are, and `-0.0` and `+0.0` share the key `0`.
    pub open spec fn order_key(self) -> int {
        if self.bits >= SIGN_BIT {
            -self.magnitude()
        } else {
            self.magnitude()
        }
    }

    /// IEEE-754 `self >= other`: false when either side is NaN.
    pub open spec fn ieee_ge(self, other: Probability) -> bool {
        !self.is_nan_spec() && !other.is_nan_spec() && self.order_key() >= other.order_key()
    }

    /// IEEE-754 `self < other`: false when either side is NaN.
    pub open spec fn ieee_lt(self, other: Probability) -> bool {
        !self.is_nan_spec() && !other.is_nan_spec() && self.order_key() < other.order_key()
    }

    /// IEEE-754 `self <= other`: false when either side is NaN.
    pub open spec fn ieee_le(self, other: Probability) -> bool {
        !self.is_nan_spec() && !other.is_nan_spec() && self.order_key() <= other.order_key()
    }

    /// `f32::min`: a NaN argument yields the other one; of two values that
    /// compare equal, `self` is kept.
    pub open spec fn ieee_min(self, other: Probability) -> Probability {
        if self.is_nan_spec() {
            other
        } else if other.is_nan_spec() {
            self
        } else if other.order_key() < self.order_key() {
            other
        } else {
            self
        }
    }

    /// The value with the given bit pattern.
    pub fn from_bits(bits: u32) -> (p: Probability)
        ensures
            p.bits == bits,
    {
        Probability { bits }
    }

    /// The bit pattern of the value.
    pub fn to_bits(self) -> (bits: u32)
        ensures
            bits == self.bits,
    {
        self.bits
    }

    /// `1.0`.
    pub fn one() -> (p: Probability)
        ensures
            p.bits == ONE_BITS,
    {
        Probability { bits: ONE_BITS }
    }

    fn magnitude_exec(self) -> (m: u32)
        ensures
            m == self.magnitude(),
    {
        if self.bits >= SIGN_BIT {
            self.bits - SIGN_BIT
        } else {
            self.bits
        }
    }

    fn order_key_exec(self) -> (k: i64)
        ensures
            k == self.order_key(),
    {
        let m = self.magnitude_exec();
        if self.bits >= SIGN_BIT {
            -(m as i64)
        } else {
            m as i64
        }
    }

    /// Whether the value is a NaN.
    pub fn is_nan(self) -> (r: bool)
        ensures
            r == self.is_nan_spec(),
    {
        self.magnitude_exec() > INFINITY_BITS
    }

    /// `self >= other` as binary32 values.
    pub fn ge(self, other: Probability) -> (r: bool)
        ensures
            r == self.ieee_ge(other),
    {
        !self.is_nan() && !other.is_nan() && self.order_key_exec() >= other.order_key_exec()
    }

    /// `self < other` as binary32 values.
    pub fn lt(self, other: Probability) -> (r: bool)
        ensures
            r == self.ieee_lt(other),
    {
        !self.is_nan() && !other.is_nan() && self.order_key_exec() < other.order_key_exec()
    }

    /// `self <= other` as binary32 values.
    pub fn le(self, other: Probability) -> (r: bool)
        ensures
            r == self.ieee_le(other),
    {
        !self.is_nan() && !other.is_nan() && self.order_key_exec() <= other.order_key_exec()
    }

    /// The smaller of two values, as `f32::min` picks it.
    pub fn min(self, other: Probability) -> (r: Probability)
        ensures
            r == self.ieee_min(other),
    {
        if self.is_nan() {
            other
        } else if other.is_nan() {
            self
        } else if other.order_key_exec() < self.order_key_exec() {
            other
        } else {
            self
        }
    }
}

} // verus!
