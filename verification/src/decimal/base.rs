//! The value/scale/sign triple and its constructors and conversions.

use vstd::prelude::*;

use crate::math::{pow10, pow10_u128, lemma_pow10_pos, lemma_pow10_increases, lemma_pow10_38_fits};
use crate::decimal::errors::ErrorCode;
use crate::decimal::ops::div_up::DivUp;
use crate::decimal::ops::mul_up::MulUp;
use crate::decimal::ops::sub::Sub;
use vstd::arithmetic::div_mod::{lemma_fundamental_div_mod, lemma_mod_bound};

verus! {

/// Internal scale used for high precision compute operations.
pub const COMPUTE_SCALE: u8 = 12;

/// A decimal number: an unsigned 128-bit magnitude, a scale counting the
/// implied decimal places, and a sign flag.  The number represented is
/// `(negative ? -1 : 1) * value / 10^scale`.
#[derive(Clone, Copy, PartialEq, Eq, Structural, Debug)]
pub struct Decimal {
    pub value: u128,
    pub scale: u8,
    pub negative: bool,
}

/// The signed magnitude of `d` (its scale left aside).
pub open spec fn sval(d: Decimal) -> int {
    if d.negative {
        -(d.value as int)
    } else {
        d.value as int
    }
}

/// The scale change `d.to_scale(s)` is defined for: growing the scale must
/// keep the magnitude within a `u128`, and a jump of more than 38 places
/// cannot be expressed as a `u128` power of ten.
pub open spec fn to_scale_ok(d: Decimal, s: u8) -> bool {
    if s >= d.scale {
        s - d.scale <= 38 && d.value * pow10((s - d.scale) as nat) <= u128::MAX
    } else {
        d.scale - s <= 38
    }
}

/// The magnitude after changing the scale of `d` to `s`: scaling up
/// multiplies by a power of ten, scaling down truncates toward zero.
pub open spec fn to_scale_val(d: Decimal, s: u8) -> nat {
    if s >= d.scale {
        d.value as nat * pow10((s - d.scale) as nat)
    } else {
        d.value as nat / pow10((d.scale - s) as nat)
    }
}

/// The ceiling scale change `d.to_scale_up(s)` is defined for: growing the
/// scale must keep the magnitude within a `u128`, and the rounding
/// increment added while shrinking must do the same.
pub open spec fn to_scale_up_ok(d: Decimal, s: u8) -> bool {
    if d.scale >= s {
        d.scale - s <= 38 && d.value + pow10((d.scale - s) as nat) - 1 <= u128::MAX
    } else {
        s - d.scale <= 38 && d.value * pow10((s - d.scale) as nat) <= u128::MAX
    }
}

/// The magnitude after changing the scale of `d` to `s` with the magnitude
/// rounded away from zero when the scale decreases.
pub open spec fn to_scale_up_val(d: Decimal, s: u8) -> nat {
    if d.scale >= s {
        ((d.value + pow10((d.scale - s) as nat) - 1) as nat) / pow10((d.scale - s) as nat)
    } else {
        d.value as nat * pow10((s - d.scale) as nat)
    }
}

impl Decimal {
    /// Create a new [`Decimal`] from its value, scale and negative parts.
    /// Zero is coerced to non-negative; nothing else is normalized.
    pub fn new(value: u128, scale: u8, negative: bool) -> (r: Self)
        ensures
            r.value == value,
            r.scale == scale,
            r.negative == (negative && value != 0),
    {
        Self { value, scale, negative: negative && value != 0 }
    }

    pub fn zero() -> (r: Decimal)
        ensures
            r.value == 0,
            r.scale == COMPUTE_SCALE,
            r.negative == false,
    {
        Decimal::from_u64(0).to_compute_scale()
    }

    pub fn one() -> (r: Decimal)
        ensures
            r.value == pow10(COMPUTE_SCALE as nat),
            r.scale == COMPUTE_SCALE,
            r.negative == false,
    {
        proof {
            lemma_pow10_12();
        }
        Decimal::from_u64(1).to_compute_scale()
    }

    pub fn two() -> (r: Decimal)
        ensures
            r.value == 2 * pow10(COMPUTE_SCALE as nat),
            r.scale == COMPUTE_SCALE,
            r.negative == false,
    {
        proof {
            lemma_pow10_12();
        }
        Decimal::from_u64(2).to_compute_scale()
    }

    /// The quarter, at the compute scale.
    pub fn zero_point_two_five() -> (r: Decimal)
        ensures
            r.value == 250000000000u128,
            r.scale == COMPUTE_SCALE,
            r.negative == false,
    {
        Decimal { value: 250000000000, scale: COMPUTE_SCALE, negative: false }
    }

    /// The half, at the compute scale.
    pub fn zero_point_five() -> (r: Decimal)
        ensures
            r.value == 500000000000u128,
            r.scale == COMPUTE_SCALE,
            r.negative == false,
    {
        Decimal { value: 500000000000, scale: COMPUTE_SCALE, negative: false }
    }

    /// Five quarters, at the compute scale.
    pub fn one_point_two_five() -> (r: Decimal)
        ensures
            r.value == 1250000000000u128,
            r.scale == COMPUTE_SCALE,
            r.negative == false,
    {
        Decimal { value: 1250000000000, scale: COMPUTE_SCALE, negative: false }
    }

    /// Three halves, at the compute scale.
    pub fn one_point_five() -> (r: Decimal)
        ensures
            r.value == 1500000000000u128,
            r.scale == COMPUTE_SCALE,
            r.negative == false,
    {
        Decimal { value: 1500000000000, scale: COMPUTE_SCALE, negative: false }
    }

    /// Create a [`Decimal`] from an unsigned integer, at scale zero.
    pub fn from_u64(integer: u64) -> (r: Self)
        ensures
            r.value == integer,
            r.scale == 0,
            r.negative == false,
    {
        Decimal { value: integer as u128, scale: 0, negative: false }
    }

    /// Create a [`Decimal`] from an unsigned integer, at scale zero.
    pub fn from_u128(integer: u128) -> (r: Self)
        ensures
            r.value == integer,
            r.scale == 0,
            r.negative == false,
    {
        Decimal { value: integer, scale: 0, negative: false }
    }

    /// Create a [`Decimal`] from an unsigned amount with a scale.
    pub fn from_scaled_amount(amount: u64, scale: u8) -> (r: Self)
        ensures
            r.value == amount,
            r.scale == scale,
            r.negative == false,
    {
        Decimal { value: amount as u128, scale, negative: false }
    }

    /// The magnitude, narrowed to a `u64`.
    pub fn to_u64(self) -> (r: u64)
        requires
            self.value <= u64::MAX,
        ensures
            r == self.value,
    {
        self.value as u64
    }

    /// The signed value, narrowed to an `i32`.
    pub fn to_i32(self) -> (r: i32)
        requires
            self.value <= i32::MAX,
        ensures
            r == sval(self),
    {
        let v = self.value as i32;
        if self.negative {
            -v
        } else {
            v
        }
    }

    /// The absolute value rounded down (floor) to an integer.
    pub fn abs(self) -> (r: u64)
        requires
            self.scale <= 38,
            self.value as nat / pow10(self.scale as nat) <= u64::MAX,
        ensures
            r == self.value as nat / pow10(self.scale as nat),
    {
        proof {
            assert(pow10(0) == 1);
            if self.scale == 0 {
                assert((0 - self.scale) as nat == 0);
                assert(self.value as nat * pow10(0) == self.value as nat * 1);
                lemma_div_by_one(self.value as nat);
                assert(to_scale_val(self, 0) == self.value as nat * 1);
            }
            assert(to_scale_ok(self, 0));
        }
        self.to_scale(0).to_u64()
    }

    /// Convert a [`Decimal`] back to a scaled `u64` amount, truncating.
    pub fn to_scaled_amount(self, scale: u8) -> (r: u64)
        requires
            to_scale_ok(self, scale),
            to_scale_val(self, scale) <= u64::MAX,
        ensures
            r == to_scale_val(self, scale),
    {
        self.to_scale(scale).to_u64()
    }

    /// Modify the scale (precision) of a [`Decimal`], truncating toward zero
    /// when the scale decreases; a magnitude that truncates to zero comes
    /// out non-negative.
    pub fn to_scale(self, scale: u8) -> (r: Self)
        requires
            to_scale_ok(self, scale),
        ensures
            r.value == to_scale_val(self, scale),
            r.scale == scale,
            r.negative == (self.negative && r.value != 0),
    {
        let value: u128 = if scale == self.scale {
            proof {
                assert(pow10(0) == 1);
                assert((scale - self.scale) as nat == 0);
                assert(to_scale_val(self, scale) == self.value as nat * pow10(0));
                assert(self.value as nat * 1 == self.value as nat);
            }
            self.value
        } else if self.scale > scale {
            self.value / pow10_u128(self.scale - scale)
        } else {
            self.value * pow10_u128(scale - self.scale)
        };
        Self::new(value, scale, self.negative)
    }

    /// Convert to the higher precision compute scale.
    pub fn to_compute_scale(self) -> (r: Self)
        requires
            to_scale_ok(self, COMPUTE_SCALE),
        ensures
            r.value == to_scale_val(self, COMPUTE_SCALE),
            r.scale == COMPUTE_SCALE,
            r.negative == (self.negative && r.value != 0),
    {
        self.to_scale(COMPUTE_SCALE)
    }

    /// The scale of a [`Decimal`] expressed as a power of 10.
    pub fn denominator(self) -> (r: u128)
        requires
            self.scale <= 38,
        ensures
            r == pow10(self.scale as nat),
            r >= 1,
    {
        pow10_u128(self.scale)
    }

    /// The absolute value rounded up (ceiling) to an integer.
    pub fn abs_up(self) -> (r: u64)
        requires
            to_scale_up_ok(self, 0),
            to_scale_up_val(self, 0) <= u64::MAX,
        ensures
            r == to_scale_up_val(self, 0),
    {
        self.to_scale_up(0).to_u64()
    }

    /// Convert a [`Decimal`] back to a scaled `u64` amount, rounding up.
    pub fn to_scaled_amount_up(self, scale: u8) -> (r: u64)
        requires
            to_scale_up_ok(self, scale),
            to_scale_up_val(self, scale) <= u64::MAX,
        ensures
            r == to_scale_up_val(self, scale),
    {
        self.to_scale_up(scale).to_u64()
    }

    /// Modify the scale (precision) of a [`Decimal`], rounding the
    /// magnitude away from zero when the scale decreases; built on the
    /// ceiling division and multiplication primitives, so zero comes out
    /// non-negative.
    pub fn to_scale_up(self, scale: u8) -> (r: Self)
        requires
            to_scale_up_ok(self, scale),
        ensures
            r.value == to_scale_up_val(self, scale),
            r.scale == scale,
            r.negative == (self.negative && r.value != 0),
    {
        let decimal = Self { value: self.value, scale, negative: self.negative };
        if self.scale >= scale {
            proof {
                lemma_pow10_pos((self.scale - scale) as nat);
                assert(pow10(0) == 1);
                assert(self.value as nat * pow10(0) == self.value as nat * 1);
            }
            decimal.div_up(Decimal { value: pow10_u128(self.scale - scale), scale: 0,
                negative: false })
        } else {
            proof {
                lemma_pow10_pos((scale - self.scale) as nat);
                assert(pow10(0) == 1);
                lemma_div_by_one((self.value * pow10((scale - self.scale) as nat)) as nat);
            }
            decimal.mul_up(Decimal { value: pow10_u128(scale - self.scale), scale: 0,
                negative: false })
        }
    }

    /// True if and only if the [`Decimal`] is an exact integer.
    pub fn is_integer(self) -> (r: bool)
        requires
            self.scale <= 38,
        ensures
            r == (self.value as nat % pow10(self.scale as nat) == 0),
    {
        let ghost p: nat = pow10(self.scale as nat);
        proof {
            lemma_pow10_pos(self.scale as nat);
            lemma_fundamental_div_mod(self.value as int, p as int);
            lemma_mod_bound(self.value as int, p as int);
            assert(pow10(0) == 1);
            if self.scale == 0 {
                lemma_div_by_one(self.value as nat);
            }
            assert((self.value as nat / p) * p == p * (self.value as nat / p));
        }
        let truncated = self.to_scale(0);
        proof {
            assert(truncated.value * pow10((self.scale - 0) as nat) <= u128::MAX);
        }
        let integer = truncated.to_scale(self.scale);
        let difference = match self.sub(integer) {
            Ok(d) => d,
            Err(_) => Decimal { value: 0, scale: self.scale, negative: false },
        };
        proof {
            assert(integer.value == (self.value as nat / p) * p);
            assert(sval(self) - sval(integer) == if self.negative {
                -((self.value as nat % p) as int)
            } else {
                (self.value as nat % p) as int
            });
        }
        difference.is_zero()
    }

    /// True when the number is strictly greater than zero.
    pub fn is_positive(self) -> (r: bool)
        ensures
            r == (!self.negative && self.value != 0),
    {
        !self.negative && !self.is_zero()
    }

    /// True when the number is strictly less than zero.
    pub fn is_negative(self) -> (r: bool)
        ensures
            r == (self.negative && self.value != 0),
    {
        self.negative && !self.is_zero()
    }

    /// True when the magnitude is zero.
    pub fn is_zero(self) -> (r: bool)
        ensures
            r == (self.value == 0),
    {
        self.value == 0
    }
}

/// A value already at the compute scale moves to it unchanged.
pub proof fn lemma_to_scale_identity(d: Decimal)
    requires
        d.scale == COMPUTE_SCALE,
    ensures
        to_scale_ok(d, COMPUTE_SCALE),
        to_scale_val(d, COMPUTE_SCALE) == d.value,
{
    assert(pow10(0) == 1);
    assert(d.value as nat * pow10(0) == d.value as nat * 1);
}

proof fn lemma_pow10_12()
    ensures
        pow10(12) == 1000000000000u128,
{
    reveal_with_fuel(pow10, 13);
}

proof fn lemma_div_by_one(v: nat)
    ensures
        v / pow10(0) == v,
{
    assert(pow10(0) == 1);
}

} // verus!
