//! The extended-precision decimal: the same value/scale/sign triple with a
//! 192-bit magnitude, used where an intermediate product would overflow the
//! native 128-bit width.

use vstd::prelude::*;

use crate::decimal::base::Decimal;
use crate::math::{pow10, pow10_u128, lemma_pow10_pos};
use crate::uint::{u192_bound, U192};

verus! {

/// Internal scale used for high precision compute operations on the
/// extended width.
pub const BIG_COMPUTE_SCALE: u8 = 18;

/// A decimal number with a 192-bit magnitude.
#[derive(Clone, Copy, PartialEq, Eq, Structural, Debug)]
pub struct BigDecimal {
    pub value: U192,
    pub scale: u8,
    pub negative: bool,
}

/// The scale change `d.to_scale(s)` is defined for: growing the scale must
/// keep the magnitude within 192 bits.
pub open spec fn big_to_scale_ok(d: BigDecimal, s: u8) -> bool {
    if s >= d.scale {
        s - d.scale <= 38 && d.value.as_nat() * pow10((s - d.scale) as nat) < u192_bound()
    } else {
        d.scale - s <= 38
    }
}

/// The magnitude after changing the scale of `d` to `s`.
pub open spec fn big_to_scale_val(d: BigDecimal, s: u8) -> nat {
    if s >= d.scale {
        d.value.as_nat() * pow10((s - d.scale) as nat)
    } else {
        d.value.as_nat() / pow10((d.scale - s) as nat)
    }
}

impl BigDecimal {
    /// Create a new [`BigDecimal`] from its value, scale and negative
    /// parts.  Zero is coerced to non-negative.
    pub fn new(value: U192, scale: u8, negative: bool) -> (r: Self)
        ensures
            r.value == value,
            r.scale == scale,
            r.negative == (negative && value.as_nat() != 0),
    {
        let nonzero = !value.is_zero();
        Self { value, scale, negative: negative && nonzero }
    }

    pub fn one() -> (r: BigDecimal)
        ensures
            r.value.as_nat() == pow10(BIG_COMPUTE_SCALE as nat),
            r.scale == BIG_COMPUTE_SCALE,
            r.negative == false,
    {
        proof {
            lemma_pow10_18();
        }
        BigDecimal {
            value: U192::from_u64(1_000_000_000_000_000_000),
            scale: BIG_COMPUTE_SCALE,
            negative: false,
        }
    }

    pub fn two() -> (r: BigDecimal)
        ensures
            r.value.as_nat() == 2 * pow10(BIG_COMPUTE_SCALE as nat),
            r.scale == BIG_COMPUTE_SCALE,
            r.negative == false,
    {
        proof {
            lemma_pow10_18();
        }
        BigDecimal {
            value: U192::from_u64(2_000_000_000_000_000_000),
            scale: BIG_COMPUTE_SCALE,
            negative: false,
        }
    }

    /// The quarter, at the compute scale.
    pub fn zero_point_two_five() -> (r: BigDecimal)
        ensures
            4 * r.value.as_nat() == pow10(BIG_COMPUTE_SCALE as nat),
            r.scale == BIG_COMPUTE_SCALE,
            r.negative == false,
    {
        proof {
            lemma_pow10_18();
        }
        BigDecimal {
            value: U192::from_u64(250_000_000_000_000_000),
            scale: BIG_COMPUTE_SCALE,
            negative: false,
        }
    }

    /// The half, at the compute scale.
    pub fn zero_point_five() -> (r: BigDecimal)
        ensures
            2 * r.value.as_nat() == pow10(BIG_COMPUTE_SCALE as nat),
            r.scale == BIG_COMPUTE_SCALE,
            r.negative == false,
    {
        proof {
            lemma_pow10_18();
        }
        BigDecimal {
            value: U192::from_u64(500_000_000_000_000_000),
            scale: BIG_COMPUTE_SCALE,
            negative: false,
        }
    }

    /// Five quarters, at the compute scale.
    pub fn one_point_two_five() -> (r: BigDecimal)
        ensures
            4 * r.value.as_nat() == 5 * pow10(BIG_COMPUTE_SCALE as nat),
            r.scale == BIG_COMPUTE_SCALE,
            r.negative == false,
    {
        proof {
            lemma_pow10_18();
        }
        BigDecimal {
            value: U192::from_u64(1_250_000_000_000_000_000),
            scale: BIG_COMPUTE_SCALE,
            negative: false,
        }
    }

    /// Three halves, at the compute scale.
    pub fn one_point_five() -> (r: BigDecimal)
        ensures
            2 * r.value.as_nat() == 3 * pow10(BIG_COMPUTE_SCALE as nat),
            r.scale == BIG_COMPUTE_SCALE,
            r.negative == false,
    {
        proof {
            lemma_pow10_18();
        }
        BigDecimal {
            value: U192::from_u64(1_500_000_000_000_000_000),
            scale: BIG_COMPUTE_SCALE,
            negative: false,
        }
    }

    /// The scale expressed as a power of 10, widened to 192 bits.
    pub fn denominator(self) -> (r: U192)
        requires
            self.scale <= 38,
        ensures
            r.as_nat() == pow10(self.scale as nat),
            r.as_nat() >= 1,
    {
        U192::from_u128(pow10_u128(self.scale))
    }

    /// Structural equality of value, scale and sign.
    pub fn eq(&self, other: &BigDecimal) -> (r: bool)
        ensures
            r == (self.value.as_nat() == other.value.as_nat() && self.scale == other.scale
                && self.negative == other.negative),
    {
        self.value.eq_value(&other.value) && self.scale == other.scale && self.negative
            == other.negative
    }

    pub fn is_zero(&self) -> (r: bool)
        ensures
            r == (self.value.as_nat() == 0),
    {
        self.value.is_zero()
    }

    pub fn is_negative(&self) -> (r: bool)
        ensures
            r == (self.negative && self.value.as_nat() != 0),
    {
        self.negative && !self.value.is_zero()
    }

    pub fn is_positive(&self) -> (r: bool)
        ensures
            r == (!self.negative && self.value.as_nat() != 0),
    {
        !self.negative && !self.value.is_zero()
    }

    /// Modify the scale (precision), truncating toward zero when the scale
    /// decreases; a magnitude that truncates to zero comes out
    /// non-negative.
    pub fn to_scale(self, scale: u8) -> (r: Self)
        requires
            big_to_scale_ok(self, scale),
        ensures
            r.value.as_nat() == big_to_scale_val(self, scale),
            r.scale == scale,
            r.negative == (self.negative && r.value.as_nat() != 0),
    {
        let value: U192 = if scale == self.scale {
            proof {
                assert(pow10(0) == 1);
                assert(self.value.as_nat() * pow10(0) == self.value.as_nat() * 1);
            }
            self.value
        } else if self.scale > scale {
            proof {
                lemma_pow10_pos((self.scale - scale) as nat);
            }
            let p = U192::from_u128(pow10_u128(self.scale - scale));
            match self.value.checked_div(p) {
                Some(v) => v,
                None => U192(0, 0, 0),
            }
        } else {
            proof {
                lemma_pow10_pos((scale - self.scale) as nat);
            }
            let p = U192::from_u128(pow10_u128(scale - self.scale));
            match self.value.checked_mul(p) {
                Some(v) => v,
                None => {
                    proof {
                        assert(false);
                    }
                    U192(0, 0, 0)
                },
            }
        };
        Self::new(value, scale, self.negative)
    }

    /// Convert to the higher precision compute scale of the extended
    /// width.
    pub fn to_compute_scale(self) -> (r: Self)
        requires
            big_to_scale_ok(self, BIG_COMPUTE_SCALE),
        ensures
            r.value.as_nat() == big_to_scale_val(self, BIG_COMPUTE_SCALE),
            r.scale == BIG_COMPUTE_SCALE,
            r.negative == (self.negative && r.value.as_nat() != 0),
    {
        self.to_scale(BIG_COMPUTE_SCALE)
    }

    /// Widen a [`Decimal`] without changing value, scale or sign.
    pub fn from_decimal(d: Decimal) -> (r: BigDecimal)
        ensures
            r.value.as_nat() == d.value,
            r.scale == d.scale,
            r.negative == d.negative,
    {
        BigDecimal { value: U192::from_u128(d.value), scale: d.scale, negative: d.negative }
    }

    /// Narrow back to a [`Decimal`]; defined only when the magnitude fits.
    pub fn to_decimal(self) -> (r: Decimal)
        requires
            self.value.as_nat() <= u128::MAX,
        ensures
            r.value == self.value.as_nat(),
            r.scale == self.scale,
            r.negative == self.negative,
    {
        let value = match self.value.try_to_u128() {
            Some(v) => v,
            None => {
                proof {
                    assert(false);
                }
                0
            },
        };
        Decimal { value, scale: self.scale, negative: self.negative }
    }
}

proof fn lemma_pow10_18()
    ensures
        pow10(18) == 1_000_000_000_000_000_000u64,
{
    reveal_with_fuel(pow10, 20);
}

} // verus!
