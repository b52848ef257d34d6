//! Signed addition of two equal-scale decimals.

use vstd::prelude::*;

use crate::decimal::base::{sval, Decimal};
use crate::decimal::errors::ErrorCode;

verus! {

pub trait Add<T>: Sized {
    /// The inputs `add` accepts: those whose sum stays representable.
    spec fn add_req(self, rhs: T) -> bool;

    /// What `add` returns.
    spec fn add_ens(self, rhs: T, r: Result<Self, ErrorCode>) -> bool;

    /// Add another value to itself, including signed addition.
    fn add(self, rhs: T) -> (r: Result<Self, ErrorCode>)
        requires
            self.add_req(rhs),
        ensures
            self.add_ens(rhs, r),
    ;
}

/// Add another [`Decimal`] value to itself, including signed addition.
/// Operands of different scale are rejected; the sum of the signed
/// magnitudes determines magnitude and sign of the result, with zero
/// coerced to non-negative.
impl Add<Decimal> for Decimal {
    open spec fn add_req(self, rhs: Decimal) -> bool {
        self.scale == rhs.scale ==> -(u128::MAX as int) <= sval(self) + sval(rhs) <= u128::MAX
            as int
    }

    open spec fn add_ens(self, rhs: Decimal, r: Result<Decimal, ErrorCode>) -> bool {
        if self.scale != rhs.scale {
            r == Err::<Decimal, ErrorCode>(ErrorCode::DifferentScale)
        } else {
            match r {
                Ok(v) => {
                    let s = sval(self) + sval(rhs);
                    v.scale == self.scale && v.value == (if s >= 0 {
                        s
                    } else {
                        -s
                    }) && v.negative == (s < 0)
                },
                Err(_) => false,
            }
        }
    }

    fn add(self, rhs: Decimal) -> (r: Result<Decimal, ErrorCode>) {
        if self.scale != rhs.scale {
            Err(ErrorCode::DifferentScale)
        } else if self.negative == rhs.negative {
            // both positive or both negative: add the absolute values and
            // keep the common sign
            Ok(Decimal::new(self.value + rhs.value, self.scale, self.negative))
        } else {
            // different signs: the magnitude is the difference of absolute
            // values, the sign is that of the larger operand
            if self.value > rhs.value {
                Ok(Decimal::new(self.value - rhs.value, self.scale, self.negative))
            } else if self.value < rhs.value {
                Ok(Decimal::new(rhs.value - self.value, self.scale, rhs.negative))
            } else {
                // equal absolute value and opposite sign: zero
                Ok(Decimal::new(0, self.scale, false))
            }
        }
    }
}

} // verus!
