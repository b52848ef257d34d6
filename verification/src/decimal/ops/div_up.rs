//! Division that rounds the magnitude away from zero.

use vstd::prelude::*;

use crate::decimal::base::Decimal;
use crate::math::pow10;

verus! {

pub trait DivUp<T>: Sized {
    /// The inputs `div_up` accepts.
    spec fn div_up_req(self, rhs: T) -> bool;

    /// What `div_up` returns.
    spec fn div_up_ens(self, rhs: T, r: Self) -> bool;

    /// Divide the value by another and round up (ceiling) the magnitude.
    fn div_up(self, rhs: T) -> (r: Self)
        requires
            self.div_up_req(rhs),
        ensures
            self.div_up_ens(rhs, r),
    ;
}

/// Divide a [`Decimal`] over another and round up: adding `divisor - 1`
/// to the scaled numerator turns any non-zero remainder into one more
/// unit; zero is coerced to non-negative.
impl DivUp<Decimal> for Decimal {
    open spec fn div_up_req(self, rhs: Decimal) -> bool {
        rhs.scale <= 38 && rhs.value != 0 && self.value * pow10(rhs.scale as nat) + rhs.value - 1
            <= u128::MAX
    }

    open spec fn div_up_ens(self, rhs: Decimal, r: Decimal) -> bool {
        r.value == (self.value * pow10(rhs.scale as nat) + rhs.value - 1) as nat
            / rhs.value as nat && r.scale == self.scale && r.negative == ((self.negative
            != rhs.negative) && r.value != 0)
    }

    fn div_up(self, rhs: Decimal) -> (r: Decimal) {
        Decimal::new(
            (self.value * rhs.denominator() + (rhs.value - 1)) / rhs.value,
            self.scale,
            self.negative != rhs.negative,
        )
    }
}

} // verus!
