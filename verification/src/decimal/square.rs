//! Squaring through the extended width.

use vstd::prelude::*;

use crate::decimal::base::Decimal;
use crate::decimal::ops::big_mul::BigMul;

verus! {

impl Decimal {
    /// The square of the value, taken through the 192-bit scratch width
    /// so the intermediate product cannot overflow the native magnitude.
    pub fn square(self) -> (r: Self)
        requires
            self.big_mul_req(self),
        ensures
            self.big_mul_ens(self, r),
    {
        self.big_mul(self)
    }
}

} // verus!
