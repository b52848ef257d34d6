//! Multiplication through the 192-bit scratch width.

use vstd::prelude::*;

use crate::decimal::base::Decimal;
use crate::math::{pow10, lemma_pow10_pos};
use crate::uint::{u192_bound, U192};

verus! {

pub trait BigMul<T>: Sized {
    /// The inputs `big_mul` accepts: the wide product must fit in 192 bits
    /// and the narrowed result in 128.
    spec fn big_mul_req(self, rhs: T) -> bool;

    /// What `big_mul` returns.
    spec fn big_mul_ens(self, rhs: T, r: Self) -> bool;

    /// Multiply another value against itself after widening to 192 bits,
    /// to support ranges beyond the native 128-bit product.
    fn big_mul(self, rhs: T) -> (r: Self)
        requires
            self.big_mul_req(rhs),
        ensures
            self.big_mul_ens(rhs, r),
    ;
}

/// Multiply another [`Decimal`] against itself through the 192-bit width:
/// same contract as the narrow multiplication, with the intermediate
/// product allowed to exceed 128 bits and zero coerced to non-negative.
impl BigMul<Decimal> for Decimal {
    open spec fn big_mul_req(self, rhs: Decimal) -> bool {
        rhs.scale <= 38 && self.value * rhs.value < u192_bound() && (self.value
            * rhs.value) as nat / pow10(rhs.scale as nat) <= u128::MAX
    }

    open spec fn big_mul_ens(self, rhs: Decimal, r: Decimal) -> bool {
        r.value == (self.value * rhs.value) as nat / pow10(rhs.scale as nat) && r.scale
            == self.scale && r.negative == ((self.negative != rhs.negative) && r.value != 0)
    }

    fn big_mul(self, rhs: Decimal) -> (r: Decimal) {
        let lhs = U192::from_u128(self.value);
        let denominator = U192::from_u128(rhs.denominator());
        let negative = self.negative != rhs.negative;
        let wide_rhs = U192::from_u128(rhs.value);
        proof {
            lemma_pow10_pos(rhs.scale as nat);
        }
        let product = match lhs.checked_mul(wide_rhs) {
            Some(p) => p,
            None => {
                proof {
                    assert(false);
                }
                U192(0, 0, 0)
            },
        };
        let quotient = match product.checked_div(denominator) {
            Some(q) => q,
            None => {
                proof {
                    assert(false);
                }
                U192(0, 0, 0)
            },
        };
        let value = match quotient.try_to_u128() {
            Some(v) => v,
            None => {
                proof {
                    assert(false);
                }
                0
            },
        };
        Decimal::new(value, self.scale, negative)
    }
}

} // verus!
