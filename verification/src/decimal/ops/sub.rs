//! Signed subtraction of two equal-scale decimals.

use vstd::prelude::*;

use crate::decimal::base::{sval, Decimal};
use crate::decimal::errors::ErrorCode;
use crate::decimal::ops::add::Add;

verus! {

pub trait Sub<T>: Sized {
    /// The inputs `sub` accepts: those whose difference stays representable.
    spec fn sub_req(self, rhs: T) -> bool;

    /// What `sub` returns.
    spec fn sub_ens(self, rhs: T, r: Result<Self, ErrorCode>) -> bool;

    /// Subtract another value from itself, including signed subtraction.
    fn sub(self, rhs: T) -> (r: Result<Self, ErrorCode>)
        requires
            self.sub_req(rhs),
        ensures
            self.sub_ens(rhs, r),
    ;
}

/// Subtract another [`Decimal`] value from itself: `a - b` is `a + (-b)`,
/// so addition handles the sign cases.
impl Sub<Decimal> for Decimal {
    open spec fn sub_req(self, rhs: Decimal) -> bool {
        self.scale == rhs.scale ==> -(u128::MAX as int) <= sval(self) - sval(rhs) <= u128::MAX
            as int
    }

    open spec fn sub_ens(self, rhs: Decimal, r: Result<Decimal, ErrorCode>) -> bool {
        if self.scale != rhs.scale {
            r == Err::<Decimal, ErrorCode>(ErrorCode::DifferentScale)
        } else {
            match r {
                Ok(v) => {
                    let s = sval(self) - sval(rhs);
                    v.scale == self.scale && v.value == (if s >= 0 {
                        s
                    } else {
                        -s
                    }) && v.negative == (s < 0)
                },
                Err(_) => false,
            }
        }
    }

    fn sub(self, rhs: Decimal) -> (r: Result<Decimal, ErrorCode>) {
        let flipped = Decimal { negative: !rhs.negative, ..rhs };
        proof {
            assert(sval(flipped) == if rhs.value == 0 {
                0int
            } else {
                -sval(rhs)
            });
        }
        self.add(flipped)
    }
}

} // verus!
