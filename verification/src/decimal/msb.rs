//! The most significant bit, by leading-zero count and by shift cascade.

use vstd::prelude::*;

use crate::decimal::base::Decimal;
use crate::math::{log2_floor, log2_floor_u128, pow2_u128};
use vstd::arithmetic::power2::pow2;

verus! {

/// The shift cascade written out: each round tests a threshold and
/// shifts the value down, collecting the shift widths.
pub open spec fn msb_shift_spec(x: nat) -> nat {
    let (x1, r1) = if x >= 0x10000 {
        (x / 0x1_0000_0000_0000_0000, 64nat)
    } else {
        (x, 0nat)
    };
    let (x2, r2) = if x1 >= 0x100 {
        (x1 / 0x1_0000_0000, r1 + 32)
    } else {
        (x1, r1)
    };
    let (x3, r3) = if x2 >= 0x10 {
        (x2 / 0x10000, r2 + 16)
    } else {
        (x2, r2)
    };
    let (x4, r4) = if x3 >= 0x4 {
        (x3 / 0x100, r3 + 8)
    } else {
        (x3, r3)
    };
    let (x5, r5) = if x4 >= 0x2 {
        (x4 / 0x10, r4 + 4)
    } else {
        (x4, r4)
    };
    let (x6, r6) = if x5 >= 4 {
        (x5 / 4, r5 + 2)
    } else {
        (x5, r5)
    };
    let r7 = if x6 >= 2 {
        r6 + 1
    } else {
        r6
    };
    (r7 - 1) as nat
}

impl Decimal {
    /// The count of leading zero bits of the magnitude, less one.
    pub fn msb(self) -> (r: u32)
        requires
            self.value < 0x8000_0000_0000_0000_0000_0000_0000_0000u128,
        ensures
            self.value == 0 ==> r == 127,
            self.value > 0 ==> r == 126 - log2_floor(self.value as nat),
    {
        if self.value == 0 {
            127
        } else {
            let n = log2_floor_u128(self.value);
            proof {
                if n >= 127 {
                    assert(pow2(127)
                        == 0x8000_0000_0000_0000_0000_0000_0000_0000nat) by {
                        vstd::arithmetic::power2::lemma2_to64();
                        vstd::arithmetic::power2::lemma2_to64_rest();
                        vstd::arithmetic::power2::lemma_pow2_adds(64, 63);
                    }
                }
            }
            126 - n
        }
    }

    /// The most significant bit found by a cascade of threshold tests and
    /// shifts, the thresholds kept as written.
    pub fn msb_shift(self) -> (r: u32)
        requires
            self.value >= 2,
        ensures
            r == msb_shift_spec(self.value as nat),
    {
        let mut x = self.value;
        let mut r: u32 = 0;

        if x >= 0x10000 {
            x = x / 0x1_0000_0000_0000_0000;
            r = r + 64;
        }
        if x >= 0x100 {
            x = x / 0x1_0000_0000;
            r = r + 32;
        }
        if x >= 0x10 {
            x = x / 0x10000;
            r = r + 16;
        }
        if x >= 0x4 {
            x = x / 0x100;
            r = r + 8;
        }
        if x >= 0x2 {
            x = x / 0x10;
            r = r + 4;
        }
        if x >= 4 {
            x = x / 4;
            r = r + 2;
        }
        if x >= 2 {
            r = r + 1;
        }
        proof {
            assert(r >= 1);
        }
        r - 1
    }
}

} // verus!
