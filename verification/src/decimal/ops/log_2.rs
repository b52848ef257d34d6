//! Binary logarithm by iterative bit approximation: the integer part is
//! the position of the most significant bit of the scaled magnitude, the
//! fractional part comes from repeatedly squaring the remaining ratio.

use vstd::prelude::*;

use crate::decimal::base::{to_scale_val, Decimal, COMPUTE_SCALE};
use crate::decimal::errors::ErrorCode;
use crate::math::{
    lemma_div_at_least_one,
    lemma_log2_floor_bounds,
    lemma_pow10_adds,
    lemma_pow10_increases,
    lemma_pow10_pos,
    log2_floor,
    log2_floor_u128,
    pow10,
    pow10_u128,
    pow2_u128,
};
use vstd::arithmetic::div_mod::{
    lemma_div_is_ordered_by_denominator,
    lemma_div_multiples_vanish,
    lemma_fundamental_div_mod,
    lemma_mod_bound,
    lemma_multiply_divide_lt,
};
use vstd::arithmetic::power2::pow2;

verus! {

/// The fractional accumulation of the iterative binary logarithm: while
/// the weight `z` is positive, square the ratio `y` (rescaling by `sc`),
/// and where the square reaches two, collect the weight and halve the
/// ratio; the weight halves every round.
pub open spec fn log2_collects(y: nat, sc: nat) -> bool {
    (y * y) / sc >= 2 * sc
}

/// The ratio after one round: squared, rescaled, and halved where the
/// square reached two.
pub open spec fn log2_next(y: nat, sc: nat) -> nat {
    if log2_collects(y, sc) {
        ((y * y) / sc) / 2
    } else {
        (y * y) / sc
    }
}

pub open spec fn log2_iter(y: nat, z: nat, acc: nat, sc: nat) -> nat
    decreases z,
{
    if z == 0 {
        acc
    } else {
        log2_iter(
            log2_next(y, sc),
            z / 2,
            if log2_collects(y, sc) {
                acc + z
            } else {
                acc
            },
            sc,
        )
    }
}

/// True when the operand is below one, so the identity
/// `log2(x) = -log2(1/x)` applies.
pub open spec fn log2_negative(v: nat, s: nat) -> bool {
    v < pow10(s)
}

/// The raw magnitude of the binary logarithm of `v / 10^s`, in units of
/// `10^-s`: operands below one are replaced by their reciprocal, the
/// integer part is the most significant bit of the quotient, and the
/// fractional part is the iterative accumulation.
pub open spec fn log2_raw(v: nat, s: nat) -> nat {
    let sc = pow10(s);
    let x = if v < sc {
        (sc * sc) / v
    } else {
        v
    };
    let n = log2_floor(x / sc);
    let y = x / pow2(n);
    if y == sc {
        n * sc
    } else {
        log2_iter(y, sc / 2, n * sc, sc)
    }
}

pub trait Log2<T>: Sized {
    /// The inputs `log2` accepts: a strictly positive operand.
    spec fn log2_req(self) -> bool;

    /// What `log2` returns.
    spec fn log2_ens(self, r: Result<Self, ErrorCode>) -> bool;

    /// Calculate the binary logarithm of the value.
    fn log2(self) -> (r: Result<Self, ErrorCode>)
        requires
            self.log2_req(),
        ensures
            self.log2_ens(r),
    ;
}

/// The binary logarithm of a [`Decimal`]: the result magnitude is
/// `log2_raw` of the operand, computed at the operand's own scale,
/// relabelled at the compute scale and converted back; the sign records
/// whether the operand was below one.
impl Log2<Decimal> for Decimal {
    open spec fn log2_req(self) -> bool {
        self.value > 0 && self.scale <= 18
    }

    open spec fn log2_ens(self, r: Result<Decimal, ErrorCode>) -> bool {
        let raw = log2_raw(self.value as nat, self.scale as nat);
        let neg = log2_negative(self.value as nat, self.scale as nat) && raw != 0;
        match r {
            Ok(v) => {
                &&& v.scale == self.scale
                &&& v.value == (if self.scale >= COMPUTE_SCALE {
                    raw * pow10((self.scale - COMPUTE_SCALE) as nat)
                } else {
                    raw / pow10((COMPUTE_SCALE - self.scale) as nat)
                })
                &&& v.negative == (neg && v.value != 0)
            },
            Err(_) => false,
        }
    }

    #[verifier::rlimit(50)]
    fn log2(self) -> (r: Result<Decimal, ErrorCode>) {
        let mut x: u128 = self.value;
        let scale: u128 = pow10_u128(self.scale);
        let ghost sc: nat = pow10(self.scale as nat);
        proof {
            lemma_pow10_square_fits(self.scale as nat);
        }
        let negative = x < scale;

        // log2(x) = -log2(1/x)
        if negative {
            proof {
                assert(sc <= sc * sc) by (nonlinear_arith)
                    requires sc >= 1;
                lemma_div_multiples_vanish(sc as int, sc as int);
                lemma_div_is_ordered_by_denominator((sc * sc) as int, x as int, sc as int);
            }
            x = (scale * scale) / x;
        }
        proof {
            lemma_div_at_least_one(x as nat, sc);
        }

        // the integer part of the logarithm is the most significant bit
        let integer_part = x / scale;
        let n = log2_floor_u128(integer_part);

        let ghost raw: nat = log2_raw(self.value as nat, self.scale as nat);
        proof {
            lemma_pow10_increases(self.scale as nat, 18);
            lemma_weight_fits(n as nat, sc);
            assert(pow10(18) == 1000000000000000000nat) by {
                reveal_with_fuel(pow10, 20);
            }
            assert((n as nat) * sc <= 127 * pow10(18)) by (nonlinear_arith)
                requires n <= 127, sc <= pow10(18), sc >= 0;
        }
        let mut result: u128 = (n as u128) * scale;

        proof {
            lemma_y_window(x as nat, sc, n as nat);
        }
        let y_start = x / pow2_u128(n);
        let mut y = y_start;

        if y == scale {
            proof {
                lemma_raw_bound(self.value as nat, self.scale as nat);
                lemma_rescale_fits(result as nat, self.scale as nat);
            }
            return Ok(Decimal::new(result, COMPUTE_SCALE, negative).to_scale(self.scale));
        }

        // fractional part by iterative approximation
        let mut z = scale / 2;
        proof {
            assert(raw == log2_iter(y as nat, z as nat, result as nat, sc));
        }
        while z > 0
            invariant
                sc == pow10(self.scale as nat),
                scale == sc,
                sc <= pow10(18),
                pow10(18) == 1000000000000000000nat,
                self.scale <= 18,
                sc <= y < 2 * sc,
                n <= 127,
                result + 2 * z <= n as nat * sc + sc,
                raw == log2_iter(y as nat, z as nat, result as nat, sc),
            decreases z,
        {
            proof {
                lemma_pow10_square_fits(self.scale as nat);
                lemma_square_window(y as nat, sc);
                assert((y as nat) * (y as nat) < 4 * (sc * sc)) by (nonlinear_arith)
                    requires (y as nat) < 2 * sc, sc >= 1;
                assert(2 * sc <= 4 * (sc * sc)) by (nonlinear_arith)
                    requires sc >= 1;
                lemma_weight_fits(n as nat, sc);
            }
            // y = y^2, rescaled
            y = (y * y) / scale;

            // where the square reaches two, collect the weight
            if y >= 2 * scale {
                result = result + z;
                y = y / 2;
            }

            // halve the weight
            z = z / 2;
        }
        proof {
            lemma_raw_bound(self.value as nat, self.scale as nat);
            lemma_rescale_fits(result as nat, self.scale as nat);
        }
        Ok(Decimal::new(result, COMPUTE_SCALE, negative).to_scale(self.scale))
    }
}

/// The rescaled logarithm magnitude leaves room for one more factor of
/// `10^12`, as the change-of-base divisions need.
pub proof fn lemma_log2_value_fits(v: nat, s: nat)
    requires
        v >= 1,
        v <= u128::MAX,
        s <= 18,
    ensures
        (if s >= 12 {
            log2_raw(v, s) * pow10((s - 12) as nat)
        } else {
            log2_raw(v, s) / pow10((12 - s) as nat)
        }) * pow10(12) <= u128::MAX,
{
    lemma_raw_bound(v, s);
    let raw = log2_raw(v, s);
    assert(pow10(12) == 1000000000000nat) by {
        reveal_with_fuel(pow10, 14);
    }
    assert(pow10(18) == 1000000000000000000nat) by {
        reveal_with_fuel(pow10, 20);
    }
    assert(pow10(24) == 1000000000000000000000000nat) by {
        reveal_with_fuel(pow10, 26);
    }
    lemma_pow10_increases(s, 18);
    if s >= 12 {
        lemma_pow10_adds(s, (s - 12) as nat);
        lemma_pow10_increases((s + s - 12) as nat, 24);
        assert(raw * pow10((s - 12) as nat) <= 129 * pow10((s + s - 12) as nat))
            by (nonlinear_arith)
            requires
                raw <= 129 * pow10(s),
                pow10(s) * pow10((s - 12) as nat) == pow10((s + s - 12) as nat),
                pow10((s - 12) as nat) >= 0,
        ;
        assert(raw * pow10((s - 12) as nat) * pow10(12) <= 129 * 1000000000000000000000000nat
            * 1000000000000nat) by (nonlinear_arith)
            requires
                raw * pow10((s - 12) as nat) <= 129 * pow10((s + s - 12) as nat),
                pow10((s + s - 12) as nat) <= 1000000000000000000000000nat,
                pow10(12) == 1000000000000nat,
        ;
    } else {
        lemma_pow10_pos((12 - s) as nat);
        assert(raw / pow10((12 - s) as nat) <= raw) by {
            vstd::arithmetic::div_mod::lemma_div_nonincreasing(
                raw as int,
                pow10((12 - s) as nat) as int,
            );
        }
        let q = raw / pow10((12 - s) as nat);
        assert(q * pow10(12) <= 129 * 1000000000000000000nat * 1000000000000nat)
            by (nonlinear_arith)
            requires
                q <= raw,
                raw <= 129 * pow10(s),
                pow10(s) <= 1000000000000000000nat,
                pow10(12) == 1000000000000nat,
        ;
    }
}

/// The accumulated weight stays within a `u128`.
proof fn lemma_weight_fits(n: nat, sc: nat)
    requires
        n <= 127,
        sc <= pow10(18),
    ensures
        n * sc + sc <= 128 * pow10(18),
{
    assert(pow10(18) == 1000000000000000000nat) by {
        reveal_with_fuel(pow10, 20);
    }
    assert(n * sc + sc <= 128 * pow10(18)) by (nonlinear_arith)
        requires n <= 127, sc <= pow10(18), sc >= 0;
}

/// A magnitude bounded by `129 * 10^s` survives the move to the compute
/// scale.
#[verifier::rlimit(60)]
proof fn lemma_rescale_fits(result: nat, s: nat)
    requires
        s <= 18,
        result <= 129 * pow10(s),
    ensures
        s >= 12 ==> result * pow10((s - 12) as nat) <= u128::MAX,
{
    if s >= 12 {
        lemma_pow10_adds(s, (s - 12) as nat);
        lemma_pow10_increases((s + s - 12) as nat, 24);
        assert(pow10(24) == 1000000000000000000000000nat) by {
            reveal_with_fuel(pow10, 26);
        }
        assert(result * pow10((s - 12) as nat) <= 129 * pow10((s + s - 12) as nat))
            by (nonlinear_arith)
            requires
                result <= 129 * pow10(s),
                pow10(s) * pow10((s - 12) as nat) == pow10((s + s - 12) as nat),
                pow10((s - 12) as nat) >= 0,
        ;
        assert(129 * pow10((s + s - 12) as nat) <= 129 * 1000000000000000000000000nat)
            by (nonlinear_arith)
            requires pow10((s + s - 12) as nat) <= 1000000000000000000000000nat;
    }
}

/// For scales up to 18 the squared denominator and the squared ratio stay
/// within a `u128`.
proof fn lemma_pow10_square_fits(s: nat)
    requires
        s <= 18,
    ensures
        pow10(s) >= 1,
        4 * (pow10(s) * pow10(s)) <= u128::MAX,
{
    lemma_pow10_pos(s);
    lemma_pow10_increases(s, 18);
    lemma_pow10_adds(18, 18);
    assert(pow10(36) == 1000000000000000000000000000000000000nat) by {
        reveal_with_fuel(pow10, 38);
    }
    assert(pow10(s) * pow10(s) <= pow10(18) * pow10(18)) by (nonlinear_arith)
        requires 1 <= pow10(s) <= pow10(18);
}

/// After dropping the integer bits, the ratio sits in the window
/// `[sc, 2*sc)`.
proof fn lemma_y_window(x: nat, sc: nat, n: nat)
    requires
        sc >= 1,
        x >= sc,
        n == log2_floor(x / sc),
        n <= 127,
    ensures
        sc <= x / pow2(n) < 2 * sc,
{
    let ip = x / sc;
    lemma_div_at_least_one(x, sc);
    lemma_log2_floor_bounds(ip);
    vstd::arithmetic::power2::lemma_pow2_pos(n);
    vstd::arithmetic::power2::lemma_pow2_adds(n, 1);
    assert(pow2((n + 1) as nat) == 2 * pow2(n)) by {
        vstd::arithmetic::power2::lemma2_to64();
    }
    // lower: x >= ip * sc >= 2^n * sc, so x / 2^n >= sc
    lemma_fundamental_div_mod(x as int, sc as int);
    lemma_mod_bound(x as int, sc as int);
    let rr: nat = x % sc;
    assert(x == sc * ip + rr);
    assert(x < sc * (ip + 1)) by (nonlinear_arith)
        requires
            x == sc * ip + rr,
            rr < sc,
    ;
    assert(x >= pow2(n) * sc) by (nonlinear_arith)
        requires
            x >= sc * ip,
            ip >= pow2(n),
            sc >= 1,
    ;
    assert(x / pow2(n) >= sc) by {
        lemma_div_multiples_vanish(sc as int, pow2(n) as int);
        vstd::arithmetic::div_mod::lemma_div_is_ordered(
            (pow2(n) * sc) as int,
            x as int,
            pow2(n) as int,
        );
        assert(pow2(n) * sc == sc * pow2(n)) by (nonlinear_arith);
    }
    // upper: x < (ip + 1) * sc <= 2^(n+1) * sc, so x / 2^n < 2 * sc
    assert(x < pow2(n) * (2 * sc)) by (nonlinear_arith)
        requires
            x < sc * (ip + 1),
            ip + 1 <= pow2((n + 1) as nat),
            pow2((n + 1) as nat) == 2 * pow2(n),
            sc >= 1,
            x >= 0,
    ;
    lemma_multiply_divide_lt(x as int, pow2(n) as int, (2 * sc) as int);
}

/// Squaring a ratio in `[sc, 2*sc)` and rescaling lands in `[sc, 4*sc)`.
proof fn lemma_square_window(y: nat, sc: nat)
    requires
        sc >= 1,
        sc <= y < 2 * sc,
    ensures
        sc <= (y * y) / sc < 4 * sc,
        (y * y) / sc >= 2 * sc ==> sc <= ((y * y) / sc) / 2 < 2 * sc,
{
    let y2 = (y * y) / sc;
    assert(y * y >= sc * sc) by (nonlinear_arith)
        requires y >= sc, sc >= 1;
    assert(y * y < sc * (4 * sc)) by (nonlinear_arith)
        requires y < 2 * sc, sc >= 1;
    assert(y2 >= sc) by {
        lemma_div_multiples_vanish(sc as int, sc as int);
        assert(sc * sc == sc * sc) by (nonlinear_arith);
        vstd::arithmetic::div_mod::lemma_div_is_ordered((sc * sc) as int, (y * y) as int, sc as int);
    }
    assert(y2 < 4 * sc) by {
        lemma_multiply_divide_lt((y * y) as int, sc as int, (4 * sc) as int);
    }
    if y2 >= 2 * sc {
        lemma_fundamental_div_mod(y2 as int, 2);
        lemma_mod_bound(y2 as int, 2);
    }
}

/// The raw logarithm magnitude stays below `(n + 1) * sc + sc`, which
/// keeps every rescaling within a `u128`.
pub proof fn lemma_raw_bound(v: nat, s: nat)
    requires
        v >= 1,
        v <= u128::MAX,
        s <= 18,
    ensures
        log2_raw(v, s) <= 129 * pow10(s),
        log2_raw(v, s) * pow10(6) <= u128::MAX,
{
    let sc = pow10(s);
    lemma_pow10_pos(s);
    let x = if v < sc {
        (sc * sc) / v
    } else {
        v
    };
    if v < sc {
        lemma_pow10_square_fits(s);
        assert(sc <= sc * sc) by (nonlinear_arith)
            requires sc >= 1;
        lemma_div_multiples_vanish(sc as int, sc as int);
        lemma_div_is_ordered_by_denominator((sc * sc) as int, v as int, sc as int);
    } else {
    }
    lemma_div_at_least_one(x, sc);
    assert(x <= u128::MAX) by {
        if v < sc {
            assert((sc * sc) / v <= sc * sc) by {
                vstd::arithmetic::div_mod::lemma_div_nonincreasing((sc * sc) as int, v as int);
            }
            lemma_pow10_square_fits(s);
        }
    }
    let n = log2_floor(x / sc);
    assert(n <= 127) by {
        lemma_floor_small(x, sc);
    }
    let y = x / pow2(n);
    lemma_log2_iter_bound(y, sc / 2, n * sc, sc);
    assert(n * sc + (sc / 2 + sc / 2) <= 127 * sc + sc) by (nonlinear_arith)
        requires n <= 127, sc >= 1;
    assert(log2_raw(v, s) <= 128 * sc + sc) by (nonlinear_arith)
        requires
            log2_raw(v, s) <= n * sc + 2 * (sc / 2),
            n <= 127,
            sc >= 1,
            2 * (sc / 2) <= 2 * sc,
    ;
    lemma_pow10_increases(s, 18);
    assert(pow10(24) == 1000000000000000000000000nat) by {
        reveal_with_fuel(pow10, 26);
    }
    assert(pow10(18) == 1000000000000000000nat) by {
        reveal_with_fuel(pow10, 20);
    }
    assert(pow10(6) == 1000000nat) by {
        reveal_with_fuel(pow10, 8);
    }
    assert(log2_raw(v, s) * pow10(6) <= 129 * pow10(18) * pow10(6)) by (nonlinear_arith)
        requires
            log2_raw(v, s) <= 129 * pow10(s),
            pow10(s) <= pow10(18),
            pow10(6) >= 1,
    ;
    assert(129 * pow10(18) * pow10(6) <= u128::MAX) by (nonlinear_arith)
        requires pow10(18) == 1000000000000000000nat, pow10(6) == 1000000nat;
}

/// The floor logarithm of a 128-bit quotient is at most 127.
proof fn lemma_floor_small(x: nat, sc: nat)
    requires
        sc >= 1,
        x <= u128::MAX,
        x >= sc,
    ensures
        log2_floor(x / sc) <= 127,
{
    let ip = x / sc;
    lemma_div_at_least_one(x, sc);
    lemma_log2_floor_bounds(ip);
    assert(ip <= u128::MAX) by {
        vstd::arithmetic::div_mod::lemma_div_nonincreasing(x as int, sc as int);
    }
    let n = log2_floor(ip);
    if n > 127 {
        assert(pow2(128) <= pow2(n)) by {
            if 128 < n {
                vstd::arithmetic::power2::lemma_pow2_strictly_increases(128, n);
            }
        }
        assert(pow2(128) == 0x1_0000_0000_0000_0000_0000_0000_0000_0000nat) by {
            vstd::arithmetic::power2::lemma2_to64();
            vstd::arithmetic::power2::lemma_pow2_adds(64, 64);
        }
    }
}

/// The iterative accumulation adds at most twice the starting weight.
proof fn lemma_log2_iter_bound(y: nat, z: nat, acc: nat, sc: nat)
    ensures
        log2_iter(y, z, acc, sc) <= acc + 2 * z,
    decreases z,
{
    if z == 0 {
    } else {
        lemma_fundamental_div_mod(z as int, 2);
        assert(2 * (z / 2) <= z);
        if log2_collects(y, sc) {
            lemma_log2_iter_bound(log2_next(y, sc), z / 2, acc + z, sc);
        } else {
            lemma_log2_iter_bound(log2_next(y, sc), z / 2, acc, sc);
        }
    }
}

} // verus!
