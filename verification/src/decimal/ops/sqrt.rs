//! Square root by the Babylonian (Newton) iteration, run at doubled
//! precision through the 192-bit width.

use vstd::prelude::*;

use crate::decimal::base::Decimal;
use crate::decimal::big::BigDecimal;
use crate::decimal::errors::ErrorCode;
use crate::math::{isqrt, lemma_div_at_least_one, lemma_isqrt_bounds, lemma_pow10_pos, pow10};
use crate::uint::{lemma_u192_pow2, u192_bound, U192};
use vstd::arithmetic::div_mod::{
    lemma_div_is_ordered,
    lemma_div_is_ordered_by_denominator,
    lemma_div_multiples_vanish,
    lemma_fundamental_div_mod,
    lemma_mod_bound,
    lemma_multiply_divide_lt,
};
use vstd::arithmetic::power::pow;
use vstd::arithmetic::power2::{
    lemma2_to64,
    lemma_pow2_adds,
    lemma_pow2_pos,
    lemma_pow2_strictly_increases,
    pow2,
};

verus! {

/// One Babylonian refinement of a guess `y` for the square root of `n`:
/// `(y + n/y) / 2` in integer arithmetic.
pub open spec fn newton_step(n: nat, y: nat) -> nat {
    (y + n / y) / 2
}

/// The loop continues while successive guesses are more than one unit
/// apart, checking both directions.
pub open spec fn far_apart(a: nat, b: nat) -> bool {
    a > b + 1 || b > a + 1
}

pub trait Sqrt<T>: Sized {
    /// The inputs `sqrt` accepts.
    spec fn sqrt_req(self) -> bool;

    /// What `sqrt` returns.
    spec fn sqrt_ens(self, r: Result<Self, ErrorCode>) -> bool;

    /// Calculate the square root of the value.
    fn sqrt(self) -> (r: Result<Self, ErrorCode>)
        requires
            self.sqrt_req(),
        ensures
            self.sqrt_ens(r),
    ;
}

/// The square root of a [`BigDecimal`]: zero and one return themselves;
/// any other operand is pre-scaled by its own denominator, which doubles
/// the effective precision, and refined by the Babylonian iteration.  The
/// result `r` satisfies `r*r <= n+1 <= (r+1)*(r+1)` for the scaled operand
/// `n`, so it is the integer square root except that `r` may land one
/// above it when `n + 1` is a perfect square.
impl Sqrt<BigDecimal> for BigDecimal {
    open spec fn sqrt_req(self) -> bool {
        self.scale <= 38
    }

    open spec fn sqrt_ens(self, r: Result<BigDecimal, ErrorCode>) -> bool {
        let n = self.value.as_nat() * pow10(self.scale as nat);
        let early = (self.value.as_nat() == 0 || self.value.as_nat() == pow10(
            self.scale as nat,
        )) && !self.negative;
        match r {
            Ok(v) => {
                &&& early ==> v == self
                &&& !early ==> n < u192_bound()
                &&& v.scale == self.scale
                &&& v.value.as_nat() * v.value.as_nat() <= n + 1
                &&& n < (v.value.as_nat() + 1) * (v.value.as_nat() + 1)
                &&& v.negative == (self.negative && v.value.as_nat() != 0)
            },
            Err(e) => e == ErrorCode::ExceedsPrecisionRange && !early && n >= u192_bound(),
        }
    }

    #[verifier::rlimit(100)]
    fn sqrt(self) -> (r: Result<BigDecimal, ErrorCode>) {
        proof {
            lemma_pow10_pos(self.scale as nat);
            lemma_u192_pow2();
        }
        let zero = BigDecimal::new(U192::from_u64(0), self.scale, false);
        let denominator = self.denominator();
        let one = BigDecimal::new(denominator, self.scale, false);
        if self.eq(&zero) || self.eq(&one) {
            proof {
                let n = self.value.as_nat() * pow10(self.scale as nat);
                let p = pow10(self.scale as nat);
                if self.value.as_nat() == p {
                    assert(n == p * p);
                    assert(p * p < (p + 1) * (p + 1)) by (nonlinear_arith)
                        requires p >= 1;
                } else {
                    assert(self.value.as_nat() == 0);
                    assert(self.value.as_nat() * pow10(self.scale as nat) == 0)
                        by (nonlinear_arith)
                        requires self.value.as_nat() == 0;
                    assert(self.value.as_nat() * self.value.as_nat() == 0) by (nonlinear_arith)
                        requires self.value.as_nat() == 0;
                    assert((self.value.as_nat() + 1) * (self.value.as_nat() + 1) == 1)
                        by (nonlinear_arith)
                        requires self.value.as_nat() == 0;
                }
            }
            return Ok(self);
        }
        let value = self.value;
        // doubling the precision: scale the magnitude by its own denominator
        let value_scaled = match value.checked_mul(denominator) {
            Some(x) => x,
            None => {
                return Err(ErrorCode::ExceedsPrecisionRange);
            },
        };
        let ghost vs: nat = value_scaled.as_nat();
        let ghost s: nat = isqrt(vs);
        proof {
            lemma_isqrt_bounds(vs);
        }
        let bit_length = value_scaled.bit_len();
        let mid_length = bit_length / 2;
        let approx = match U192::from_u64(2).checked_pow(mid_length) {
            Some(a) => a,
            None => {
                proof {
                    lemma_pow2_is_pow(mid_length as nat);
                    lemma_pow2_strictly_increases(mid_length as nat, 192);
                }
                U192(0, 0, 0)
            },
        };
        proof {
            lemma_pow2_is_pow(mid_length as nat);
            lemma_pow2_pos(mid_length as nat);
        }
        let mut y = match value_scaled.checked_div(approx) {
            Some(y) => y,
            None => {
                proof {
                    assert(false);
                }
                U192(0, 0, 0)
            },
        };
        let mut y_0 = U192::from_u64(0);
        let mut done = false;
        proof {
            lemma_pow2_pos(97);
            if vs > 0 {
                lemma_initial_guess(vs, bit_length as nat, mid_length as nat);
            } else {
                vstd::arithmetic::div_mod::lemma_div_of0(pow2(mid_length as nat) as int);
            }
        }
        while !done
            invariant
                vs == value_scaled.as_nat(),
                s == isqrt(vs),
                s * s <= vs < (s + 1) * (s + 1),
                vs < u192_bound(),
                mid_length == bit_length / 2,
                y.as_nat() < pow2(97),
                vs == 0 ==> y.as_nat() == 0 && y_0.as_nat() == 0,
                vs > 0 && y_0.as_nat() == 0 ==> {
                    &&& y.as_nat() >= 1
                    &&& y.as_nat() == vs / pow2(mid_length as nat)
                    &&& 1 <= bit_length <= 192
                    &&& pow2((bit_length - 1) as nat) <= vs < pow2(bit_length as nat)
                },
                vs > 0 && y_0.as_nat() > 0 ==> {
                    &&& y.as_nat() >= s
                    &&& y.as_nat() == newton_step(vs, y_0.as_nat())
                },
                done ==> !far_apart(y.as_nat(), y_0.as_nat()),
            decreases
                (if done { 0int } else { 1int }),
                (if y_0.as_nat() == 0 { 1int } else { 0int }),
                (if far_apart(y.as_nat(), y_0.as_nat()) { 1int } else { 0int }),
                y.as_nat(),
        {
            let above = y.gt(&y_0);
            let below = y.lt(&y_0);
            let diff_above = if above {
                match y.checked_sub(y_0) {
                    Some(d) => d,
                    None => U192(0, 0, 0),
                }
            } else {
                U192(0, 0, 0)
            };
            let diff_below = if below {
                match y_0.checked_sub(y) {
                    Some(d) => d,
                    None => U192(0, 0, 0),
                }
            } else {
                U192(0, 0, 0)
            };
            let threshold = U192::from_u64(1);
            if (above && diff_above.gt(&threshold)) || (below && diff_below.gt(&threshold)) {
                proof {
                    assert(far_apart(y.as_nat(), y_0.as_nat()));
                    assert(vs > 0);
                    if s == 0 {
                        assert((s + 1) * (s + 1) == 1) by (nonlinear_arith)
                            requires s == 0;
                    }
                    assert(y.as_nat() >= 1);
                    if y_0.as_nat() == 0 {
                        lemma_first_step_bounds(vs, bit_length as nat, mid_length as nat);
                    } else {
                        lemma_later_step_bounds(vs, y.as_nat(), s);
                    }
                    lemma_pow2_97_facts();
                    assert(vs / y.as_nat() < pow2(97));
                }
                let ghost prev_y0: nat = y_0.as_nat();
                let tmp_y = match value_scaled.checked_div(y) {
                    Some(t) => t,
                    None => {
                        proof {
                            assert(false);
                        }
                        U192(0, 0, 0)
                    },
                };
                y_0 = y;
                y = match y.checked_add(tmp_y) {
                    Some(t) => t,
                    None => {
                        proof {
                            lemma_pow2_97_facts();
                            assert(false);
                        }
                        U192(0, 0, 0)
                    },
                };
                y = y.half();
                proof {
                    lemma_pow2_97_facts();
                    let y0v = y_0.as_nat();
                    assert(y.as_nat() == newton_step(vs, y0v));
                    assert(y0v + vs / y0v < pow2(98));
                    lemma_multiply_divide_lt((y0v + vs / y0v) as int, 2, pow2(97) as int);
                    assert(y.as_nat() < pow2(97));
                    lemma_newton_step_facts(vs, y0v, s);
                    assert(y.as_nat() >= s);
                    if prev_y0 > 0 && far_apart(y.as_nat(), y0v) {
                        // the guess strictly decreases while iteration continues
                        assert(y.as_nat() < y0v) by {
                            lemma_newton_step_facts(vs, y0v, s);
                            if y.as_nat() > y0v + 1 {
                                if y0v == s {
                                    assert(y.as_nat() <= s + 1);
                                } else {
                                    assert(y0v >= s + 1);
                                    assert(y.as_nat() <= y0v - 1);
                                }
                                assert(false);
                            }
                        }
                    }
                }
            } else {
                done = true;
            }
        }
        proof {
            let yv = y.as_nat();
            let y0v = y_0.as_nat();
            if vs == 0 {
                assert(yv * yv <= vs + 1);
                assert(vs < (yv + 1) * (yv + 1)) by (nonlinear_arith)
                    requires yv == 0, vs == 0;
            } else if y0v == 0 {
                lemma_phase_one_exit(vs, bit_length as nat, mid_length as nat, yv);
            } else {
                lemma_newton_exit(vs, y0v, yv, s);
            }
        }
        Ok(BigDecimal::new(y, self.scale, self.negative))
    }
}

/// The square root of a [`Decimal`] always runs through the extended
/// width, to avoid overflow of the 128-bit magnitude while doubling the
/// precision; the pre-scaled operand must fit in 192 bits.
impl Sqrt<Decimal> for Decimal {
    open spec fn sqrt_req(self) -> bool {
        self.scale <= 38 && self.value * pow10(self.scale as nat) < u192_bound()
    }

    open spec fn sqrt_ens(self, r: Result<Decimal, ErrorCode>) -> bool {
        let n = self.value * pow10(self.scale as nat);
        match r {
            Ok(v) => {
                &&& v.scale == self.scale
                &&& v.value * v.value <= n + 1
                &&& n < (v.value + 1) * (v.value + 1)
                &&& v.negative == (self.negative && v.value != 0)
            },
            Err(_) => false,
        }
    }

    fn sqrt(self) -> (r: Result<Decimal, ErrorCode>) {
        let big_decimal = BigDecimal::from_decimal(self);
        let big_sqrt = match big_decimal.sqrt() {
            Ok(v) => v,
            Err(_) => {
                proof {
                    assert(false);
                }
                return Err(ErrorCode::ExceedsPrecisionRange);
            },
        };
        proof {
            let n = self.value * pow10(self.scale as nat);
            let yv = big_sqrt.value.as_nat();
            assert(yv <= u128::MAX) by {
                lemma_u192_pow2();
                lemma_pow2_adds(96, 96);
                if yv > 0x1_0000_0000_0000_0000_0000_0000u128 {
                    assert(yv * yv > 0x1_0000_0000_0000_0000_0000_0000u128
                        * 0x1_0000_0000_0000_0000_0000_0000u128) by (nonlinear_arith)
                        requires yv > 0x1_0000_0000_0000_0000_0000_0000u128;
                    assert(pow2(96) == 0x1_0000_0000_0000_0000_0000_0000nat) by {
                        lemma2_to64();
                        lemma_pow2_adds(64, 32);
                    }
                }
            }
            if self.value == 0 || self.value == pow10(self.scale as nat) {
                if self.negative {
                } else {
                    assert(big_sqrt == big_decimal);
                }
            }
        }
        Ok(big_sqrt.to_decimal())
    }
}

/// `pow2` and the repeated-multiplication power agree on base two.
proof fn lemma_pow2_is_pow(e: nat)
    ensures
        pow(2, e) == pow2(e),
{
    vstd::arithmetic::power::lemma_pow_positive(2, e);
}

/// Some fixed powers of two used by the overflow bounds.
proof fn lemma_pow2_97_facts()
    ensures
        pow2(97) == 2 * pow2(96),
        pow2(98) == 2 * pow2(97),
        pow2(98) < u192_bound(),
        pow2(96) * pow2(96) == pow2(192),
        pow2(96) >= 2,
{
    lemma2_to64();
    lemma_pow2_adds(96, 1);
    lemma_pow2_adds(97, 1);
    lemma_pow2_adds(64, 32);
    lemma_pow2_adds(96, 96);
    lemma_pow2_strictly_increases(98, 192);
    lemma_pow2_strictly_increases(1, 96);
    crate::uint::lemma_u192_pow2();
}

/// The initial guess `vs >> (bit_length/2)` is at least one and below
/// `2^96`.
proof fn lemma_initial_guess(vs: nat, bl: nat, half: nat)
    requires
        vs >= 1,
        half == bl / 2,
        1 <= bl <= 192,
        pow2((bl - 1) as nat) <= vs < pow2(bl),
    ensures
        1 <= vs / pow2(half),
        vs / pow2(half) < pow2(97),
{
    lemma_pow2_pos(half);
    lemma_pow2_pos((bl - 1) as nat);
    assert(half <= bl - 1 || bl == 1);
    if bl == 1 {
        assert(half == 0);
        assert(pow2(0) == 1) by {
            lemma2_to64();
        }
        vstd::arithmetic::div_mod::lemma_div_basics(vs as int);
        lemma_div_at_least_one(vs, 1);
        lemma_pow2_strictly_increases(1, 97);
        assert(vs / pow2(0) == vs / 1);
    } else {
        vstd::arithmetic::div_mod::lemma_div_basics(vs as int);
        lemma_pow2_adds(half, (bl - 1 - half) as nat);
        lemma_pow2_pos((bl - 1 - half) as nat);
        assert(pow2(half) <= pow2((bl - 1) as nat)) by {
            if half < bl - 1 {
                lemma_pow2_strictly_increases(half, (bl - 1) as nat);
            }
        }
        lemma_div_at_least_one(vs, pow2(half));
        // vs < 2^bl == 2^half * 2^(bl - half), so vs / 2^half < 2^(bl - half)
        lemma_pow2_adds(half, (bl - half) as nat);
        lemma_multiply_divide_lt(vs as int, pow2(half) as int, pow2((bl - half) as nat) as int);
        assert(bl - half <= 96);
        assert(pow2((bl - half) as nat) <= pow2(97)) by {
            if bl - half < 97 {
                lemma_pow2_strictly_increases((bl - half) as nat, 97);
            }
        }
        assert(pow2((bl - half) as nat) < pow2(97)) by {
            lemma_pow2_strictly_increases((bl - half) as nat, 97);
        }
    }
}

/// Bounds for the very first refinement, taken from the initial guess.
proof fn lemma_first_step_bounds(vs: nat, bl: nat, half: nat)
    requires
        vs >= 1,
        half == bl / 2,
        1 <= bl <= 192,
        pow2((bl - 1) as nat) <= vs < pow2(bl),
    ensures
        vs / (vs / pow2(half)) < pow2(97),
{
    let g = vs / pow2(half);
    lemma_pow2_pos(half);
    lemma_initial_guess(vs, bl, half);
    // g >= 2^(bl - 1 - half), hence vs / g <= vs / 2^(bl - 1 - half) < 2^(half + 1)
    let low: nat = (bl - 1 - half) as nat;
    lemma_pow2_pos(low);
    assert(pow2(half) * pow2(low) == pow2((bl - 1) as nat)) by {
        lemma_pow2_adds(half, low);
    }
    assert(g >= pow2(low)) by {
        lemma_div_is_ordered(pow2((bl - 1) as nat) as int, vs as int, pow2(half) as int);
        lemma_div_multiples_vanish(pow2(low) as int, pow2(half) as int);
    }
    assert(vs / g <= vs / pow2(low)) by {
        lemma_div_is_ordered_by_denominator(vs as int, pow2(low) as int, g as int);
    }
    assert(vs / pow2(low) < pow2((half + 1) as nat)) by {
        lemma_pow2_adds(low, half + 1);
        assert(low + (half + 1) == bl);
        assert(pow2(low) * pow2((half + 1) as nat) == pow2(bl));
        lemma_multiply_divide_lt(vs as int, pow2(low) as int, pow2((half + 1) as nat) as int);
    }
    assert(pow2((half + 1) as nat) <= pow2(97)) by {
        if half + 1 < 97 {
            lemma_pow2_strictly_increases((half + 1) as nat, 97);
        }
    }
}

/// Bounds for every later refinement, where the guess has reached the
/// integer square root.
proof fn lemma_later_step_bounds(vs: nat, y: nat, s: nat)
    requires
        vs >= 1,
        y >= s,
        y >= 1,
        s == isqrt(vs),
        vs < u192_bound(),
    ensures
        vs / y <= s + 2,
        s < pow2(96),
{
    lemma_isqrt_bounds(vs);
    assert(s >= 1) by {
        if s == 0 {
            assert(vs < 1 * 1);
        }
    }
    assert(vs <= s * s + 2 * s) by (nonlinear_arith)
        requires vs < (s + 1) * (s + 1);
    lemma_fundamental_div_mod(vs as int, y as int);
    lemma_mod_bound(vs as int, y as int);
    let q = vs / y;
    assert(q <= s + 2) by (nonlinear_arith)
        requires
            vs == y * q + (vs % y),
            vs % y >= 0,
            y >= s,
            s >= 1,
            q >= 0,
            vs <= s * s + 2 * s,
    ;
    lemma_pow2_97_facts();
    crate::uint::lemma_u192_pow2();
    assert(s < pow2(96)) by (nonlinear_arith)
        requires
            s * s <= vs,
            vs < pow2(192),
            pow2(96) * pow2(96) == pow2(192),
            pow2(96) >= 2,
    ;
}

/// The Babylonian step never falls below the integer square root, strictly
/// decreases from above it, and can only land one above it when the
/// operand is one short of a perfect square.
proof fn lemma_newton_step_facts(n: nat, y0: nat, s: nat)
    requires
        y0 >= 1,
        s * s <= n,
        n < (s + 1) * (s + 1),
    ensures
        newton_step(n, y0) >= s,
        y0 >= s + 1 ==> newton_step(n, y0) <= y0 - 1,
        y0 >= s + 1 ==> 2 * newton_step(n, y0) <= y0 + s,
        y0 == s ==> newton_step(n, y0) <= s + 1,
        (y0 == s || y0 == s + 1 || y0 == s + 2) && newton_step(n, y0) == s + 1 ==> n == s * s + 2
            * s,
{
    let q = n / y0;
    let rr = n % y0;
    lemma_fundamental_div_mod(n as int, y0 as int);
    lemma_mod_bound(n as int, y0 as int);
    let y1 = (y0 + q) / 2;
    let b = (y0 + q) % 2;
    lemma_fundamental_div_mod((y0 + q) as int, 2);
    lemma_mod_bound((y0 + q) as int, 2);
    assert(n <= s * s + 2 * s) by (nonlinear_arith)
        requires n < (s + 1) * (s + 1);
    // never below the root
    if y1 <= s - 1 {
        assert(q <= 2 * s - 1 - y0);
        assert(false) by (nonlinear_arith)
            requires
                n == y0 * q + rr,
                0 <= rr,
                rr <= y0 - 1,
                q <= 2 * s - 1 - y0,
                q >= 0,
                y0 >= 1,
                s * s <= n,
        ;
    }
    // strict decrease from above the root
    if y0 >= s + 1 {
        assert(n < y0 * y0) by (nonlinear_arith)
            requires n < (s + 1) * (s + 1), y0 >= s + 1, s >= 0;
        assert(q <= y0 - 1) by (nonlinear_arith)
            requires
                n == y0 * q + rr,
                0 <= rr,
                n < y0 * y0,
                y0 >= 1,
                q >= 0,
        ;
        assert(y1 <= y0 - 1);
        assert(q <= s) by (nonlinear_arith)
            requires
                n == y0 * q + rr,
                0 <= rr,
                n <= s * s + 2 * s,
                y0 >= s + 1,
                q >= 0,
                s >= 0,
        ;
        assert(2 * y1 <= y0 + s);
    }
    // from the root itself, at most one above it
    if y0 == s {
        assert(q <= s + 2) by (nonlinear_arith)
            requires
                n == y0 * q + rr,
                0 <= rr,
                n <= s * s + 2 * s,
                y0 == s,
                s >= 1,
                q >= 0,
        ;
        assert(y1 <= s + 1);
    }
    // landing one above the root pins the operand
    if (y0 == s || y0 == s + 1 || y0 == s + 2) && y1 == s + 1 {
        assert(q == 2 * s + 2 + b - y0);
        assert(n == s * s + 2 * s) by (nonlinear_arith)
            requires
                n == y0 * q + rr,
                0 <= rr,
                rr <= y0 - 1,
                q == 2 * s + 2 + b - y0,
                0 <= b <= 1,
                s * s <= n,
                n <= s * s + 2 * s,
                (y0 == s || y0 == s + 1 || y0 == s + 2),
                y0 >= 1,
        ;
    }
}

/// Exiting the loop from the first check pins the operand below four.
proof fn lemma_phase_one_exit(vs: nat, bl: nat, half: nat, y: nat)
    requires
        vs >= 1,
        half == bl / 2,
        1 <= bl <= 192,
        pow2((bl - 1) as nat) <= vs < pow2(bl),
        y == vs / pow2(half),
        y >= 1,
        !far_apart(y, 0),
    ensures
        y * y <= vs + 1,
        vs < (y + 1) * (y + 1),
{
    assert(y == 1);
    assert(vs <= 3) by {
        if bl >= 3 {
            assert(half <= bl - 2);
            assert(half >= 1);
            // y == 1 means vs < 2 * 2^half <= 2^(bl - 1) <= vs, a contradiction
            lemma_pow2_pos(half);
            lemma_fundamental_div_mod(vs as int, pow2(half) as int);
            lemma_mod_bound(vs as int, pow2(half) as int);
            assert(vs < 2 * pow2(half));
            assert(2 * pow2(half) == pow2((half + 1) as nat)) by {
                lemma_pow2_adds(half, 1);
                lemma2_to64();
            }
            assert(pow2((half + 1) as nat) <= pow2((bl - 1) as nat)) by {
                if half + 1 < bl - 1 {
                    lemma_pow2_strictly_increases((half + 1) as nat, (bl - 1) as nat);
                }
            }
        } else {
            assert(vs < pow2(2)) by {
                if bl < 2 {
                    lemma_pow2_strictly_increases(bl, 2);
                }
            }
            assert(pow2(2) == 4) by {
                lemma2_to64();
            }
        }
    }
}

/// Exiting the loop after a refinement leaves the guess at the integer
/// square root, or one above it when the operand is one short of a
/// perfect square.
proof fn lemma_newton_exit(n: nat, y0: nat, y: nat, s: nat)
    requires
        y0 >= 1,
        s == isqrt(n),
        s * s <= n < (s + 1) * (s + 1),
        y == newton_step(n, y0),
        y >= s,
        !far_apart(y, y0),
    ensures
        y * y <= n + 1,
        n < (y + 1) * (y + 1),
{
    lemma_newton_step_facts(n, y0, s);
    if y0 <= s - 1 {
        assert(y <= y0 + 1);
        assert(y == s);
    } else if y0 == s {
        assert(y == s || (y == s + 1 && n == s * s + 2 * s));
    } else if y0 == s + 1 {
        assert(y <= y0 - 1);
        assert(y == s);
    } else {
        assert(y0 >= s + 2);
        assert(y <= y0 - 1);
        assert(y >= y0 - 1);
        assert(2 * y <= y0 + s);
        assert(y0 <= s + 2);
        assert(y == s + 1 && n == s * s + 2 * s);
    }
    if y == s {
        assert(y * y <= n + 1);
        assert(n < (y + 1) * (y + 1));
    } else {
        assert(y == s + 1 && n == s * s + 2 * s);
        assert(y * y <= n + 1) by (nonlinear_arith)
            requires y == s + 1, n == s * s + 2 * s;
        assert(n < (y + 1) * (y + 1)) by (nonlinear_arith)
            requires y == s + 1, n == s * s + 2 * s;
    }
}

} // verus!
