//! Powers of ten and the integer square root, the measures the decimal
//! contracts are stated in.

use vstd::prelude::*;

use vstd::arithmetic::div_mod::{
    lemma_div_basics,
    lemma_div_denominator,
    lemma_fundamental_div_mod,
    lemma_fundamental_div_mod_converse,
    lemma_mod_bound,
};
use vstd::arithmetic::power2::{lemma2_to64, lemma_pow2_adds, lemma_pow2_pos, pow2};

verus! {

/// The position of the most significant set bit: the largest `k` with
/// `2^k <= n`, and zero for inputs below two.
pub open spec fn log2_floor(n: nat) -> nat
    decreases n,
{
    if n < 2 {
        0
    } else {
        1 + log2_floor(n / 2)
    }
}

pub proof fn lemma_log2_floor_bounds(n: nat)
    requires
        n >= 1,
    ensures
        pow2(log2_floor(n)) <= n < pow2(log2_floor(n) + 1),
    decreases n,
{
    lemma2_to64();
    if n < 2 {
        assert(pow2(0) == 1 && pow2(1) == 2);
    } else {
        lemma_log2_floor_bounds(n / 2);
        let k = log2_floor(n / 2);
        lemma_pow2_adds(k, 1);
        lemma_pow2_adds(k + 1, 1);
        lemma_fundamental_div_mod(n as int, 2);
    }
}

/// On an exact power of two the floor logarithm recovers the exponent.
pub proof fn lemma_log2_floor_pow2(k: nat)
    ensures
        log2_floor(pow2(k)) == k,
    decreases k,
{
    lemma2_to64();
    lemma_pow2_pos(k);
    if k == 0 {
    } else {
        lemma_log2_floor_pow2((k - 1) as nat);
        lemma_pow2_adds((k - 1) as nat, 1);
        assert(pow2(k) == pow2((k - 1) as nat) * 2);
        assert(pow2(k) / 2 == pow2((k - 1) as nat)) by {
            lemma_fundamental_div_mod_converse(
                pow2(k) as int,
                2,
                pow2((k - 1) as nat) as int,
                0,
            );
        }
        assert(pow2(k) >= 2) by {
            if k >= 1 {
                vstd::arithmetic::power2::lemma_pow2_strictly_increases(0, k);
            }
        }
    }
}

/// `2^e` computed in a `u128`.
pub fn pow2_u128(e: u32) -> (r: u128)
    requires
        e <= 127,
    ensures
        r == pow2(e as nat),
        r >= 1,
{
    let mut r: u128 = 1;
    let mut i: u32 = 0;
    proof {
        lemma2_to64();
        lemma_pow2_pos(e as nat);
    }
    while i < e
        invariant
            i <= e,
            e <= 127,
            r == pow2(i as nat),
        decreases e - i,
    {
        proof {
            lemma_pow2_adds(i as nat, 1);
            lemma2_to64();
            assert(pow2((i + 1) as nat) <= pow2(127)) by {
                if i + 1 < 127 {
                    vstd::arithmetic::power2::lemma_pow2_strictly_increases(
                        (i + 1) as nat,
                        127,
                    );
                }
            }
            assert(pow2(127) < pow2(128)) by {
                vstd::arithmetic::power2::lemma_pow2_strictly_increases(127, 128);
            }
            assert(pow2(128) == 0x1_0000_0000_0000_0000_0000_0000_0000_0000nat) by {
                lemma_pow2_adds(64, 64);
            }
        }
        r = r * 2;
        i = i + 1;
    }
    r
}

/// The floor of the binary logarithm of a positive `u128`, by repeated
/// halving.
pub fn log2_floor_u128(x: u128) -> (r: u32)
    requires
        x >= 1,
    ensures
        r == log2_floor(x as nat),
        r <= 127,
        pow2(r as nat) <= x < pow2((r + 1) as nat),
{
    let mut t: u128 = x;
    let mut n: u32 = 0;
    proof {
        lemma_div_basics(x as int);
        assert(pow2(0) == 1) by {
            lemma2_to64();
        }
    }
    while t >= 2
        invariant
            x >= 1,
            t == x as nat / pow2(n as nat),
            log2_floor(x as nat) == n + log2_floor(t as nat),
            t >= 1,
            n <= 127,
        decreases t,
    {
        proof {
            lemma_pow2_pos(n as nat);
            lemma_pow2_adds(n as nat, 1);
            assert(pow2(1) == 2) by {
                lemma2_to64();
            }
            lemma_div_denominator(x as int, pow2(n as nat) as int, 2);
            assert(n < 127) by {
                if n >= 127 {
                    lemma_log2_floor_bounds(x as nat);
                    lemma_div_bound_by_pow2(x as nat, n as nat);
                }
            }
        }
        t = t / 2;
        n = n + 1;
    }
    proof {
        lemma_log2_floor_bounds(x as nat);
        assert(log2_floor(t as nat) == 0);
        lemma_pow2_pos(n as nat);
    }
    n
}

/// A 128-bit value shifted down 127 times is at most one.
proof fn lemma_div_bound_by_pow2(x: nat, n: nat)
    requires
        n >= 127,
        x <= u128::MAX,
    ensures
        x / pow2(n) <= 1,
{
    lemma_pow2_pos(n);
    assert(pow2(127) <= pow2(n)) by {
        if n > 127 {
            vstd::arithmetic::power2::lemma_pow2_strictly_increases(127, n);
        }
    }
    assert(x / pow2(n) <= x / pow2(127)) by {
        lemma_pow2_pos(127);
        vstd::arithmetic::div_mod::lemma_div_is_ordered_by_denominator(
            x as int,
            pow2(127) as int,
            pow2(n) as int,
        );
    }
    assert(pow2(128) == 0x1_0000_0000_0000_0000_0000_0000_0000_0000nat) by {
        lemma2_to64();
        lemma_pow2_adds(64, 64);
    }
    assert(pow2(128) == 2 * pow2(127)) by {
        lemma_pow2_adds(127, 1);
        lemma2_to64();
    }
    assert(x < 2 * pow2(127));
    vstd::arithmetic::div_mod::lemma_multiply_divide_lt(x as int, pow2(127) as int, 2);
}

/// The integer square root: the largest `r` with `r * r <= n`.
pub open spec fn isqrt(n: nat) -> nat
    decreases n,
{
    if n == 0 {
        0
    } else {
        if (isqrt((n - 1) as nat) + 1) * (isqrt((n - 1) as nat) + 1) <= n {
            isqrt((n - 1) as nat) + 1
        } else {
            isqrt((n - 1) as nat)
        }
    }
}

pub proof fn lemma_isqrt_bounds(n: nat)
    ensures
        isqrt(n) * isqrt(n) <= n,
        n < (isqrt(n) + 1) * (isqrt(n) + 1),
    decreases n,
{
    if n == 0 {
        assert(isqrt(0nat) == 0);
        assert(0nat * 0nat == 0) by (nonlinear_arith);
        assert((0nat + 1) * (0nat + 1) == 1) by (nonlinear_arith);
    } else {
        lemma_isqrt_bounds((n - 1) as nat);
        let r = isqrt((n - 1) as nat);
        let q = isqrt(n);
        if (r + 1) * (r + 1) <= n {
            assert(q == r + 1);
            assert(q * q <= n);
            assert(n < (q + 1) * (q + 1)) by (nonlinear_arith)
                requires q == r + 1, n - 1 < (r + 1) * (r + 1);
        } else {
            assert(q == r);
            assert(q * q <= n);
            assert(n < (q + 1) * (q + 1));
        }
    }
}

/// The integer square root is monotone.
pub proof fn lemma_isqrt_mono(a: nat, b: nat)
    requires
        a <= b,
    ensures
        isqrt(a) <= isqrt(b),
{
    lemma_isqrt_bounds(a);
    lemma_isqrt_bounds(b);
    if isqrt(a) > isqrt(b) {
        assert(false) by (nonlinear_arith)
            requires
                isqrt(a) >= isqrt(b) + 1,
                isqrt(a) * isqrt(a) <= a,
                b < (isqrt(b) + 1) * (isqrt(b) + 1),
                a <= b,
        ;
    }
}

/// A quotient of naturals is at least one when the dividend reaches the
/// divisor.
pub proof fn lemma_div_at_least_one(a: nat, d: nat)
    requires
        0 < d <= a,
    ensures
        a / d >= 1,
{
    lemma_fundamental_div_mod(a as int, d as int);
    lemma_mod_bound(a as int, d as int);
    if a / d == 0 {
        assert(a == d * ((a as int) / (d as int)) + a % d);
    }
}

/// `10^e` as a mathematical natural number.
pub open spec fn pow10(e: nat) -> nat
    decreases e,
{
    if e == 0 {
        1
    } else {
        10 * pow10((e - 1) as nat)
    }
}

pub proof fn lemma_pow10_pos(e: nat)
    ensures
        pow10(e) >= 1,
    decreases e,
{
    if e > 0 {
        lemma_pow10_pos((e - 1) as nat);
    }
}

pub proof fn lemma_pow10_adds(a: nat, b: nat)
    ensures
        pow10(a + b) == pow10(a) * pow10(b),
    decreases a,
{
    if a == 0 {
        assert(pow10(0) == 1);
        assert(pow10(0 + b) == 1 * pow10(b));
    } else {
        lemma_pow10_adds((a - 1) as nat, b);
        assert(pow10(a + b) == 10 * pow10((a - 1) as nat + b));
        assert(10 * (pow10((a - 1) as nat) * pow10(b)) == (10 * pow10((a - 1) as nat)) * pow10(b))
            by (nonlinear_arith);
    }
}

pub proof fn lemma_pow10_increases(a: nat, b: nat)
    requires
        a <= b,
    ensures
        pow10(a) <= pow10(b),
{
    lemma_pow10_adds(a, (b - a) as nat);
    lemma_pow10_pos((b - a) as nat);
    assert(pow10(a) * 1 <= pow10(a) * pow10((b - a) as nat)) by (nonlinear_arith)
        requires pow10((b - a) as nat) >= 1, pow10(a) >= 0;
}

/// The largest power of ten that fits in a `u128` is `10^38`.
pub proof fn lemma_pow10_38_fits()
    ensures
        pow10(38) == 100000000000000000000000000000000000000u128,
{
    reveal_with_fuel(pow10, 40);
}

/// `10^e` computed in a `u128`; defined for every scale a `u128` can hold.
pub fn pow10_u128(e: u8) -> (r: u128)
    requires
        e <= 38,
    ensures
        r == pow10(e as nat),
        r >= 1,
{
    let mut r: u128 = 1;
    let mut i: u8 = 0;
    proof {
        lemma_pow10_pos(e as nat);
    }
    while i < e
        invariant
            i <= e,
            e <= 38,
            r == pow10(i as nat),
        decreases e - i,
    {
        proof {
            lemma_pow10_increases((i + 1) as nat, 38);
            lemma_pow10_38_fits();
            assert(pow10((i + 1) as nat) == 10 * pow10(i as nat));
        }
        r = r * 10;
        i = i + 1;
    }
    r
}

} // verus!
