//! The choice of the split of a block.
//!
//! The split is the number of bits of half the mean of the mapped
//! differences of the block. Sum and mean are those of double-precision
//! arithmetic: every sum, difference and quotient is rounded to the nearest
//! number of 53 significant bits. The rounding is done here on integers.

use crate::format::Width;
use crate::word::{
    bit_length, lemma_bit_length_bounds, lemma_bit_length_is, lemma_bit_length_le, lemma_pow2_le,
};
use vstd::arithmetic::div_mod::{
    lemma_div_non_zero, lemma_div_pos_is_pos, lemma_fundamental_div_mod_converse,
    lemma_mod_bound, lemma_multiply_divide_lt,
};
use vstd::arithmetic::mul::{
    lemma_mul_inequality, lemma_mul_is_commutative, lemma_mul_strictly_positive,
    lemma_mul_upper_bound,
};
use vstd::arithmetic::power2::{
    lemma2_to64, lemma2_to64_rest, lemma_pow2_adds, lemma_pow2_pos, lemma_pow2_unfold, pow2,
};
use vstd::prelude::*;

verus! {

/// The highest sum of a block: two to the power of 86. A rounded sum that
/// has come this far is not moved by a further mapped difference.
pub const SUM_LIMIT: u128 = 0x40_0000_0000_0000_0000_0000;

/// The bound on what is rounded here: two to the power of 100.
pub const ROUND_LIMIT: u128 = 0x10_0000_0000_0000_0000_0000_0000;

/// The nearest number to `x` that has at most 53 significant bits; of two
/// that are equally near, the one whose last significant bit is zero.
pub open spec fn round53(x: nat) -> nat {
    if bit_length(x) <= 53 {
        x
    } else {
        let unit = pow2((bit_length(x) - 53) as nat);
        let q = x / unit;
        let r = x % unit;
        if 2 * r > unit || (2 * r == unit && q % 2 == 1) {
            (q + 1) * unit
        } else {
            q * unit
        }
    }
}

/// `round53` for numbers of either sign.
pub open spec fn round53_signed(x: int) -> int {
    if x >= 0 {
        round53(x as nat) as int
    } else {
        -(round53((-x) as nat) as int)
    }
}

/// The whole part of the mean of a block of `count` mapped differences
/// with the given rounded sum, cut off at `limit`. The mean is taken of the
/// sum less half the count and one, and it is not below zero. The count,
/// both differences and the quotient are rounded.
///
/// The differences are held doubled, so that they are whole numbers. The
/// quotient lies between two whole numbers `k` and `k + 1`. Where it is no
/// further from `k + 1` than half the distance from `k + 1` to the number of
/// 53 bits below it, which is `2^(bit_length(k) - 54)`, it is rounded to
/// `k + 1`; else its whole part is `k`.
pub open spec fn mean_floor(sum: nat, count: nat, limit: nat) -> nat {
    let n = round53(count);
    let less_half = round53_signed(2 * sum - n);
    let less_one = round53_signed(less_half - 2);
    if less_one <= 0 {
        0
    } else {
        let d = 2 * n;
        let k = (less_one / d as int) as nat;
        let r = (less_one % d as int) as nat;
        if k >= limit {
            limit
        } else if r != 0 && (d - r) * pow2((54 - bit_length(k)) as nat) <= d {
            k + 1
        } else {
            k
        }
    }
}

/// The split chosen for a block of `count` mapped differences with the
/// given rounded sum: the number of bits of half the whole part of the mean.
pub open spec fn split_estimate(sum: nat, count: nat, w: Width) -> nat {
    bit_length(mean_floor(sum, count, (w.modulus() - 1) as nat) / 2)
}

/// The code that begins a block: zero where all differences are zero, the
/// highest code where the block is written directly, else the split plus one.
pub open spec fn block_code(sum: nat, count: nat, w: Width) -> nat {
    let fs = split_estimate(sum, count, w);
    if fs >= w.fsmax() {
        w.fsmax() + 1
    } else if fs == 0 && sum == 0 {
        0
    } else {
        fs + 1
    }
}

/// The values of the powers of two that bound sums and counts.
pub proof fn lemma_pow2_wide()
    ensures
        pow2(53) == 0x20_0000_0000_0000,
        pow2(64) == 0x1_0000_0000_0000_0000,
        pow2(86) == SUM_LIMIT,
        pow2(100) == ROUND_LIMIT,
        pow2(128) == 0x1_0000_0000_0000_0000_0000_0000_0000_0000,
{
    lemma2_to64();
    lemma2_to64_rest();
    lemma_pow2_adds(64, 22);
    lemma_pow2_adds(64, 36);
    lemma_pow2_adds(64, 64);
}

/// Rounding does not pass a power of two.
pub proof fn lemma_round53_bound(x: nat, k: nat)
    requires
        x <= pow2(k),
    ensures
        round53(x) <= pow2(k),
{
    let len = bit_length(x);
    if len > 53 {
        let e = (len - 53) as nat;
        let unit = pow2(e);
        let q = x / unit;
        lemma_pow2_pos(e);
        lemma_bit_length_bounds(x);
        lemma_pow2_adds(e, 53);
        lemma_multiply_divide_lt(x as int, unit as int, pow2(53) as int);
        lemma_mul_inequality(q as int + 1, pow2(53) as int, unit as int);
        lemma_mul_is_commutative(pow2(53) as int, unit as int);
        assert(round53(x) <= pow2(len)) by {
            lemma_mul_inequality(q as int, q as int + 1, unit as int);
        }
        if x < pow2(k) {
            lemma_bit_length_le(x, k);
            lemma_pow2_le(len, k);
        } else {
            lemma_pow2_unfold(k + 1);
            lemma_bit_length_is(x, k + 1);
            assert(e + 52 == k);
            lemma_pow2_adds(52, e);
            lemma_fundamental_div_mod_converse(x as int, unit as int, pow2(52) as int, 0);
        }
    }
}

/// A number above zero is rounded to a number above zero.
pub proof fn lemma_round53_positive(x: nat)
    requires
        x > 0,
    ensures
        round53(x) > 0,
{
    let len = bit_length(x);
    if len > 53 {
        let e = (len - 53) as nat;
        let unit = pow2(e);
        let q = x / unit;
        lemma_pow2_pos(e);
        lemma_bit_length_bounds(x);
        lemma_pow2_le(e, (len - 1) as nat);
        lemma_div_non_zero(x as int, unit as int);
        lemma_mul_strictly_positive(q as int, unit as int);
        lemma_mul_inequality(q as int, q as int + 1, unit as int);
    }
}

/// A rounded sum at the limit or below it stays there when a mapped
/// difference is added and the sum is rounded.
pub proof fn lemma_sum_stays(sum: nat, m: nat)
    requires
        sum <= pow2(86),
        m < pow2(32),
    ensures
        round53(sum + m) <= pow2(86),
{
    let t = sum + m;
    if t <= pow2(86) {
        lemma_round53_bound(t, 86);
    } else {
        lemma2_to64();
        lemma2_to64_rest();
        lemma_pow2_wide();
        lemma_pow2_unfold(87);
        lemma_bit_length_is(t, 87);
        lemma_pow2_adds(52, 34);
        lemma_fundamental_div_mod_converse(
            t as int,
            pow2(34) as int,
            pow2(52) as int,
            t - pow2(86),
        );
    }
}

/// The split of a block whose sum is zero is zero, and so is its code.
pub proof fn lemma_split_of_zero(count: nat, w: Width)
    requires
        count >= 1,
    ensures
        split_estimate(0, count, w) == 0,
        block_code(0, count, w) == 0,
{
    let n = round53(count);
    lemma_round53_positive(count);
    lemma_round53_positive(n);
    let less_half = round53_signed(-(n as int));
    lemma_round53_positive((2 - less_half) as nat);
}

/// For a block of fewer than `2^20` mapped differences of up to 32 bits
/// nothing is rounded: the whole part of the mean is that of the exact
/// quotient of twice the sum less the count and two by twice the count.
pub proof fn lemma_mean_small(sum: nat, count: nat, limit: nat)
    requires
        1 <= count < 0x10_0000,
        sum <= count * 0xffff_ffff,
        limit <= 0xffff_ffff,
    ensures
        mean_floor(sum, count, limit) == if 2 * sum - count - 2 <= 0 {
            0
        } else if (2 * sum - count - 2) / (2 * count as int) >= limit {
            limit as int
        } else {
            (2 * sum - count - 2) / (2 * count as int)
        },
{
    lemma2_to64();
    lemma2_to64_rest();
    assert(sum < 0x10_0000_0000_0000) by (nonlinear_arith)
        requires
            sum <= count * 0xffff_ffff,
            count < 0x10_0000,
    ;
    lemma_bit_length_le(count, 53);
    let less_half = 2 * sum - count;
    if less_half >= 0 {
        lemma_bit_length_le(less_half as nat, 53);
    } else {
        lemma_bit_length_le((-less_half) as nat, 53);
    }
    let less_one = less_half - 2;
    if less_one >= 0 {
        lemma_bit_length_le(less_one as nat, 53);
    } else {
        lemma_bit_length_le((-less_one) as nat, 53);
    }
    assert(round53_signed(2 * sum - round53(count)) == less_half);
    assert(round53_signed(less_half - 2) == less_one);
    if less_one > 0 {
        let d = 2 * count;
        let k = (less_one / d as int) as nat;
        let r = (less_one % d as int) as nat;
        lemma_div_pos_is_pos(less_one, d as int);
        lemma_mod_bound(less_one, d as int);
        if k < limit {
            let shift = (54 - bit_length(k)) as nat;
            lemma_bit_length_le(k, 32);
            lemma_pow2_le(22, shift);
            lemma_mul_upper_bound(1, d - r, pow2(22) as int, pow2(shift) as int);
        }
    }
}

/// The number of halvings that bring `v` to zero.
pub fn count_bits(v: u128) -> (n: u32)
    ensures
        n == bit_length(v as nat),
        n <= 128,
{
    let mut rest = v;
    let mut n: u32 = 0;
    proof {
        lemma_pow2_wide();
        lemma_bit_length_le(v as nat, 128);
    }
    while rest > 0
        invariant
            n + bit_length(rest as nat) == bit_length(v as nat),
            bit_length(v as nat) <= 128,
        decreases rest,
    {
        rest = rest / 2;
        n = n + 1;
    }
    n
}

/// Two to the power of `e`.
pub fn two_to(e: u32) -> (r: u128)
    requires
        e <= 100,
    ensures
        r == pow2(e as nat),
{
    let mut r: u128 = 1;
    let mut i: u32 = 0;
    proof {
        lemma2_to64();
        lemma_pow2_wide();
    }
    while i < e
        invariant
            i <= e <= 100,
            r == pow2(i as nat),
            pow2(100) == ROUND_LIMIT,
        decreases e - i,
    {
        proof {
            lemma_pow2_unfold((i + 1) as nat);
            lemma_pow2_le((i + 1) as nat, 100);
        }
        r = r * 2;
        i = i + 1;
    }
    r
}

/// `x` rounded to 53 significant bits.
pub fn round_to_53(x: u128) -> (r: u128)
    requires
        x <= ROUND_LIMIT,
    ensures
        r == round53(x as nat),
{
    proof {
        lemma_pow2_wide();
        lemma_bit_length_bounds(x as nat);
    }
    if x < 0x20_0000_0000_0000 {
        proof {
            lemma_bit_length_le(x as nat, 53);
        }
        return x;
    }
    let len = count_bits(x);
    proof {
        if len <= 53 {
            lemma_pow2_le(len as nat, 53);
        }
        if x < ROUND_LIMIT {
            lemma_bit_length_le(x as nat, 100);
        } else {
            lemma_pow2_unfold(101);
            lemma_bit_length_is(x as nat, 101);
        }
    }
    let unit = two_to(len - 53);
    proof {
        let e = (len - 53) as nat;
        lemma_pow2_pos(e);
        lemma_pow2_adds(e, 53);
        lemma_multiply_divide_lt(x as int, unit as int, pow2(53) as int);
        lemma_mul_inequality((x / unit) as int + 1, pow2(53) as int, unit as int);
        lemma_mul_is_commutative(pow2(53) as int, unit as int);
        lemma_mul_inequality((x / unit) as int, (x / unit) as int + 1, unit as int);
        lemma_pow2_le(len as nat, 101);
        lemma_pow2_unfold(101);
    }
    let q = x / unit;
    let r = x % unit;
    if 2 * r > unit || (2 * r == unit && q % 2 == 1) {
        (q + 1) * unit
    } else {
        q * unit
    }
}

/// `x` rounded to 53 significant bits, for numbers of either sign.
pub fn round_signed(x: i128) -> (r: i128)
    requires
        -ROUND_LIMIT <= x <= ROUND_LIMIT,
    ensures
        r == round53_signed(x as int),
        -ROUND_LIMIT <= r <= ROUND_LIMIT,
{
    proof {
        lemma_pow2_wide();
        if x >= 0 {
            lemma_round53_bound(x as nat, 100);
        } else {
            lemma_round53_bound((-x) as nat, 100);
        }
    }
    if x >= 0 {
        round_to_53(x as u128) as i128
    } else {
        -(round_to_53((-x) as u128) as i128)
    }
}

/// The rounded sum of a rounded sum and one more mapped difference.
pub fn add_rounded(sum: u128, m: u32) -> (r: u128)
    requires
        sum <= SUM_LIMIT,
    ensures
        r == round53((sum + m) as nat),
        r <= SUM_LIMIT,
{
    proof {
        lemma2_to64();
        lemma_pow2_wide();
        lemma_sum_stays(sum as nat, m as nat);
    }
    round_to_53(sum + m as u128)
}

/// The split for a block of `count` mapped differences with the given
/// rounded sum.
pub fn choose_split(sum: u128, count: usize, w: Width) -> (fs: u32)
    requires
        count >= 1,
        sum <= SUM_LIMIT,
    ensures
        fs == split_estimate(sum as nat, count as nat, w),
        fs <= 32,
{
    proof {
        lemma2_to64();
        lemma_pow2_wide();
        lemma_round53_bound(count as nat, 64);
        lemma_round53_positive(count as nat);
    }
    let n = round_to_53(count as u128);
    let less_half = round_signed(2 * (sum as i128) - n as i128);
    proof {
        let x = 2 * sum - n;
        lemma_pow2_adds(64, 24);
        if x >= 0 {
            lemma_round53_bound(x as nat, 88);
        } else {
            lemma_round53_bound((-x) as nat, 88);
        }
    }
    let less_one = round_signed(less_half - 2);
    let limit = (w.sample_range() - 1) as u128;
    let mean: u128 = if less_one <= 0 {
        0
    } else {
        let d = 2 * n;
        let k = less_one as u128 / d;
        let r = less_one as u128 % d;
        if k >= limit {
            limit
        } else {
            let len = count_bits(k);
            proof {
                lemma_bit_length_le(k as nat, 32);
            }
            let scale = two_to(54 - len);
            proof {
                lemma_pow2_le((54 - len) as nat, 54);
                lemma2_to64_rest();
                lemma_mul_upper_bound(
                    (d - r) as int,
                    0x2_0000_0000_0000_0000,
                    scale as int,
                    0x40_0000_0000_0000,
                );
            }
            if r != 0 && (d - r) * scale <= d {
                k + 1
            } else {
                k
            }
        }
    };
    proof {
        lemma_bit_length_le((mean / 2) as nat, 32);
    }
    count_bits(mean / 2)
}

/// The code that begins a block of `count` mapped differences with the
/// given rounded sum.
pub fn choose_code(sum: u128, count: usize, w: Width) -> (code: u32)
    requires
        count >= 1,
        sum <= SUM_LIMIT,
    ensures
        code == block_code(sum as nat, count as nat, w),
        code <= w.fsmax() + 1,
{
    let fs = choose_split(sum, count, w);
    let fsmax = w.max_split();
    if fs >= fsmax {
        fsmax + 1
    } else if fs == 0 && sum == 0 {
        0
    } else {
        fs + 1
    }
}

} // verus!
