//! Machine words as numbers: shifts and masks stated as multiplication,
//! division and remainder by powers of two, and the length of a number in
//! bits.

use vstd::arithmetic::div_mod::*;
use vstd::arithmetic::mul::*;
use vstd::arithmetic::power2::*;
use vstd::bits::*;
use vstd::prelude::*;

verus! {

/// The number of bits of `v` from its highest one bit down; zero has none.
pub open spec fn bit_length(v: nat) -> nat
    decreases v,
{
    if v == 0 {
        0
    } else {
        1 + bit_length(v / 2)
    }
}

/// For each byte, the number of its bits from the highest one bit down.
pub const SIGNIFICANT_BITS: [u8; 256] = [
    0, 1, 2, 2, 3, 3, 3, 3, 4, 4, 4, 4, 4, 4, 4, 4,
    5, 5, 5, 5, 5, 5, 5, 5, 5, 5, 5, 5, 5, 5, 5, 5,
    6, 6, 6, 6, 6, 6, 6, 6, 6, 6, 6, 6, 6, 6, 6, 6,
    6, 6, 6, 6, 6, 6, 6, 6, 6, 6, 6, 6, 6, 6, 6, 6,
    7, 7, 7, 7, 7, 7, 7, 7, 7, 7, 7, 7, 7, 7, 7, 7,
    7, 7, 7, 7, 7, 7, 7, 7, 7, 7, 7, 7, 7, 7, 7, 7,
    7, 7, 7, 7, 7, 7, 7, 7, 7, 7, 7, 7, 7, 7, 7, 7,
    7, 7, 7, 7, 7, 7, 7, 7, 7, 7, 7, 7, 7, 7, 7, 7,
    8, 8, 8, 8, 8, 8, 8, 8, 8, 8, 8, 8, 8, 8, 8, 8,
    8, 8, 8, 8, 8, 8, 8, 8, 8, 8, 8, 8, 8, 8, 8, 8,
    8, 8, 8, 8, 8, 8, 8, 8, 8, 8, 8, 8, 8, 8, 8, 8,
    8, 8, 8, 8, 8, 8, 8, 8, 8, 8, 8, 8, 8, 8, 8, 8,
    8, 8, 8, 8, 8, 8, 8, 8, 8, 8, 8, 8, 8, 8, 8, 8,
    8, 8, 8, 8, 8, 8, 8, 8, 8, 8, 8, 8, 8, 8, 8, 8,
    8, 8, 8, 8, 8, 8, 8, 8, 8, 8, 8, 8, 8, 8, 8, 8,
    8, 8, 8, 8, 8, 8, 8, 8, 8, 8, 8, 8, 8, 8, 8, 8,
];

/// A number of `k` bits lies between `2^(k-1)` and `2^k`.
pub proof fn lemma_bit_length_bounds(v: nat)
    ensures
        v < pow2(bit_length(v)),
        v > 0 ==> pow2((bit_length(v) - 1) as nat) <= v,
    decreases v,
{
    if v == 0 {
        lemma2_to64();
    } else {
        lemma_bit_length_bounds(v / 2);
        lemma_pow2_unfold(bit_length(v));
        if v / 2 > 0 {
            lemma_pow2_unfold(bit_length(v / 2));
        } else {
            lemma2_to64();
        }
    }
}

/// A number below `2^k` has at most `k` bits.
pub proof fn lemma_bit_length_le(v: nat, k: nat)
    requires
        v < pow2(k),
    ensures
        bit_length(v) <= k,
{
    lemma_bit_length_bounds(v);
    if v > 0 && bit_length(v) > k {
        let m = (bit_length(v) - 1) as nat;
        if k < m {
            lemma_pow2_strictly_increases(k, m);
        }
    }
}

/// A number between `2^(k-1)` and `2^k` has `k` bits.
pub proof fn lemma_bit_length_is(v: nat, k: nat)
    requires
        k >= 1,
        pow2((k - 1) as nat) <= v < pow2(k),
    ensures
        bit_length(v) == k,
{
    lemma_bit_length_le(v, k);
    lemma_bit_length_bounds(v);
    if bit_length(v) < k {
        lemma_pow2_le(bit_length(v), (k - 1) as nat);
    }
}

/// A number of `a` bits above one of `b` bits is a number of `a + b` bits.
pub proof fn lemma_join_bound(hi: nat, a: nat, lo: nat, b: nat)
    requires
        hi < pow2(a),
        lo < pow2(b),
    ensures
        hi * pow2(b) + lo < pow2(a + b),
{
    lemma_pow2_adds(a, b);
    lemma_mul_inequality(hi as int + 1, pow2(a) as int, pow2(b) as int);
    lemma_mul_is_distributive_add_other_way(pow2(b) as int, hi as int, 1);
}

/// The powers of two grow with the exponent.
pub proof fn lemma_pow2_le(a: nat, b: nat)
    requires
        a <= b,
    ensures
        pow2(a) <= pow2(b),
{
    if a < b {
        lemma_pow2_strictly_increases(a, b);
    }
}

/// The number of bits of a byte, from the table.
pub fn significant_bits(b: u8) -> (r: u32)
    ensures
        r == bit_length(b as nat),
        r <= 8,
{
    proof {
        reveal_with_fuel(bit_length, 10);
    }
    SIGNIFICANT_BITS[b as usize] as u32
}

/// `x * 2^s`, where that fits.
pub fn shift_up(x: u64, s: u32) -> (r: u64)
    requires
        s < 64,
        x * pow2(s as nat) <= u64::MAX,
    ensures
        r == x * pow2(s as nat),
{
    proof {
        lemma_u64_shl_is_mul(x, s as u64);
    }
    x << s
}

/// `x / 2^s`.
pub fn shift_down(x: u64, s: u32) -> (r: u64)
    requires
        s < 64,
    ensures
        r == x as nat / pow2(s as nat),
{
    proof {
        lemma_u64_shr_is_div(x, s as u64);
    }
    x >> s
}

/// `x % 2^n`: the `n` low bits of `x`.
pub fn low_bits(x: u64, n: u32) -> (r: u64)
    requires
        n < 64,
    ensures
        r == x as nat % pow2(n as nat),
{
    proof {
        lemma_u64_pow2_no_overflow(n as nat);
        lemma_u64_shl_is_mul(1, n as u64);
        lemma_u64_low_bits_mask_is_mod(x, n as nat);
    }
    x & ((1u64 << n) - 1)
}

} // verus!
