//! The wire format: what a sample sequence is encoded to, bit by bit, and
//! what a bit sequence is decoded to, sample by sample.
//!
//! A stream begins with the first sample, written raw. Blocks of `nblock`
//! samples follow, the last one shorter where the samples run out. Each
//! block begins with a code that names how its mapped differences are
//! written: not at all (all are zero), directly, or split into a unary
//! quotient and a binary remainder.

use crate::bits::{bits_of, bytes_bits, pack, take_bits, unary, zero_run};
use crate::estimate::{block_code, lemma_mean_small, round53, split_estimate};
use crate::format::{lemma_zigzag_wrap, next_sample, raw, wrap, zigzag, Width};
use crate::word::{bit_length, lemma_bit_length_le};
use vstd::arithmetic::div_mod::{lemma_fundamental_div_mod, lemma_fundamental_div_mod_converse};
use vstd::arithmetic::mul::lemma_mul_is_commutative;
use vstd::arithmetic::power2::{lemma2_to64_rest, pow2};
use vstd::prelude::*;

verus! {

/// The sample from which sample `i` is predicted: the one before it, and
/// the first sample for itself.
pub open spec fn predictor(s: Seq<int>, i: int) -> int {
    if i == 0 {
        s[0]
    } else {
        s[i - 1]
    }
}

/// The mapped difference of sample `i`.
pub open spec fn mapped(s: Seq<int>, i: int, w: Width) -> nat {
    zigzag(wrap(s[i] - predictor(s, i), w))
}

/// The rounded sum of the mapped differences of `count` samples from `from`
/// on: each partial sum is rounded to 53 significant bits.
pub open spec fn rounded_sum(s: Seq<int>, from: int, count: nat, w: Width) -> nat
    decreases count,
{
    if count == 0 {
        0
    } else {
        round53(rounded_sum(s, from, (count - 1) as nat, w) + mapped(s, from + count - 1, w))
    }
}

/// The sum of the mapped differences of `count` samples from `from` on.
pub open spec fn plain_sum(s: Seq<int>, from: int, count: nat, w: Width) -> nat
    decreases count,
{
    if count == 0 {
        0
    } else {
        plain_sum(s, from, (count - 1) as nat, w) + mapped(s, from + count - 1, w)
    }
}

/// The index of the first sample of the block that holds sample `i`.
pub open spec fn block_start(i: int, nblock: int) -> int {
    i - i % nblock
}

/// The number of samples of the block that begins at `start`.
pub open spec fn block_len(start: int, nx: int, nblock: int) -> int {
    if nx - start < nblock {
        nx - start
    } else {
        nblock
    }
}

/// The code of the block that holds sample `i`.
pub open spec fn code_at(s: Seq<int>, nx: nat, nblock: nat, w: Width, i: int) -> nat {
    let start = block_start(i, nblock as int);
    let count = block_len(start, nx as int, nblock as int) as nat;
    block_code(rounded_sum(s, start, count, w), count, w)
}

/// The bits of one mapped difference in a block with the given code.
pub open spec fn sample_bits(m: nat, code: nat, w: Width) -> Seq<bool> {
    if code == 0 {
        Seq::empty()
    } else if code == w.fsmax() + 1 {
        bits_of(m, w.bits())
    } else {
        let fs = (code - 1) as nat;
        unary(m / pow2(fs)) + bits_of(m, fs)
    }
}

/// The bits that stand before those of sample `i`: the code of its block
/// where it is the first of the block, else none.
pub open spec fn head_bits(s: Seq<int>, nx: nat, nblock: nat, w: Width, i: int) -> Seq<bool> {
    if i % (nblock as int) == 0 {
        bits_of(code_at(s, nx, nblock, w, i), w.fsbits())
    } else {
        Seq::empty()
    }
}

/// The bits of the stream up to and including those of the first `i`
/// samples.
pub open spec fn encoded_prefix(s: Seq<int>, nx: nat, nblock: nat, w: Width, i: nat) -> Seq<bool>
    decreases i,
{
    if i == 0 {
        bits_of(raw(s[0], w), w.bits())
    } else {
        let j = i - 1;
        encoded_prefix(s, nx, nblock, w, j as nat) + head_bits(s, nx, nblock, w, j) + sample_bits(
            mapped(s, j, w),
            code_at(s, nx, nblock, w, j),
            w,
        )
    }
}

/// The bits of the stream of the first `nx` samples of `s`.
pub open spec fn encoded_bits(s: Seq<int>, nx: nat, nblock: nat, w: Width) -> Seq<bool> {
    encoded_prefix(s, nx, nblock, w, nx)
}

/// The bytes of the stream of the first `nx` samples of `s`.
pub open spec fn encoded(s: Seq<int>, nx: nat, nblock: nat, w: Width) -> Seq<u8> {
    pack(encoded_bits(s, nx, nblock, w))
}

/// Where a decoder stands after some samples: the number of bits consumed,
/// the last sample, and the code of the block of that sample.
pub struct Cursor {
    pub pos: nat,
    pub last: nat,
    pub code: nat,
}

/// The mapped difference that stands at `at` in a block with the given
/// code, and the position after it; `None` where the bits run out.
pub open spec fn read_mapped(bits: Seq<bool>, at: nat, code: nat, w: Width) -> Option<(nat, nat)> {
    if code == 0 {
        Some((0nat, at))
    } else if code == w.fsmax() + 1 {
        match take_bits(bits, at, w.bits()) {
            Some(m) => Some((m, at + w.bits())),
            None => None,
        }
    } else {
        let fs = (code - 1) as nat;
        match zero_run(bits, at) {
            Some(z) => match take_bits(bits, at + z + 1, fs) {
                Some(t) => Some((((z * pow2(fs) + t) % 0x1_0000_0000) as nat, at + z + 1 + fs)),
                None => None,
            },
            None => None,
        }
    }
}

/// The code under which sample `j` is read and the position of its bits,
/// for a decoder that stands at `c` after `j` samples: the first sample of a
/// block is preceded by the code of the block.
pub open spec fn block_head(bits: Seq<bool>, nblock: nat, w: Width, c: Cursor, j: nat) -> Option<
    (nat, nat),
> {
    if nblock == 0 {
        None
    } else if j % nblock == 0 {
        match take_bits(bits, c.pos, w.fsbits()) {
            Some(code) => Some((code, c.pos + w.fsbits())),
            None => None,
        }
    } else {
        Some((c.code, c.pos))
    }
}

/// Where a decoder stands after the sample read at `at` under `code`.
pub open spec fn read_sample(bits: Seq<bool>, code: nat, at: nat, last: nat, w: Width) -> Option<
    Cursor,
> {
    match read_mapped(bits, at, code, w) {
        Some((m, pos)) => Some(Cursor { pos, last: next_sample(last, m, w), code }),
        None => None,
    }
}

/// Where a decoder stands after `i` samples; `None` where the bits ran out
/// before, or where blocks hold no samples.
pub open spec fn decode_cursor(bits: Seq<bool>, nblock: nat, w: Width, i: nat) -> Option<Cursor>
    decreases i,
{
    if i == 0 {
        match take_bits(bits, 0, w.bits()) {
            Some(first) => Some(Cursor { pos: w.bits(), last: first, code: 0 }),
            None => None,
        }
    } else {
        let j = (i - 1) as nat;
        match decode_cursor(bits, nblock, w, j) {
            Some(c) => match block_head(bits, nblock, w, c, j) {
                Some((code, at)) => read_sample(bits, code, at, c.last, w),
                None => None,
            },
            None => None,
        }
    }
}

/// Sample `i` of the decoded sequence, and zero where the bits ran out
/// before it was complete.
pub open spec fn sample_at(bits: Seq<bool>, nblock: nat, w: Width, i: int) -> nat {
    match decode_cursor(bits, nblock, w, (i + 1) as nat) {
        Some(c) => c.last,
        None => 0,
    }
}

/// The `nx` samples that the bytes are decoded to, with zero for each
/// sample that the bytes do not hold.
pub open spec fn samples(input: Seq<u8>, nx: nat, nblock: nat, w: Width) -> Seq<nat> {
    Seq::new(nx, |i: int| sample_at(bytes_bits(input), nblock, w, i))
}

/// True where the bytes hold all of `nx` samples.
pub open spec fn complete(input: Seq<u8>, nx: nat, nblock: nat, w: Width) -> bool {
    decode_cursor(bytes_bits(input), nblock, w, nx) is Some
}

/// The number of bytes that the stream of `nx` samples takes of the bytes,
/// where they hold all samples: the bytes up to the last bit of the stream.
pub open spec fn bytes_read(input: Seq<u8>, nx: nat, nblock: nat, w: Width) -> nat {
    match decode_cursor(bytes_bits(input), nblock, w, nx) {
        Some(c) => (c.pos + 7) / 8,
        None => input.len(),
    }
}

/// The `nx` samples that the bytes are decoded to, where they hold them all.
pub open spec fn decoded(input: Seq<u8>, nx: nat, nblock: nat, w: Width) -> Option<Seq<nat>> {
    if complete(input, nx, nblock, w) {
        Some(samples(input, nx, nblock, w))
    } else {
        None
    }
}

/// For fewer than `2^20` mapped differences no partial sum is rounded: the
/// rounded sum is the sum.
pub proof fn lemma_small_sum(s: Seq<int>, from: int, count: nat, w: Width)
    requires
        count < 0x10_0000,
    ensures
        rounded_sum(s, from, count, w) == plain_sum(s, from, count, w),
        plain_sum(s, from, count, w) <= count * 0xffff_ffff,
    decreases count,
{
    if count > 0 {
        let i = from + count - 1;
        lemma_small_sum(s, from, (count - 1) as nat, w);
        lemma_zigzag_wrap(s[i] - predictor(s, i), w);
        let sum = plain_sum(s, from, count, w);
        lemma2_to64_rest();
        lemma_bit_length_le(sum, 53);
    }
}

/// The split of a block of fewer than `2^20` samples is the number of bits
/// of half the whole part of the mean, where the mean is the exact quotient
/// of the sum of the mapped differences, less half their number and one, by
/// their number, not below zero and not above the highest sample.
pub proof fn lemma_small_split(s: Seq<int>, from: int, count: nat, w: Width)
    requires
        1 <= count < 0x10_0000,
    ensures
        split_estimate(rounded_sum(s, from, count, w), count, w) == bit_length(
            (if 2 * plain_sum(s, from, count, w) - count - 2 <= 0 {
                0
            } else if (2 * plain_sum(s, from, count, w) - count - 2) / (2 * count as int)
                >= w.modulus() - 1 {
                w.modulus() - 1
            } else {
                (2 * plain_sum(s, from, count, w) - count - 2) / (2 * count as int)
            }) as nat / 2,
        ),
{
    lemma_small_sum(s, from, count, w);
    lemma_mean_small(plain_sum(s, from, count, w), count, (w.modulus() - 1) as nat);
}

/// Within a block, the samples stand in the block of the first.
pub proof fn lemma_same_block(start: int, nblock: int, offset: int)
    requires
        0 < nblock,
        0 <= start,
        start % nblock == 0,
        0 <= offset < nblock,
    ensures
        (start + offset) % nblock == offset,
        block_start(start + offset, nblock) == start,
{
    lemma_fundamental_div_mod(start, nblock);
    lemma_mul_is_commutative(nblock, start / nblock);
    lemma_fundamental_div_mod_converse(start + offset, nblock, start / nblock, offset);
}

/// A block of differences that are all zero is written as its code alone.
pub proof fn lemma_zero_block(s: Seq<int>, nx: nat, nblock: nat, w: Width, start: nat, k: nat)
    requires
        0 < nblock,
        start % nblock == 0,
        code_at(s, nx, nblock, w, start as int) == 0,
        1 <= k <= nblock,
    ensures
        encoded_prefix(s, nx, nblock, w, start + k) == encoded_prefix(s, nx, nblock, w, start)
            + bits_of(0, w.fsbits()),
    decreases k,
{
    let j = (start + k - 1) as int;
    lemma_same_block(start as int, nblock as int, k - 1);
    let before = encoded_prefix(s, nx, nblock, w, (start + k - 1) as nat);
    if k > 1 {
        lemma_zero_block(s, nx, nblock, w, start, (k - 1) as nat);
        assert(before + head_bits(s, nx, nblock, w, j) + sample_bits(mapped(s, j, w), 0, w)
            =~= before);
    } else {
        assert(before + head_bits(s, nx, nblock, w, j) + sample_bits(mapped(s, j, w), 0, w)
            =~= before + bits_of(0, w.fsbits()));
    }
}

/// A decoder that cannot stand after `i` samples cannot stand after more.
pub proof fn lemma_cursor_stops(bits: Seq<bool>, nblock: nat, w: Width, i: nat, j: nat)
    requires
        i <= j,
        decode_cursor(bits, nblock, w, i) is None,
    ensures
        decode_cursor(bits, nblock, w, j) is None,
    decreases j,
{
    if i < j {
        lemma_cursor_stops(bits, nblock, w, i, (j - 1) as nat);
    }
}

} // verus!
