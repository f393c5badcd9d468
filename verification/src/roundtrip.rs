//! Decoding undoes encoding: the proof that the samples read from an
//! encoded stream are the samples that were written, and what holds of the
//! two kinds of block that are not Rice coded.

use crate::bits::{
    bits_of, bytes_bits, lemma_bits_of_len, lemma_pack_holds, lemma_starts_trans,
    lemma_starts_window, lemma_value_of_bits, lemma_zero_run_unary, starts, take_bits, unary,
};
use crate::estimate::{lemma_round53_positive, lemma_split_of_zero, split_estimate};
use crate::format::{
    lemma_difference_round_trip, lemma_zigzag_wrap, raw, values, wrap, Sample, Width,
};
use crate::stream::{
    block_head, block_len, block_start, code_at, decode_cursor, decoded, encoded, encoded_bits,
    encoded_prefix, head_bits, lemma_same_block, lemma_zero_block, mapped, predictor,
    read_mapped, read_sample, rounded_sum, sample_at, sample_bits, samples, Cursor,
};
use vstd::arithmetic::div_mod::{
    lemma_fundamental_div_mod, lemma_fundamental_div_mod_converse, lemma_small_mod,
};
use vstd::arithmetic::mul::lemma_mul_is_commutative;
use vstd::arithmetic::power2::{lemma2_to64, lemma_pow2_pos, pow2};
use vstd::prelude::*;

verus! {

/// True where every number of `s` is a signed sample of the width.
pub open spec fn all_hold(s: Seq<int>, w: Width) -> bool {
    forall|i: int| 0 <= i < s.len() ==> w.holds(#[trigger] s[i])
}

/// The modulus of a width is two to the power of its bits, and a block
/// code fits in the bits that it is given.
pub proof fn lemma_width_powers(w: Width)
    ensures
        pow2(w.bits()) == w.modulus(),
        w.fsmax() + 1 < pow2(w.fsbits()),
        w.bits() <= 32,
{
    lemma2_to64();
}

/// A field of `n` bits that stands in a beginning of `full` is read back
/// from `full` as the number that it was written from.
pub proof fn lemma_read_field(full: Seq<bool>, part: Seq<bool>, pos: nat, v: nat, n: nat)
    requires
        starts(part, full),
        pos + n <= part.len(),
        part.subrange(pos as int, (pos + n) as int) == bits_of(v, n),
        v < pow2(n),
    ensures
        take_bits(full, pos, n) == Some(v),
{
    lemma_starts_window(part, full, pos as int, (pos + n) as int);
    lemma_value_of_bits(v, n);
    lemma_small_mod(v, pow2(n));
}

/// The bits of one mapped difference, where they stand in a beginning of
/// `full`, are read back as that difference.
pub proof fn lemma_read_mapped_back(
    full: Seq<bool>,
    part: Seq<bool>,
    at: nat,
    m: nat,
    code: nat,
    w: Width,
)
    requires
        starts(part, full),
        part.len() == at + sample_bits(m, code, w).len(),
        part.subrange(at as int, part.len() as int) == sample_bits(m, code, w),
        m < w.modulus(),
        code <= w.fsmax() + 1,
        code == 0 ==> m == 0,
    ensures
        read_mapped(full, at, code, w) == Some((m, part.len())),
{
    lemma_width_powers(w);
    if code == 0 {
    } else if code == w.fsmax() + 1 {
        lemma_bits_of_len(m, w.bits());
        lemma_read_field(full, part, at, m, w.bits());
    } else {
        let fs = (code - 1) as nat;
        let top = m / pow2(fs);
        let low = m % pow2(fs);
        let body = sample_bits(m, code, w);
        lemma_pow2_pos(fs);
        lemma_bits_of_len(m, fs);
        assert(body.len() == top + 1 + fs);
        assert(part.subrange(at as int, (at + top + 1) as int) =~= body.subrange(
            0,
            (top + 1) as int,
        ));
        assert(body.subrange(0, (top + 1) as int) =~= unary(top));
        lemma_starts_window(part, full, at as int, (at + top + 1) as int);
        lemma_zero_run_unary(full, at, top);
        assert(part.subrange((at + top + 1) as int, part.len() as int) =~= body.subrange(
            (top + 1) as int,
            body.len() as int,
        ));
        assert(body.subrange((top + 1) as int, body.len() as int) =~= bits_of(m, fs));
        lemma_starts_window(part, full, (at + top + 1) as int, part.len() as int);
        lemma_value_of_bits(m, fs);
        assert(take_bits(full, at + top + 1, fs) == Some(low));
        lemma_fundamental_div_mod(m as int, pow2(fs) as int);
        lemma_mul_is_commutative(top as int, pow2(fs) as int);
        assert(top * pow2(fs) + low == m);
        assert(m % 0x1_0000_0000 == m);
    }
}

/// A rounded sum of mapped differences that is zero has zero terms only.
pub proof fn lemma_zero_sum(s: Seq<int>, from: int, count: nat, w: Width)
    requires
        rounded_sum(s, from, count, w) == 0,
    ensures
        forall|i: int| from <= i < from + count ==> mapped(s, i, w) == 0,
    decreases count,
{
    if count > 0 {
        let before = rounded_sum(s, from, (count - 1) as nat, w);
        let m = mapped(s, from + count - 1, w);
        if before + m > 0 {
            lemma_round53_positive(before + m);
        }
        lemma_zero_sum(s, from, (count - 1) as nat, w);
    }
}

/// A sum of zero terms is zero.
pub proof fn lemma_sum_of_zeros(s: Seq<int>, from: int, count: nat, w: Width)
    requires
        forall|i: int| from <= i < from + count ==> mapped(s, i, w) == 0,
    ensures
        rounded_sum(s, from, count, w) == 0,
    decreases count,
{
    if count > 0 {
        lemma_sum_of_zeros(s, from, (count - 1) as nat, w);
    }
}

/// The stream of more samples begins with the stream of fewer.
pub proof fn lemma_prefix_grows(s: Seq<int>, nx: nat, nblock: nat, w: Width, i: nat, k: nat)
    requires
        i <= k,
    ensures
        starts(
            encoded_prefix(s, nx, nblock, w, i),
            encoded_prefix(s, nx, nblock, w, k),
        ),
    decreases k,
{
    let a = encoded_prefix(s, nx, nblock, w, i);
    let c = encoded_prefix(s, nx, nblock, w, k);
    if i < k {
        let b = encoded_prefix(s, nx, nblock, w, (k - 1) as nat);
        lemma_prefix_grows(s, nx, nblock, w, i, (k - 1) as nat);
        assert(c.subrange(0, b.len() as int) =~= b);
        lemma_starts_trans(a, b, c);
    } else {
        assert(c.subrange(0, a.len() as int) =~= a);
    }
}

/// What the decoder has before it after `i` samples of an encoded stream.
pub open spec fn expected_cursor(s: Seq<int>, nx: nat, nblock: nat, w: Width, i: nat) -> Cursor {
    Cursor {
        pos: encoded_prefix(s, nx, nblock, w, i).len(),
        last: raw(predictor(s, i as int), w),
        code: if i == 0 {
            0
        } else {
            code_at(s, nx, nblock, w, i - 1)
        },
    }
}

/// One step of the decoder over an encoded stream: from its place after
/// `j` samples it comes to its place after `j + 1` samples.
proof fn lemma_cursor_step(
    full: Seq<bool>,
    s: Seq<int>,
    nx: nat,
    nblock: nat,
    w: Width,
    j: nat,
)
    requires
        0 < nblock,
        j < nx <= s.len(),
        all_hold(s, w),
        starts(encoded_prefix(s, nx, nblock, w, j + 1), full),
    ensures
        match block_head(full, nblock, w, expected_cursor(s, nx, nblock, w, j), j) {
            Some((code, at)) => read_sample(
                full,
                code,
                at,
                expected_cursor(s, nx, nblock, w, j).last,
                w,
            ) == Some(expected_cursor(s, nx, nblock, w, j + 1)),
            None => false,
        },
{
    let before = encoded_prefix(s, nx, nblock, w, j);
    let after = encoded_prefix(s, nx, nblock, w, j + 1);
    let code = code_at(s, nx, nblock, w, j as int);
    let head = head_bits(s, nx, nblock, w, j as int);
    let m = mapped(s, j as int, w);
    let body = sample_bits(m, code, w);
    let c = expected_cursor(s, nx, nblock, w, j);
    let start = block_start(j as int, nblock as int);
    let count = block_len(start, nx as int, nblock as int) as nat;
    lemma_width_powers(w);
    assert(after == before + head + body);
    lemma_fundamental_div_mod(j as int, nblock as int);
    assert(0 <= start <= j && j - start < nblock) by {
        lemma_fundamental_div_mod(j as int, nblock as int);
    }
    assert(j - start < count);
    lemma_zigzag_wrap(s[j as int] - predictor(s, j as int), w);
    if code == 0 {
        lemma_zero_sum(s, start, count, w);
    }
    let at = before.len() + head.len();
    if j % nblock == 0 {
        lemma_bits_of_len(code, w.fsbits());
        assert(after.subrange(before.len() as int, at as int) =~= head);
        lemma_read_field(full, after, before.len(), code, w.fsbits());
    } else {
        assert(block_start(j - 1, nblock as int) == start) by {
            lemma_fundamental_div_mod_converse(
                j - 1,
                nblock as int,
                j as int / nblock as int,
                j % nblock - 1,
            );
            lemma_mul_is_commutative(nblock as int, j as int / nblock as int);
        }
    }
    assert(block_head(full, nblock, w, c, j) == Some((code, at)));
    assert(after.subrange(at as int, after.len() as int) =~= body);
    lemma_read_mapped_back(full, after, at, m, code, w);
    lemma_difference_round_trip(s[j as int], predictor(s, j as int), w);
}

/// Over the bits of an encoded stream the decoder walks along the
/// encoder's steps: after `i` samples it has consumed the stream of `i`
/// samples and holds sample `i - 1`.
pub proof fn lemma_cursor_follows(
    full: Seq<bool>,
    s: Seq<int>,
    nx: nat,
    nblock: nat,
    w: Width,
    i: nat,
)
    requires
        0 < nblock,
        i <= nx <= s.len(),
        0 < s.len(),
        all_hold(s, w),
        starts(encoded_bits(s, nx, nblock, w), full),
    ensures
        decode_cursor(full, nblock, w, i) == Some(expected_cursor(s, nx, nblock, w, i)),
    decreases i,
{
    lemma_width_powers(w);
    lemma_prefix_grows(s, nx, nblock, w, i, nx);
    lemma_starts_trans(
        encoded_prefix(s, nx, nblock, w, i),
        encoded_bits(s, nx, nblock, w),
        full,
    );
    if i == 0 {
        let first = encoded_prefix(s, nx, nblock, w, 0);
        lemma_bits_of_len(raw(s[0], w), w.bits());
        assert(first.subrange(0, w.bits() as int) =~= first);
        lemma_read_field(full, first, 0, raw(s[0], w), w.bits());
    } else {
        let j = (i - 1) as nat;
        lemma_cursor_follows(full, s, nx, nblock, w, j);
        lemma_cursor_step(full, s, nx, nblock, w, j);
    }
}

/// Round trip: the stream of the first `nx` samples of `s`, in blocks of any
/// size above zero, is decoded with the same `nx` and block size to those
/// samples, each as the unsigned number with the same bits.
pub proof fn lemma_round_trip(s: Seq<int>, nx: nat, nblock: nat, w: Width)
    requires
        0 < s.len(),
        nx <= s.len(),
        0 < nblock,
        all_hold(s, w),
    ensures
        decoded(encoded(s, nx, nblock, w), nx, nblock, w) == Some(
            Seq::new(nx, |i: int| raw(s[i], w)),
        ),
{
    let bytes = encoded(s, nx, nblock, w);
    let full = bytes_bits(bytes);
    lemma_pack_holds(encoded_bits(s, nx, nblock, w));
    lemma_cursor_follows(full, s, nx, nblock, w, nx);
    assert forall|i: int| 0 <= i < nx implies sample_at(full, nblock, w, i) == raw(s[i], w) by {
        lemma_cursor_follows(full, s, nx, nblock, w, (i + 1) as nat);
    }
    assert(samples(bytes, nx, nblock, w) =~= Seq::new(nx, |i: int| raw(s[i], w)));
}

/// Round trip for the sample types: what `encode` appends for a sample
/// sequence is decoded to the same samples, each as the unsigned number
/// with the same bits.
pub proof fn lemma_round_trip_samples<T: Sample>(input: Seq<T>, nx: nat, nblock: nat)
    requires
        0 < input.len(),
        nx <= input.len(),
        0 < nblock,
    ensures
        decoded(encoded(values(input), nx, nblock, T::width()), nx, nblock, T::width()) == Some(
            Seq::new(nx, |i: int| raw(input[i].value(), T::width())),
        ),
{
    let s = values(input);
    assert forall|i: int| 0 <= i < s.len() implies T::width().holds(#[trigger] s[i]) by {
        input[i].lemma_value_holds();
    }
    lemma_round_trip(s, nx, nblock, T::width());
    assert(Seq::new(nx, |i: int| raw(s[i], T::width())) =~= Seq::new(
        nx,
        |i: int| raw(input[i].value(), T::width()),
    ));
}

/// In a block in which each sample equals the one before it, all samples
/// equal the predictor of the first.
proof fn lemma_constant_block(s: Seq<int>, start: int, i: int)
    requires
        0 <= start <= i < s.len(),
        forall|k: int| start <= k <= i ==> s[k] == predictor(s, k),
    ensures
        s[i] == predictor(s, start),
    decreases i - start,
{
    if i > start {
        lemma_constant_block(s, start, i - 1);
    }
}

/// A block whose samples all equal the sample before them is written as
/// its code alone, which is zero, in the bits of a code; and it is decoded
/// to copies of the sample before the block.
pub proof fn lemma_degenerate_block(s: Seq<int>, nx: nat, nblock: nat, w: Width, start: nat)
    requires
        0 < nblock,
        start < nx <= s.len(),
        start % nblock == 0,
        all_hold(s, w),
        forall|i: int|
            start <= i < start + block_len(start as int, nx as int, nblock as int) ==> s[i]
                == predictor(s, i),
    ensures
        code_at(s, nx, nblock, w, start as int) == 0,
        encoded_prefix(
            s,
            nx,
            nblock,
            w,
            (start + block_len(start as int, nx as int, nblock as int)) as nat,
        ) == encoded_prefix(s, nx, nblock, w, start) + bits_of(0, w.fsbits()),
        encoded_prefix(
            s,
            nx,
            nblock,
            w,
            (start + block_len(start as int, nx as int, nblock as int)) as nat,
        ).len() == encoded_prefix(s, nx, nblock, w, start).len() + w.fsbits(),
        forall|i: int|
            start <= i < start + block_len(start as int, nx as int, nblock as int) ==> decoded(
                encoded(s, nx, nblock, w),
                nx,
                nblock,
                w,
            ).unwrap()[i] == raw(predictor(s, start as int), w),
{
    let count = block_len(start as int, nx as int, nblock as int) as nat;
    lemma_same_block(start as int, nblock as int, 0);
    assert forall|i: int| start <= i < start + count implies mapped(s, i, w) == 0 by {
        assert(wrap(0, w) == 0);
    }
    lemma_sum_of_zeros(s, start as int, count, w);
    lemma_split_of_zero(count, w);
    lemma_zero_block(s, nx, nblock, w, start, count);
    lemma_bits_of_len(0, w.fsbits());
    lemma_round_trip(s, nx, nblock, w);
    assert forall|i: int| start <= i < start + count implies decoded(
        encoded(s, nx, nblock, w),
        nx,
        nblock,
        w,
    ).unwrap()[i] == raw(predictor(s, start as int), w) by {
        lemma_constant_block(s, start as int, i);
    }
}

/// In a block that is written directly, the stream grows by the bits of a
/// sample with each sample, after the code.
proof fn lemma_direct_prefix(s: Seq<int>, nx: nat, nblock: nat, w: Width, start: nat, k: nat)
    requires
        0 < nblock,
        start % nblock == 0,
        code_at(s, nx, nblock, w, start as int) == w.fsmax() + 1,
        1 <= k <= nblock,
    ensures
        encoded_prefix(s, nx, nblock, w, start + k).len() == encoded_prefix(
            s,
            nx,
            nblock,
            w,
            start,
        ).len() + w.fsbits() + k * w.bits(),
    decreases k,
{
    let j = (start + k - 1) as int;
    lemma_same_block(start as int, nblock as int, k - 1);
    lemma_bits_of_len(mapped(s, j, w), w.bits());
    lemma_bits_of_len(w.fsmax() + 1, w.fsbits());
    if k > 1 {
        lemma_direct_prefix(s, nx, nblock, w, start, (k - 1) as nat);
    }
    assert(k * w.bits() == (k - 1) * w.bits() + w.bits()) by (nonlinear_arith);
}

/// A block whose estimated split reaches the limit of the width is written
/// directly: after its code, which is the limit plus one, each mapped
/// difference stands in the full bits of a sample, and the samples are
/// decoded exactly.
pub proof fn lemma_direct_block(s: Seq<int>, nx: nat, nblock: nat, w: Width, start: nat)
    requires
        0 < nblock,
        start < nx <= s.len(),
        start % nblock == 0,
        all_hold(s, w),
        split_estimate(
            rounded_sum(
                s,
                start as int,
                block_len(start as int, nx as int, nblock as int) as nat,
                w,
            ),
            block_len(start as int, nx as int, nblock as int) as nat,
            w,
        ) >= w.fsmax(),
    ensures
        code_at(s, nx, nblock, w, start as int) == w.fsmax() + 1,
        forall|i: int|
            start <= i < start + block_len(start as int, nx as int, nblock as int)
                ==> #[trigger] sample_bits(mapped(s, i, w), code_at(s, nx, nblock, w, i), w)
                == bits_of(mapped(s, i, w), w.bits()),
        encoded_prefix(
            s,
            nx,
            nblock,
            w,
            (start + block_len(start as int, nx as int, nblock as int)) as nat,
        ).len() == encoded_prefix(s, nx, nblock, w, start).len() + w.fsbits() + block_len(
            start as int,
            nx as int,
            nblock as int,
        ) * w.bits(),
        forall|i: int|
            start <= i < start + block_len(start as int, nx as int, nblock as int) ==> decoded(
                encoded(s, nx, nblock, w),
                nx,
                nblock,
                w,
            ).unwrap()[i] == raw(s[i], w),
{
    let count = block_len(start as int, nx as int, nblock as int) as nat;
    lemma_same_block(start as int, nblock as int, 0);
    assert forall|i: int| start <= i < start + count implies #[trigger] sample_bits(
        mapped(s, i, w),
        code_at(s, nx, nblock, w, i),
        w,
    ) == bits_of(mapped(s, i, w), w.bits()) by {
        lemma_same_block(start as int, nblock as int, i - start);
    }
    lemma_direct_prefix(s, nx, nblock, w, start, count);
    lemma_round_trip(s, nx, nblock, w);
}

} // verus!
