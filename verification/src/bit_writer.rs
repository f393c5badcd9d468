//! The bit stream writer: bit fields of up to 32 bits go in, most
//! significant bit first, and whole bytes come out at the end of a byte
//! vector.

use crate::bits::{
    bits_of, bytes_bits, lemma_bits_of_concat, lemma_bits_of_len, lemma_bits_of_mod,
    lemma_bits_of_split, lemma_bits_of_zero, lemma_bytes_bits_push, lemma_pack_pending,
    lemma_value_of_bits, pack, unary, zeros,
};
use crate::word::{lemma_join_bound, lemma_pow2_le, low_bits, shift_down, shift_up};
use vstd::arithmetic::div_mod::*;
use vstd::arithmetic::mul::*;
use vstd::arithmetic::power2::*;
use vstd::prelude::*;

verus! {

/// The state of a bit stream under construction. The bytes that are
/// complete stand at the end of the output vector; the bits of the byte
/// that is not yet complete stand in the accumulator.
pub struct BitWriter {
    /// The pending bits, as a number.
    bitbuffer: u32,
    /// The number of bits that the pending byte still lacks, 1 to 8.
    bits_to_go: u32,
    /// The number of bytes written.
    current: usize,
}

pub proof fn lemma_zeros_concat(a: nat, b: nat)
    ensures
        zeros(a) + zeros(b) == zeros(a + b),
{
    assert(zeros(a) + zeros(b) =~= zeros(a + b));
}

/// The unary code of `n` is the number one written in `n + 1` bits.
pub proof fn lemma_unary_is_one(n: nat)
    ensures
        bits_of(1, n + 1) == unary(n),
{
    lemma_bits_of_zero(n);
    assert(bits_of(1, n + 1) =~= bits_of(0, n).push(true));
}

impl BitWriter {
    /// The bits of the byte that is not yet complete.
    pub closed spec fn pending(&self) -> Seq<bool> {
        bits_of(self.bitbuffer as nat, (8 - self.bits_to_go) as nat)
    }

    /// The number of bytes written so far.
    pub closed spec fn count(&self) -> nat {
        self.current as nat
    }

    /// The accumulator holds a valid number of bits and nothing above them.
    pub closed spec fn inv(&self) -> bool {
        &&& 1 <= self.bits_to_go <= 8
        &&& self.bitbuffer < pow2((8 - self.bits_to_go) as nat)
    }

    /// The writer is in order and `out` holds the bytes that it wrote.
    pub open spec fn wf(&self, out: Seq<u8>) -> bool {
        &&& self.inv()
        &&& self.pending().len() < 8
        &&& self.count() <= out.len()
    }

    /// What `out` held before the writer began.
    pub open spec fn kept(&self, out: Seq<u8>) -> Seq<u8> {
        out.subrange(0, out.len() - self.count())
    }

    /// The bytes that the writer wrote to `out`.
    pub open spec fn written(&self, out: Seq<u8>) -> Seq<u8> {
        out.subrange(out.len() - self.count(), out.len() as int)
    }

    /// All the bits emitted so far: those of the bytes written, then the
    /// pending ones.
    pub open spec fn stream(&self, out: Seq<u8>) -> Seq<bool> {
        bytes_bits(self.written(out)) + self.pending()
    }

    /// A writer that has emitted nothing.
    pub fn new() -> (w: BitWriter)
        ensures
            w.inv(),
            w.count() == 0,
            w.pending() == Seq::<bool>::empty(),
    {
        proof {
            lemma2_to64();
        }
        BitWriter { bitbuffer: 0, bits_to_go: 8, current: 0 }
    }

    /// Forgets what was emitted: the writer is as new.
    pub fn reset(&mut self)
        ensures
            final(self).inv(),
            final(self).count() == 0,
            final(self).pending() == Seq::<bool>::empty(),
    {
        proof {
            lemma2_to64();
        }
        self.bitbuffer = 0;
        self.bits_to_go = 8;
        self.current = 0;
    }

    /// The number of bytes written so far.
    pub fn bytes_written(&self) -> (n: usize)
        ensures
            n == self.count(),
    {
        self.current
    }

    /// Appends one byte to the output.
    fn put_byte(&mut self, output: &mut Vec<u8>, byte: u8)
        requires
            old(self).count() <= old(output)@.len(),
        ensures
            final(output)@ == old(output)@.push(byte),
            final(self).count() == old(self).count() + 1,
            final(self).bitbuffer == old(self).bitbuffer,
            final(self).bits_to_go == old(self).bits_to_go,
            final(self).kept(final(output)@) == old(self).kept(old(output)@),
            final(self).written(final(output)@) == old(self).written(old(output)@).push(byte),
    {
        output.push(byte);
        let len = output.len();
        assert(self.current < len);
        self.current = self.current + 1;
        assert(self.kept(output@) =~= old(self).kept(old(output)@));
        assert(self.written(output@) =~= old(self).written(old(output)@).push(byte));
    }

    /// Appends the `n_bits` low bits of `value` to the stream, most
    /// significant bit first.
    pub fn emit(&mut self, output: &mut Vec<u8>, value: u32, n_bits: u32)
        requires
            old(self).wf(old(output)@),
            n_bits <= 32,
        ensures
            final(self).wf(final(output)@),
            final(self).kept(final(output)@) == old(self).kept(old(output)@),
            final(self).stream(final(output)@) == old(self).stream(old(output)@) + bits_of(
                value as nat,
                n_bits as nat,
            ),
    {
        let ghost before = self.stream(output@);
        let ghost kept = self.kept(output@);
        let ghost field = bits_of(value as nat, n_bits as nat);
        let held: u32 = 8 - self.bits_to_go;
        let low = low_bits(value as u64, n_bits);
        proof {
            lemma_pow2_pos(n_bits as nat);
            lemma_mod_bound(value as int, pow2(n_bits as nat) as int);
            lemma_join_bound(self.bitbuffer as nat, held as nat, low as nat, n_bits as nat);
            lemma_pow2_le((held + n_bits) as nat, 40);
            lemma2_to64_rest();
            lemma_bits_of_concat(self.bitbuffer as nat, held as nat, low as nat, n_bits as nat);
            lemma_bits_of_mod(value as nat, n_bits as nat);
        }
        let mut acc: u64 = shift_up(self.bitbuffer as u64, n_bits) + low;
        let mut cnt: u32 = held + n_bits;
        assert(bits_of(acc as nat, cnt as nat) == self.pending() + field);
        while cnt >= 8
            invariant
                cnt <= 39,
                acc < pow2(cnt as nat),
                self.count() <= output@.len(),
                self.kept(output@) == kept,
                bytes_bits(self.written(output@)) + bits_of(acc as nat, cnt as nat) == before
                    + field,
            decreases cnt,
        {
            let rest: u32 = cnt - 8;
            let top = shift_down(acc, rest);
            let below = low_bits(acc, rest);
            proof {
                lemma_pow2_pos(rest as nat);
                lemma_pow2_adds(rest as nat, 8);
                lemma2_to64();
                lemma_multiply_divide_lt(acc as int, pow2(rest as nat) as int, 256);
                lemma_mod_bound(acc as int, pow2(rest as nat) as int);
                lemma_bits_of_split(acc as nat, 8, rest as nat);
                lemma_bits_of_mod(acc as nat, rest as nat);
                lemma_bytes_bits_push(self.written(output@), top as u8);
            }
            self.put_byte(output, top as u8);
            acc = below;
            cnt = rest;
        }
        proof {
            lemma_pow2_le(cnt as nat, 8);
            lemma2_to64();
        }
        self.bitbuffer = acc as u32;
        self.bits_to_go = 8 - cnt;
        proof {
            lemma_bits_of_len(acc as nat, cnt as nat);
            assert(self.stream(output@) =~= before + field);
        }
    }

    /// Appends `run` zero bits and then a one bit to the stream.
    pub fn emit_unary(&mut self, output: &mut Vec<u8>, run: u32)
        requires
            old(self).wf(old(output)@),
        ensures
            final(self).wf(final(output)@),
            final(self).kept(final(output)@) == old(self).kept(old(output)@),
            final(self).stream(final(output)@) == old(self).stream(old(output)@) + unary(
                run as nat,
            ),
    {
        let ghost before = self.stream(output@);
        let ghost kept = self.kept(output@);
        let mut rest: u32 = run;
        proof {
            assert(before + zeros(0) =~= before);
        }
        while rest >= 32
            invariant
                rest <= run,
                self.wf(output@),
                self.kept(output@) == kept,
                self.stream(output@) == before + zeros((run - rest) as nat),
            decreases rest,
        {
            proof {
                lemma_bits_of_zero(32);
                lemma_zeros_concat((run - rest) as nat, 32);
            }
            self.emit(output, 0, 32);
            rest = rest - 32;
        }
        proof {
            lemma_unary_is_one(rest as nat);
            assert(zeros((run - rest) as nat) + unary(rest as nat) =~= unary(
                run as nat,
            ));
        }
        self.emit(output, 1, rest + 1);
    }

    /// Completes the pending byte with zero bits and writes it out, where
    /// any bit is pending. The output then ends with the packed stream.
    pub fn flush(&mut self, output: &mut Vec<u8>)
        requires
            old(self).wf(old(output)@),
        ensures
            final(self).wf(final(output)@),
            final(self).pending() == Seq::<bool>::empty(),
            final(self).kept(final(output)@) == old(self).kept(old(output)@),
            final(self).written(final(output)@) == pack(old(self).stream(old(output)@)),
            final(output)@ == old(self).kept(old(output)@) + pack(
                old(self).stream(old(output)@),
            ),
    {
        let ghost kept = self.kept(output@);
        let ghost body = self.written(output@);
        let ghost tail = self.pending();
        proof {
            lemma_pack_pending(body, tail);
            lemma_bits_of_len(self.bitbuffer as nat, (8 - self.bits_to_go) as nat);
            lemma_value_of_bits(self.bitbuffer as nat, (8 - self.bits_to_go) as nat);
            lemma_small_mod(self.bitbuffer as nat, pow2((8 - self.bits_to_go) as nat));
            lemma2_to64();
        }
        if self.bits_to_go < 8 {
            let last = shift_up(self.bitbuffer as u64, self.bits_to_go);
            self.put_byte(output, last as u8);
            self.bitbuffer = 0;
            self.bits_to_go = 8;
        }
        proof {
            assert(output@ =~= self.kept(output@) + self.written(output@));
        }
    }
}

} // verus!
