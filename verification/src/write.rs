//! The encoder: sample sequences of the three widths to compressed bytes.

use crate::bit_writer::BitWriter;
use crate::bits::{bits_of, unary};
use crate::estimate::{add_rounded, choose_code, SUM_LIMIT};
use crate::format::{map_difference, raw_bits, values, Sample, Width};
use crate::log_noop;
use crate::sink::{Callback, LogSink};
use crate::stream::{
    block_len, code_at, encoded, encoded_prefix, lemma_same_block, lemma_zero_block, mapped,
    predictor, rounded_sum, sample_bits,
};
use crate::word::shift_down;
use vstd::arithmetic::div_mod::{lemma_div_nonincreasing, lemma_mod_add_multiples_vanish};
use vstd::arithmetic::power2::{lemma2_to64, lemma_pow2_pos, pow2};
use vstd::prelude::*;

verus! {

/// Why a sample sequence was not encoded.
#[derive(Clone, Copy, Debug, PartialEq, Eq)]
pub enum EncodeError {
    /// The output has no room for the stream. A growing output always has
    /// room: this encoder never returns this error.
    EndOfBuffer,
    /// There are no samples, or blocks are to hold no samples.
    ZeroSizeInput,
}

/// An encoder of sample sequences. It holds the diagnostic sink and the
/// state of the bit stream of the call in progress.
pub struct RCEncoder {
    /// The sink for reports of an output without room. The output of this
    /// encoder grows as needed, so that nothing is ever reported.
    #[allow(dead_code)]
    log: Box<dyn LogSink>,
    buffer: BitWriter,
}

impl Default for RCEncoder {
    /// As `new`.
    fn default() -> (encoder: Self)
        ensures
            forall|msg: &str| #[trigger] encoder.reports(msg) == call_ensures(log_noop, (msg,), ()),
    {
        Self::new()
    }
}

impl RCEncoder {
    /// An encoder whose diagnostic sink is `log_noop`, which drops every
    /// message.
    pub fn new() -> (encoder: Self)
        ensures
            forall|msg: &str| #[trigger] encoder.reports(msg) == call_ensures(log_noop, (msg,), ()),
    {
        Self::with_log_fn(log_noop)
    }

    /// Makes `log_fn` the diagnostic sink. It has to take every message.
    pub fn set_log_fn<F: Fn(&str) + Send + Sync + 'static>(&mut self, log_fn: F)
        requires
            forall|msg: &str| call_requires(log_fn, (msg,)),
        ensures
            forall|msg: &str|
                #[trigger] final(self).reports(msg) == call_ensures(log_fn, (msg,), ()),
    {
        self.log = Box::new(Callback::new(log_fn));
    }

    /// What holds once the diagnostic sink of this encoder has taken `msg`:
    /// what the function that is the sink ensures of the message.
    pub closed spec fn reports(&self, msg: &str) -> bool {
        self.log.took(msg)
    }

    /// An encoder whose diagnostic sink is `log_fn`.
    fn with_log_fn<F: Fn(&str) + Send + Sync + 'static>(log_fn: F) -> (encoder: Self)
        requires
            forall|msg: &str| call_requires(log_fn, (msg,)),
        ensures
            forall|msg: &str| #[trigger] encoder.reports(msg) == call_ensures(log_fn, (msg,), ()),
    {
        RCEncoder { log: Box::new(Callback::new(log_fn)), buffer: BitWriter::new() }
    }

    /// Writes one mapped difference of a block with the given code.
    fn put_mapped(&mut self, output: &mut Vec<u8>, m: u32, code: u32, w: Width)
        requires
            old(self).buffer.wf(old(output)@),
            code <= w.fsmax() + 1,
        ensures
            final(self).buffer.wf(final(output)@),
            final(self).buffer.kept(final(output)@) == old(self).buffer.kept(old(output)@),
            final(self).buffer.stream(final(output)@) == old(self).buffer.stream(old(output)@)
                + sample_bits(m as nat, code as nat, w),
    {
        let ghost before = self.buffer.stream(output@);
        if code == 0 {
            assert(before + sample_bits(m as nat, code as nat, w) =~= before);
        } else if code == w.max_split() + 1 {
            self.buffer.emit(output, m, w.sample_bits());
        } else {
            let fs = code - 1;
            let top = shift_down(m as u64, fs);
            proof {
                lemma_pow2_pos(fs as nat);
                assert(top <= m) by {
                    lemma_div_nonincreasing(m as int, pow2(fs as nat) as int);
                }
            }
            self.buffer.emit_unary(output, top as u32);
            self.buffer.emit(output, m, fs);
            assert(before + unary(top as nat) + bits_of(m as nat, fs as nat) =~= before + (unary(
                top as nat,
            ) + bits_of(m as nat, fs as nat)));
        }
    }

    /// Encodes the first `nx` samples of `input` in blocks of `nblock`
    /// samples and appends the stream to `output`.
    fn encode_samples<T: Sample>(
        &mut self,
        input: &[T],
        nx: usize,
        nblock: usize,
        output: &mut Vec<u8>,
    ) -> (r: Result<usize, EncodeError>)
        requires
            nx <= input@.len(),
        ensures
            match r {
                Ok(n) => {
                    &&& input@.len() > 0
                    &&& nblock > 0
                    &&& final(output)@ == old(output)@ + encoded(
                        values(input@),
                        nx as nat,
                        nblock as nat,
                        T::width(),
                    )
                    &&& n == encoded(values(input@), nx as nat, nblock as nat, T::width()).len()
                },
                Err(e) => {
                    &&& e == EncodeError::ZeroSizeInput
                    &&& (input@.len() == 0 || nblock == 0)
                    &&& final(output)@ == old(output)@
                },
            },
    {
        if input.len() == 0 || nblock == 0 {
            return Err(EncodeError::ZeroSizeInput);
        }
        let w = T::sample_width();
        let ghost s = values(input@);
        let ghost kept = output@;
        self.buffer.reset();
        assert(self.buffer.kept(output@) =~= kept);
        assert(self.buffer.stream(output@) =~= Seq::<bool>::empty()) by {
            assert(self.buffer.written(output@) =~= Seq::<u8>::empty());
        }
        let mut lastpix: i64 = input[0].widen();
        proof {
            input@[0].lemma_value_holds();
        }
        self.buffer.emit(output, raw_bits(lastpix, w), w.sample_bits());
        assert(self.buffer.stream(output@) =~= encoded_prefix(s, nx as nat, nblock as nat, w, 0));
        let mut diff: Vec<u32> = Vec::new();
        let mut i: usize = 0;
        while i < nx
            invariant
                0 < nblock,
                i <= nx <= input@.len(),
                i < nx ==> i % nblock == 0,
                s == values(input@),
                w == T::width(),
                lastpix == predictor(s, i as int),
                w.holds(lastpix as int),
                self.buffer.wf(output@),
                self.buffer.kept(output@) == kept,
                self.buffer.stream(output@) == encoded_prefix(
                    s,
                    nx as nat,
                    nblock as nat,
                    w,
                    i as nat,
                ),
            decreases nx - i,
        {
            let thisblock: usize = if nx - i < nblock {
                nx - i
            } else {
                nblock
            };
            diff.clear();
            let mut sum: u128 = 0;
            let mut j: usize = 0;
            while j < thisblock
                invariant
                    j <= thisblock,
                    i + thisblock <= nx <= input@.len(),
                    s == values(input@),
                    w == T::width(),
                    lastpix == predictor(s, i + j),
                    w.holds(lastpix as int),
                    diff@.len() == j,
                    forall|k: int| 0 <= k < j ==> diff@[k] == mapped(s, i + k, w),
                    sum == rounded_sum(s, i as int, j as nat, w),
                    sum <= SUM_LIMIT,
                decreases thisblock - j,
            {
                let nextpix = input[i + j].widen();
                proof {
                    input@[i + j].lemma_value_holds();
                }
                let m = map_difference(nextpix, lastpix, w);
                diff.push(m);
                sum = add_rounded(sum, m);
                lastpix = nextpix;
                j = j + 1;
            }
            let code = choose_code(sum, thisblock, w);
            proof {
                lemma_same_block(i as int, nblock as int, 0);
                assert(block_len(i as int, nx as int, nblock as int) == thisblock);
                assert(code_at(s, nx as nat, nblock as nat, w, i as int) == code);
                lemma2_to64();
            }
            self.buffer.emit(output, code, w.code_bits());
            if code == 0 {
                proof {
                    lemma_zero_block(s, nx as nat, nblock as nat, w, i as nat, thisblock as nat);
                }
            } else {
                let ghost base = encoded_prefix(s, nx as nat, nblock as nat, w, i as nat);
                let mut k: usize = 0;
                while k < thisblock
                    invariant
                        0 < nblock,
                        k <= thisblock <= nblock,
                        i + thisblock <= nx,
                        i % nblock == 0,
                        thisblock == block_len(i as int, nx as int, nblock as int),
                        code == code_at(s, nx as nat, nblock as nat, w, i as int),
                        code <= w.fsmax() + 1,
                        diff@.len() == thisblock,
                        forall|k: int| 0 <= k < thisblock ==> diff@[k] == mapped(s, i + k, w),
                        base == encoded_prefix(s, nx as nat, nblock as nat, w, i as nat),
                        self.buffer.wf(output@),
                        self.buffer.kept(output@) == kept,
                        k == 0 ==> self.buffer.stream(output@) == base + bits_of(
                            code as nat,
                            w.fsbits(),
                        ),
                        k > 0 ==> self.buffer.stream(output@) == encoded_prefix(
                            s,
                            nx as nat,
                            nblock as nat,
                            w,
                            (i + k) as nat,
                        ),
                    decreases thisblock - k,
                {
                    proof {
                        lemma_same_block(i as int, nblock as int, k as int);
                    }
                    self.put_mapped(output, diff[k], code, w);
                    k = k + 1;
                }
            }
            proof {
                lemma_mod_add_multiples_vanish(i as int, nblock as int);
            }
            i = i + thisblock;
        }
        self.buffer.flush(output);
        assert(output@ =~= kept + encoded(s, nx as nat, nblock as nat, w));
        assert(self.buffer.written(output@).len() == self.buffer.count());
        Ok(self.buffer.bytes_written())
    }

    /// Encodes the first `nx` of the 32-bit samples of `input` in blocks of
    /// `nblock` samples, appends the stream to `output` and returns the
    /// number of bytes appended.
    pub fn encode(&mut self, input: &[i32], nx: usize, nblock: usize, output: &mut Vec<u8>) -> (r:
        Result<usize, EncodeError>)
        requires
            nx <= input@.len(),
        ensures
            match r {
                Ok(n) => {
                    &&& input@.len() > 0
                    &&& nblock > 0
                    &&& final(output)@ == old(output)@ + encoded(
                        values(input@),
                        nx as nat,
                        nblock as nat,
                        Width::Int,
                    )
                    &&& n == encoded(values(input@), nx as nat, nblock as nat, Width::Int).len()
                },
                Err(e) => {
                    &&& e == EncodeError::ZeroSizeInput
                    &&& (input@.len() == 0 || nblock == 0)
                    &&& final(output)@ == old(output)@
                },
            },
    {
        self.encode_samples(input, nx, nblock, output)
    }

    /// As `encode`, for 16-bit samples.
    pub fn encode_short(
        &mut self,
        input: &[i16],
        nx: usize,
        nblock: usize,
        output: &mut Vec<u8>,
    ) -> (r: Result<usize, EncodeError>)
        requires
            nx <= input@.len(),
        ensures
            match r {
                Ok(n) => {
                    &&& input@.len() > 0
                    &&& nblock > 0
                    &&& final(output)@ == old(output)@ + encoded(
                        values(input@),
                        nx as nat,
                        nblock as nat,
                        Width::Short,
                    )
                    &&& n == encoded(values(input@), nx as nat, nblock as nat, Width::Short).len()
                },
                Err(e) => {
                    &&& e == EncodeError::ZeroSizeInput
                    &&& (input@.len() == 0 || nblock == 0)
                    &&& final(output)@ == old(output)@
                },
            },
    {
        self.encode_samples(input, nx, nblock, output)
    }

    /// As `encode`, for 8-bit samples.
    pub fn encode_byte(
        &mut self,
        input: &[i8],
        nx: usize,
        nblock: usize,
        output: &mut Vec<u8>,
    ) -> (r: Result<usize, EncodeError>)
        requires
            nx <= input@.len(),
        ensures
            match r {
                Ok(n) => {
                    &&& input@.len() > 0
                    &&& nblock > 0
                    &&& final(output)@ == old(output)@ + encoded(
                        values(input@),
                        nx as nat,
                        nblock as nat,
                        Width::Byte,
                    )
                    &&& n == encoded(values(input@), nx as nat, nblock as nat, Width::Byte).len()
                },
                Err(e) => {
                    &&& e == EncodeError::ZeroSizeInput
                    &&& (input@.len() == 0 || nblock == 0)
                    &&& final(output)@ == old(output)@
                },
            },
    {
        self.encode_samples(input, nx, nblock, output)
    }
}

} // verus!
