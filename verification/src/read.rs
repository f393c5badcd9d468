//! The decoder: compressed bytes to sample sequences of the three widths.

use crate::bit_reader::BitReader;
use crate::bits::{bytes_bits, zero_run};
use crate::format::{pixels, undo_difference, Pixel, Width};
use crate::log_noop;
use crate::sink::{Callback, LogSink};
use crate::stream::{
    block_head, bytes_read, complete, decode_cursor, decoded, lemma_cursor_stops,
    lemma_same_block, read_mapped, sample_at, samples,
};
use crate::word::{lemma_pow2_le, shift_up};
use vstd::arithmetic::div_mod::{
    lemma_add_mod_noop, lemma_mod_add_multiples_vanish, lemma_mul_mod_noop_left,
};
use vstd::arithmetic::mul::lemma_mul_upper_bound;
use vstd::arithmetic::power2::{lemma2_to64, lemma2_to64_rest, pow2};
use vstd::prelude::*;

verus! {

/// Why a stream was not decoded.
#[derive(Clone, Copy, Debug, PartialEq, Eq)]
pub enum DecodeError {
    /// The bytes ended before all samples were read.
    EndOfBuffer,
    /// There are no samples. Decoding never returns this error.
    ZeroSizeInput,
}

/// A decoder of compressed streams. It holds the diagnostic sink.
pub struct RCDecoder {
    log: Box<dyn LogSink>,
}

/// The remainder of `k * p + t` depends on `k` through its remainder only.
proof fn lemma_run_mod(k: int, p: int, t: int, m: int)
    requires
        0 < m,
    ensures
        ((k % m) * p + t) % m == (k * p + t) % m,
{
    lemma_mul_mod_noop_left(k, p, m);
    lemma_add_mod_noop((k % m) * p, t, m);
    lemma_add_mod_noop(k * p, t, m);
}

/// Where the decoder cannot stand after `stop` samples, a sequence of `nx`
/// numbers that holds the samples before `i` and zero from there on is what
/// the bytes are decoded to, and the bytes are not complete.
proof fn lemma_stopped(
    input: Seq<u8>,
    nx: nat,
    nblock: nat,
    w: Width,
    stop: nat,
    i: nat,
    out: Seq<nat>,
)
    requires
        stop <= nx,
        stop <= i + 1,
        decode_cursor(bytes_bits(input), nblock, w, stop) is None,
        out.len() == nx,
        forall|j: int| 0 <= j < i && j < nx ==> out[j] == sample_at(bytes_bits(input), nblock, w, j),
        forall|j: int| i <= j < nx ==> out[j] == 0,
    ensures
        out == samples(input, nx, nblock, w),
        !complete(input, nx, nblock, w),
{
    let bits = bytes_bits(input);
    lemma_cursor_stops(bits, nblock, w, stop, nx);
    assert forall|j: int| 0 <= j < nx implies out[j] == sample_at(bits, nblock, w, j) by {
        if j >= i {
            lemma_cursor_stops(bits, nblock, w, stop, (j + 1) as nat);
        }
    }
    assert(out =~= samples(input, nx, nblock, w));
}

impl Default for RCDecoder {
    /// As `new`.
    fn default() -> (decoder: Self)
        ensures
            forall|msg: &str| #[trigger] decoder.reports(msg) == call_ensures(log_noop, (msg,), ()),
    {
        Self::new()
    }
}

impl RCDecoder {
    /// A decoder whose diagnostic sink is `log_noop`, which drops every
    /// message.
    pub fn new() -> (decoder: RCDecoder)
        ensures
            forall|msg: &str| #[trigger] decoder.reports(msg) == call_ensures(log_noop, (msg,), ()),
    {
        Self::with_log_fn(log_noop)
    }

    /// Makes `log_fn` the diagnostic sink. It has to take every message.
    pub fn set_log_fn<F: Fn(&str) + Send + Sync + 'static>(&mut self, log_fn: F)
        requires
            forall|msg: &str| call_requires(log_fn, (msg,)),
        ensures
            forall|msg: &str|
                #[trigger] final(self).reports(msg) == call_ensures(log_fn, (msg,), ()),
    {
        self.log = Box::new(Callback::new(log_fn));
    }

    /// What holds once the diagnostic sink of this decoder has taken `msg`:
    /// what the function that is the sink ensures of the message.
    pub closed spec fn reports(&self, msg: &str) -> bool {
        self.log.took(msg)
    }

    /// A decoder whose diagnostic sink is `log_fn`.
    fn with_log_fn<F: Fn(&str) + Send + Sync + 'static>(log_fn: F) -> (decoder: Self)
        requires
            forall|msg: &str| call_requires(log_fn, (msg,)),
        ensures
            forall|msg: &str| #[trigger] decoder.reports(msg) == call_ensures(log_fn, (msg,), ()),
    {
        RCDecoder { log: Box::new(Callback::new(log_fn)) }
    }

    /// Reads one mapped difference of a block with the given code.
    fn take_mapped(reader: &mut BitReader, input: &[u8], code: u32, w: Width) -> (r: Option<u32>)
        requires
            old(reader).inv(input@),
            code < 32,
        ensures
            match read_mapped(bytes_bits(input@), old(reader).position(), code as nat, w) {
                Some((m, pos)) => {
                    &&& r == Some(m as u32)
                    &&& m <= u32::MAX
                    &&& final(reader).inv(input@)
                    &&& final(reader).position() == pos
                },
                None => r is None,
            },
    {
        let ghost bits = bytes_bits(input@);
        let ghost at = reader.position();
        if code == 0 {
            Some(0)
        } else if code == w.max_split() + 1 {
            proof {
                lemma_pow2_le(w.bits(), 32);
                lemma2_to64();
            }
            reader.take(input, w.sample_bits())
        } else {
            let fs = code - 1;
            match reader.count_leading_zero_run(input) {
                None => None,
                Some(run) => {
                    match reader.take(input, fs) {
                        None => None,
                        Some(low) => {
                            let ghost k = zero_run(bits, at).unwrap();
                            proof {
                                lemma_pow2_le(fs as nat, 30);
                                lemma2_to64();
                                lemma2_to64_rest();
                                lemma_mul_upper_bound(
                                    run as int,
                                    0xffff_ffff,
                                    pow2(fs as nat) as int,
                                    0x4000_0000,
                                );
                                lemma_run_mod(
                                    k as int,
                                    pow2(fs as nat) as int,
                                    low as int,
                                    0x1_0000_0000,
                                );
                            }
                            let whole = shift_up(run as u64, fs) + low as u64;
                            Some((whole % 0x1_0000_0000) as u32)
                        },
                    }
                },
            }
        }
    }

    /// Fills `output` up to `nx` samples with zero, reports the end of the
    /// bytes to the sink, and returns the error.
    fn give_up<T: Pixel>(&self, output: &mut Vec<T>, nx: usize) -> (r: Result<(), DecodeError>)
        requires
            old(output)@.len() <= nx,
        ensures
            r == Err::<(), DecodeError>(DecodeError::EndOfBuffer),
            self.reports("decompression error: hit end of compressed byte stream"),
            final(output)@.len() == nx,
            forall|j: int| 0 <= j < old(output)@.len() ==> final(output)@[j] == old(output)@[j],
            forall|j: int| old(output)@.len() <= j < nx ==> (#[trigger] final(output)@[j]).value() == 0,
    {
        while output.len() < nx
            invariant
                old(output)@.len() <= output@.len() <= nx,
                forall|j: int| 0 <= j < old(output)@.len() ==> output@[j] == old(output)@[j],
                forall|j: int|
                    old(output)@.len() <= j < output@.len() ==> (#[trigger] output@[j]).value() == 0,
            decreases nx - output@.len(),
        {
            output.push(T::from_raw(0));
        }
        self.log.log("decompression error: hit end of compressed byte stream");
        Err(DecodeError::EndOfBuffer)
    }

    /// Decodes `nx` samples, coded in blocks of `nblock` samples, from
    /// `input` to `output`.
    fn decode_samples<T: Pixel>(
        &self,
        input: &[u8],
        nx: usize,
        nblock: usize,
        output: &mut Vec<T>,
    ) -> (r: Result<(), DecodeError>)
        ensures
            final(output)@.len() == nx,
            pixels(final(output)@) == samples(input@, nx as nat, nblock as nat, T::width()),
            match r {
                Ok(()) => {
                    &&& decoded(input@, nx as nat, nblock as nat, T::width()) == Some(
                        pixels(final(output)@),
                    )
                    &&& bytes_read(input@, nx as nat, nblock as nat, T::width()) < input@.len()
                        ==> self.reports(
                        "decompression warning: unused bytes at end of compressed buffer",
                    )
                },
                Err(e) => {
                    &&& e == DecodeError::EndOfBuffer
                    &&& decoded(input@, nx as nat, nblock as nat, T::width()) is None
                    &&& self.reports("decompression error: hit end of compressed byte stream")
                },
            },
    {
        let w = T::pixel_width();
        let ghost bits = bytes_bits(input@);
        output.clear();
        let mut reader = BitReader::new();
        let mut lastpix: u32 = 0;
        match reader.take(input, w.sample_bits()) {
            Some(first) => {
                proof {
                    lemma2_to64();
                    lemma2_to64_rest();
                }
                lastpix = first;
            },
            None => {
                let r = self.give_up(output, nx);
                proof {
                    lemma_stopped(input@, nx as nat, nblock as nat, w, 0, 0, pixels(output@));
                }
                return r;
            },
        }
        if nblock == 0 && nx > 0 {
            let r = self.give_up(output, nx);
            proof {
                lemma_stopped(input@, nx as nat, nblock as nat, w, 1, 0, pixels(output@));
            }
            return r;
        }
        let mut i: usize = 0;
        while i < nx
            invariant
                i <= nx,
                i < nx ==> 0 < nblock && i % nblock == 0,
                w == T::width(),
                bits == bytes_bits(input@),
                reader.inv(input@),
                lastpix < w.modulus(),
                decode_cursor(bits, nblock as nat, w, i as nat) matches Some(c) && c.pos
                    == reader.position() && c.last == lastpix,
                output@.len() == i,
                forall|j: int|
                    0 <= j < i ==> (#[trigger] output@[j]).value() == sample_at(
                        bits,
                        nblock as nat,
                        w,
                        j,
                    ),
            decreases nx - i,
        {
            let ghost start = i;
            let ghost head = decode_cursor(bits, nblock as nat, w, i as nat).unwrap();
            let code = match reader.take(input, w.code_bits()) {
                Some(code) => code,
                None => {
                    let r = self.give_up(output, nx);
                    proof {
                        lemma_stopped(
                            input@,
                            nx as nat,
                            nblock as nat,
                            w,
                            (i + 1) as nat,
                            i as nat,
                            pixels(output@),
                        );
                    }
                    return r;
                },
            };
            proof {
                lemma_pow2_le(w.fsbits(), 5);
                lemma2_to64();
            }
            let imax: usize = if nx - i < nblock {
                nx
            } else {
                i + nblock
            };
            while i < imax
                invariant
                    0 < nblock,
                    start <= i <= imax <= nx,
                    start < imax,
                    imax - start <= nblock,
                    start % nblock == 0,
                    code < 32,
                    w == T::width(),
                    bits == bytes_bits(input@),
                    reader.inv(input@),
                    lastpix < w.modulus(),
                    decode_cursor(bits, nblock as nat, w, i as nat) matches Some(c) && c.last
                        == lastpix && (i == start ==> block_head(bits, nblock as nat, w, c, i as nat)
                        == Some((code as nat, reader.position()))) && (i > start ==> c.code == code
                        && c.pos == reader.position()),
                    output@.len() == i,
                    forall|j: int|
                        0 <= j < i ==> (#[trigger] output@[j]).value() == sample_at(
                            bits,
                            nblock as nat,
                            w,
                            j,
                        ),
                decreases imax - i,
            {
                proof {
                    lemma_same_block(start as int, nblock as int, i - start);
                }
                let m = match Self::take_mapped(&mut reader, input, code, w) {
                    Some(m) => m,
                    None => {
                        let r = self.give_up(output, nx);
                        proof {
                            lemma_stopped(
                                input@,
                                nx as nat,
                                nblock as nat,
                                w,
                                (i + 1) as nat,
                                i as nat,
                                pixels(output@),
                            );
                        }
                        return r;
                    },
                };
                lastpix = undo_difference(lastpix, m, w);
                output.push(T::from_raw(lastpix));
                i = i + 1;
            }
            proof {
                lemma_mod_add_multiples_vanish(start as int, nblock as int);
            }
        }
        proof {
            reader.lemma_fetched(input@);
        }
        if reader.bytes_fetched() < input.len() {
            self.log.log("decompression warning: unused bytes at end of compressed buffer");
        }
        assert(pixels(output@) =~= samples(input@, nx as nat, nblock as nat, w));
        Ok(())
    }

    /// Decodes `nx` 32-bit samples, coded in blocks of `nblock` samples,
    /// from `input`. `output` then holds `nx` samples: those that `input`
    /// holds whole, and zero for the others. Where `input` does not hold all
    /// `nx` samples the result is the error that the bytes have ended.
    pub fn decode(
        &self,
        input: &[u8],
        nx: usize,
        nblock: usize,
        output: &mut Vec<u32>,
    ) -> (r: Result<(), DecodeError>)
        ensures
            final(output)@.len() == nx,
            pixels(final(output)@) == samples(input@, nx as nat, nblock as nat, Width::Int),
            match r {
                Ok(()) => {
                    &&& decoded(input@, nx as nat, nblock as nat, Width::Int) == Some(
                        pixels(final(output)@),
                    )
                    &&& bytes_read(input@, nx as nat, nblock as nat, Width::Int) < input@.len()
                        ==> self.reports(
                        "decompression warning: unused bytes at end of compressed buffer",
                    )
                },
                Err(e) => {
                    &&& e == DecodeError::EndOfBuffer
                    &&& decoded(input@, nx as nat, nblock as nat, Width::Int) is None
                    &&& self.reports("decompression error: hit end of compressed byte stream")
                },
            },
    {
        self.decode_samples(input, nx, nblock, output)
    }

    /// As `decode`, for 16-bit samples.
    pub fn decode_short(
        &self,
        input: &[u8],
        nx: usize,
        nblock: usize,
        output: &mut Vec<u16>,
    ) -> (r: Result<(), DecodeError>)
        ensures
            final(output)@.len() == nx,
            pixels(final(output)@) == samples(input@, nx as nat, nblock as nat, Width::Short),
            match r {
                Ok(()) => {
                    &&& decoded(input@, nx as nat, nblock as nat, Width::Short) == Some(
                        pixels(final(output)@),
                    )
                    &&& bytes_read(input@, nx as nat, nblock as nat, Width::Short) < input@.len()
                        ==> self.reports(
                        "decompression warning: unused bytes at end of compressed buffer",
                    )
                },
                Err(e) => {
                    &&& e == DecodeError::EndOfBuffer
                    &&& decoded(input@, nx as nat, nblock as nat, Width::Short) is None
                    &&& self.reports("decompression error: hit end of compressed byte stream")
                },
            },
    {
        self.decode_samples(input, nx, nblock, output)
    }

    /// As `decode`, for 8-bit samples.
    pub fn decode_byte(
        &self,
        input: &[u8],
        nx: usize,
        nblock: usize,
        output: &mut Vec<u8>,
    ) -> (r: Result<(), DecodeError>)
        ensures
            final(output)@.len() == nx,
            pixels(final(output)@) == samples(input@, nx as nat, nblock as nat, Width::Byte),
            match r {
                Ok(()) => {
                    &&& decoded(input@, nx as nat, nblock as nat, Width::Byte) == Some(
                        pixels(final(output)@),
                    )
                    &&& bytes_read(input@, nx as nat, nblock as nat, Width::Byte) < input@.len()
                        ==> self.reports(
                        "decompression warning: unused bytes at end of compressed buffer",
                    )
                },
                Err(e) => {
                    &&& e == DecodeError::EndOfBuffer
                    &&& decoded(input@, nx as nat, nblock as nat, Width::Byte) is None
                    &&& self.reports("decompression error: hit end of compressed byte stream")
                },
            },
    {
        self.decode_samples(input, nx, nblock, output)
    }
}

} // verus!
