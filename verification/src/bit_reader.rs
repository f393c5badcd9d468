//! The bit stream reader: a window of a few bits over a byte slice, filled
//! one byte at a time, from which bit fields and runs of zero bits are
//! taken.

use crate::bits::{
    bytes_bits, lemma_byte_value, lemma_bytes_bits_at, lemma_bytes_bits_len,
    lemma_large_value_leads_one, lemma_small_value_leads_zero, lemma_value_bound,
    lemma_value_concat, lemma_value_split, lemma_value_zero, lemma_zero_run_skip, take_bits,
    value_of, zero_run,
};
use crate::word::{
    bit_length, lemma_bit_length_bounds, lemma_bit_length_le, lemma_join_bound, lemma_pow2_le,
    low_bits, shift_down, shift_up, significant_bits,
};
use vstd::arithmetic::power2::*;
use vstd::prelude::*;

verus! {

/// The state of a bit stream that is being read: the bits of the input up
/// to the window are consumed, those in the window come next, and the bytes
/// from `next` on are not yet fetched.
pub struct BitReader {
    /// The bits fetched and not yet consumed, as a number.
    window: u64,
    /// The number of bits in the window.
    nbits: u32,
    /// The index of the next byte to fetch.
    next: usize,
}

/// In a sequence that spells a number of `k` bits, `k` above zero, the first
/// one bit stands `k` places before the end, and the bits after it spell
/// the number less `2^(k-1)`.
pub proof fn lemma_first_one(s: Seq<bool>)
    requires
        value_of(s) > 0,
    ensures
        1 <= bit_length(value_of(s)) <= s.len(),
        forall|i: int| 0 <= i < s.len() - bit_length(value_of(s)) ==> !s[i],
        s[s.len() - bit_length(value_of(s))],
        value_of(s.subrange(s.len() - bit_length(value_of(s)) + 1, s.len() as int)) == value_of(s)
            - pow2((bit_length(value_of(s)) - 1) as nat),
{
    let v = value_of(s);
    let k = bit_length(v);
    lemma_value_bound(s);
    lemma_bit_length_bounds(v);
    lemma_bit_length_le(v, s.len());
    lemma_small_value_leads_zero(s, k);
    let tail = s.subrange(s.len() - k, s.len() as int);
    lemma_large_value_leads_one(tail);
    assert(tail[0] == s[s.len() - k]);
    assert(tail.subrange(1, tail.len() as int) =~= s.subrange(s.len() - k + 1, s.len() as int));
}

impl BitReader {
    /// The number of bits consumed so far.
    pub closed spec fn position(&self) -> nat {
        (8 * self.next - self.nbits) as nat
    }

    /// The number of bytes fetched so far.
    pub closed spec fn fetched(&self) -> nat {
        self.next as nat
    }

    /// The window holds the bits of `input` from the position up to the
    /// end of the bytes fetched, which are fewer than eight.
    pub closed spec fn inv(&self, input: Seq<u8>) -> bool {
        &&& self.nbits < 8
        &&& self.nbits <= 8 * self.next
        &&& self.next <= input.len()
        &&& self.window == value_of(
            bytes_bits(input).subrange(8 * self.next - self.nbits, 8 * self.next),
        )
    }

    /// A reader at the beginning of its input.
    pub fn new() -> (r: BitReader)
        ensures
            r.position() == 0,
            r.fetched() == 0,
            forall|input: Seq<u8>| r.inv(input),
    {
        let r = BitReader { window: 0, nbits: 0, next: 0 };
        assert forall|input: Seq<u8>| r.inv(input) by {
            assert(bytes_bits(input).subrange(0, 0) =~= Seq::<bool>::empty());
        }
        r
    }

    /// A reader has fetched the bytes up to the last bit that it consumed,
    /// and no others.
    pub proof fn lemma_fetched(&self, input: Seq<u8>)
        requires
            self.inv(input),
        ensures
            self.fetched() == (self.position() + 7) / 8,
            self.fetched() <= input.len(),
    {
    }

    /// The number of bytes fetched so far.
    pub fn bytes_fetched(&self) -> (n: usize)
        ensures
            n == self.fetched(),
    {
        self.next
    }

    /// Brings the next byte of the input into the window.
    fn fetch(&mut self, input: &[u8])
        requires
            old(self).inv_wide(input@),
            old(self).next < input@.len(),
            old(self).nbits < 32,
        ensures
            final(self).inv_wide(input@),
            final(self).next == old(self).next + 1,
            final(self).nbits == old(self).nbits + 8,
            final(self).position() == old(self).position(),
    {
        let ghost bits = bytes_bits(input@);
        let ghost from = 8 * self.next - self.nbits;
        let byte = input[self.next];
        proof {
            let have = bits.subrange(from, 8 * self.next);
            let more = bits.subrange(8 * self.next, 8 * self.next + 8);
            lemma2_to64();
            lemma2_to64_rest();
            lemma_bytes_bits_at(input@, self.next as int);
            lemma_byte_value(byte);
            lemma_value_concat(have, more);
            lemma_value_bound(have);
            assert(have + more =~= bits.subrange(from, 8 * self.next + 8));
            lemma_join_bound(self.window as nat, self.nbits as nat, byte as nat, 8);
            lemma_pow2_le((self.nbits + 8) as nat, 40);
        }
        self.window = self.window * 256 + byte as u64;
        self.nbits = self.nbits + 8;
        self.next = self.next + 1;
    }

    /// As `inv`, with a window of any width.
    closed spec fn inv_wide(&self, input: Seq<u8>) -> bool {
        &&& self.nbits <= 8 * self.next
        &&& self.next <= input.len()
        &&& self.window == value_of(
            bytes_bits(input).subrange(8 * self.next - self.nbits, 8 * self.next),
        )
    }

    /// Takes the next `n_bits` bits of the input as a number, most
    /// significant bit first; `None` where the input holds fewer.
    pub fn take(&mut self, input: &[u8], n_bits: u32) -> (r: Option<u32>)
        requires
            old(self).inv(input@),
            n_bits <= 32,
        ensures
            match r {
                Some(v) => {
                    &&& take_bits(bytes_bits(input@), old(self).position(), n_bits as nat)
                        == Some(v as nat)
                    &&& v < pow2(n_bits as nat)
                    &&& final(self).inv(input@)
                    &&& final(self).position() == old(self).position() + n_bits
                },
                None => take_bits(bytes_bits(input@), old(self).position(), n_bits as nat)
                    is None,
            },
    {
        let ghost bits = bytes_bits(input@);
        let ghost from = self.position();
        proof {
            lemma_bytes_bits_len(input@);
        }
        while self.nbits < n_bits
            invariant
                n_bits <= 32,
                self.nbits < n_bits + 8,
                self.inv_wide(input@),
                self.position() == from,
                from == old(self).position(),
                bits == bytes_bits(input@),
                bits.len() == 8 * input@.len(),
            decreases input@.len() - self.next,
        {
            if self.next >= input.len() {
                return None;
            }
            self.fetch(input);
        }
        let rest: u32 = self.nbits - n_bits;
        let v = shift_down(self.window, rest);
        let below = low_bits(self.window, rest);
        proof {
            let have = bits.subrange(from as int, 8 * self.next);
            lemma_value_split(have, rest as nat);
            assert(have.subrange(0, have.len() - rest) =~= bits.subrange(
                from as int,
                from + n_bits,
            ));
            assert(have.subrange(have.len() - rest, have.len() as int) =~= bits.subrange(
                from + n_bits,
                8 * self.next,
            ));
            lemma_value_bound(bits.subrange(from as int, from + n_bits));
            lemma_pow2_le(n_bits as nat, 32);
            lemma2_to64();
        }
        self.window = below;
        self.nbits = rest;
        Some(v as u32)
    }

    /// Counts the zero bits up to the next one bit and consumes them and
    /// that one bit. The count comes modulo `2^32`; `None` where the input
    /// holds no further one bit.
    pub fn count_leading_zero_run(&mut self, input: &[u8]) -> (r: Option<u32>)
        requires
            old(self).inv(input@),
        ensures
            match zero_run(bytes_bits(input@), old(self).position()) {
                Some(k) => {
                    &&& r == Some((k % 0x1_0000_0000) as u32)
                    &&& final(self).inv(input@)
                    &&& final(self).position() == old(self).position() + k + 1
                },
                None => r is None,
            },
    {
        let ghost bits = bytes_bits(input@);
        let ghost from = self.position();
        let mut run: u64 = 0;
        proof {
            lemma_bytes_bits_len(input@);
        }
        while self.window == 0
            invariant
                self.inv_wide(input@),
                self.nbits <= 8,
                from == old(self).position(),
                from <= self.position(),
                run == (self.position() - from) % 0x1_0000_0000,
                forall|i: int| from <= i < self.position() ==> !bits[i],
                bits == bytes_bits(input@),
                bits.len() == 8 * input@.len(),
            decreases input@.len() - self.next,
        {
            proof {
                lemma_value_zero(bits.subrange(8 * self.next - self.nbits, 8 * self.next));
                assert forall|i: int| from <= i < 8 * self.next implies !bits[i] by {
                    if i >= self.position() {
                        assert(bits[i] == bits.subrange(
                            8 * self.next - self.nbits,
                            8 * self.next,
                        )[i - (8 * self.next - self.nbits)]);
                    }
                }
            }
            run = (run + self.nbits as u64) % 0x1_0000_0000;
            if self.next >= input.len() {
                proof {
                    lemma_zero_run_skip(bits, from, (bits.len() - from) as nat);
                }
                return None;
            }
            proof {
                lemma_bytes_bits_at(input@, self.next as int);
                lemma_byte_value(input@[self.next as int]);
            }
            self.window = input[self.next] as u64;
            self.nbits = 8;
            self.next = self.next + 1;
        }
        let ghost have = bits.subrange(8 * self.next - self.nbits, 8 * self.next);
        proof {
            lemma_value_bound(have);
            lemma_pow2_le(self.nbits as nat, 8);
            lemma2_to64();
        }
        let sig = significant_bits(self.window as u8);
        proof {
            lemma_first_one(have);
        }
        let lead: u32 = self.nbits - sig;
        let one = shift_up(1, sig - 1);
        proof {
            let at = self.position() + lead;
            assert(have.subrange(lead + 1, have.len() as int) =~= bits.subrange(
                at + 1,
                8 * self.next,
            ));
            assert(bits[at as int] == have[lead as int]);
            assert forall|i: int| from <= i < at implies !bits[i] by {
                if i >= self.position() {
                    assert(bits[i] == have[i - self.position()]);
                }
            }
            lemma_zero_run_skip(bits, from, (at - from) as nat);
            assert(zero_run(bits, at as nat) == Some(0nat));
        }
        run = (run + lead as u64) % 0x1_0000_0000;
        self.window = self.window - one;
        self.nbits = sig - 1;
        Some(run as u32)
    }
}

} // verus!
