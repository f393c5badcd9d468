//! The mathematical model of a bit stream: sequences of booleans, most
//! significant bit first, and the numbers and bytes that they spell.

use vstd::arithmetic::div_mod::*;
use vstd::arithmetic::mul::*;
use vstd::arithmetic::power2::*;
use vstd::prelude::*;

verus! {

/// The `n` low bits of `v`, most significant first.
pub open spec fn bits_of(v: nat, n: nat) -> Seq<bool>
    decreases n,
{
    if n == 0 {
        Seq::empty()
    } else {
        bits_of(v / 2, (n - 1) as nat).push(v % 2 == 1)
    }
}

/// The number that a bit sequence spells, most significant bit first.
pub open spec fn value_of(s: Seq<bool>) -> nat
    decreases s.len(),
{
    if s.len() == 0 {
        0
    } else {
        2 * value_of(s.drop_last()) + if s.last() {
            1nat
        } else {
            0nat
        }
    }
}

/// `n` zero bits.
pub open spec fn zeros(n: nat) -> Seq<bool> {
    Seq::new(n, |i: int| false)
}

/// The unary code of `n`: `n` zero bits closed by a one bit.
pub open spec fn unary(n: nat) -> Seq<bool> {
    zeros(n).push(true)
}

/// The bits of a byte sequence, each byte most significant bit first.
pub open spec fn bytes_bits(bytes: Seq<u8>) -> Seq<bool>
    decreases bytes.len(),
{
    if bytes.len() == 0 {
        Seq::empty()
    } else {
        bytes_bits(bytes.drop_last()) + bits_of(bytes.last() as nat, 8)
    }
}

/// A bit sequence filled up with zero bits to the next byte boundary.
pub open spec fn padded(bits: Seq<bool>) -> Seq<bool> {
    bits + zeros(((8 - bits.len() % 8) % 8) as nat)
}

/// The byte that the eight bits from bit `8 * i` on spell.
pub open spec fn byte_at(bits: Seq<bool>, i: int) -> u8 {
    value_of(bits.subrange(8 * i, 8 * i + 8)) as u8
}

/// The bytes that a bit sequence of whole bytes spells.
pub open spec fn bytes_of(bits: Seq<bool>) -> Seq<u8> {
    Seq::new(bits.len() / 8, |i: int| byte_at(bits, i))
}

/// The bytes of a bit sequence, the last one filled up with zero bits.
pub open spec fn pack(bits: Seq<bool>) -> Seq<u8> {
    bytes_of(padded(bits))
}

/// The `n` bits at `pos` read as a number, where the sequence holds them.
pub open spec fn take_bits(bits: Seq<bool>, pos: nat, n: nat) -> Option<nat> {
    if pos + n <= bits.len() {
        Some(value_of(bits.subrange(pos as int, (pos + n) as int)))
    } else {
        None
    }
}

/// The number of zero bits from `pos` up to the next one bit, where there
/// is a one bit at or after `pos`.
pub open spec fn zero_run(bits: Seq<bool>, pos: nat) -> Option<nat>
    decreases bits.len() - pos,
{
    if pos >= bits.len() {
        None
    } else if bits[pos as int] {
        Some(0)
    } else {
        match zero_run(bits, pos + 1) {
            Some(k) => Some(k + 1),
            None => None,
        }
    }
}

/// True where `a` is the beginning of `b`.
pub open spec fn starts(a: Seq<bool>, b: Seq<bool>) -> bool {
    a.len() <= b.len() && b.subrange(0, a.len() as int) == a
}

pub proof fn lemma_bits_of_len(v: nat, n: nat)
    ensures
        bits_of(v, n).len() == n,
    decreases n,
{
    if n > 0 {
        lemma_bits_of_len(v / 2, (n - 1) as nat);
    }
}

pub proof fn lemma_value_bound(s: Seq<bool>)
    ensures
        value_of(s) < pow2(s.len()),
    decreases s.len(),
{
    if s.len() == 0 {
        lemma2_to64();
    } else {
        lemma_value_bound(s.drop_last());
        lemma_pow2_unfold(s.len());
    }
}

/// Reading back the `n` low bits of `v` gives `v` modulo `2^n`.
pub proof fn lemma_value_of_bits(v: nat, n: nat)
    ensures
        value_of(bits_of(v, n)) == v % pow2(n),
    decreases n,
{
    if n == 0 {
        lemma2_to64();
    } else {
        let m = (n - 1) as nat;
        let s = bits_of(v, n);
        lemma_value_of_bits(v / 2, m);
        assert(s.drop_last() =~= bits_of(v / 2, m));
        lemma_pow2_pos(m);
        lemma_pow2_unfold(n);
        lemma_mod_breakdown(v as int, 2, pow2(m) as int);
    }
}

/// Writing out the number that `s` spells gives `s` again.
pub proof fn lemma_bits_of_value(s: Seq<bool>)
    ensures
        bits_of(value_of(s), s.len()) == s,
    decreases s.len(),
{
    if s.len() > 0 {
        let v = value_of(s);
        lemma_bits_of_value(s.drop_last());
        assert(v / 2 == value_of(s.drop_last()));
        assert((v % 2 == 1) == s.last());
        assert(bits_of(v, s.len()) =~= s);
    }
}

/// Only the `n` low bits of `v` count.
pub proof fn lemma_bits_of_mod(v: nat, n: nat)
    ensures
        bits_of(v % pow2(n), n) == bits_of(v, n),
{
    lemma_value_of_bits(v, n);
    lemma_bits_of_len(v, n);
    lemma_bits_of_value(bits_of(v, n));
}

pub proof fn lemma_value_concat(a: Seq<bool>, b: Seq<bool>)
    ensures
        value_of(a + b) == value_of(a) * pow2(b.len()) + value_of(b),
    decreases b.len(),
{
    if b.len() == 0 {
        lemma2_to64();
        assert(a + b =~= a);
    } else {
        let m = (b.len() - 1) as nat;
        lemma_value_concat(a, b.drop_last());
        assert((a + b).drop_last() =~= a + b.drop_last());
        lemma_pow2_unfold(b.len());
        assert(2 * (value_of(a) * pow2(m)) == value_of(a) * (2 * pow2(m))) by {
            lemma_mul_is_associative(2, value_of(a) as int, pow2(m) as int);
            lemma_mul_is_associative(value_of(a) as int, 2, pow2(m) as int);
        }
    }
}

/// The two halves of a bit sequence are the quotient and the remainder of
/// its number by the weight of the cut.
pub proof fn lemma_value_split(s: Seq<bool>, k: nat)
    requires
        k <= s.len(),
    ensures
        value_of(s.subrange(0, s.len() - k)) == value_of(s) / pow2(k),
        value_of(s.subrange(s.len() - k, s.len() as int)) == value_of(s) % pow2(k),
{
    let a = s.subrange(0, s.len() - k);
    let b = s.subrange(s.len() - k, s.len() as int);
    assert(s =~= a + b);
    lemma_value_concat(a, b);
    lemma_value_bound(b);
    lemma_pow2_pos(k);
    lemma_fundamental_div_mod_converse(
        value_of(s) as int,
        pow2(k) as int,
        value_of(a) as int,
        value_of(b) as int,
    );
}

/// The `a + b` low bits of `v` are the `a` bits above the `b` lowest,
/// followed by the `b` lowest.
pub proof fn lemma_bits_of_split(v: nat, a: nat, b: nat)
    ensures
        bits_of(v, a + b) == bits_of(v / pow2(b), a) + bits_of(v, b),
    decreases b,
{
    if b == 0 {
        lemma2_to64();
        assert(bits_of(v, a) + bits_of(v, 0) =~= bits_of(v, a));
    } else {
        let m = (b - 1) as nat;
        lemma_bits_of_split(v / 2, a, m);
        lemma_pow2_pos(m);
        lemma_pow2_unfold(b);
        lemma_div_denominator(v as int, 2, pow2(m) as int);
        assert(bits_of(v, a + b) =~= bits_of(v / pow2(b), a) + bits_of(v, b));
    }
}

/// Shifting `lo` in below `hi` appends its bits.
pub proof fn lemma_bits_of_concat(hi: nat, a: nat, lo: nat, b: nat)
    requires
        lo < pow2(b),
    ensures
        bits_of(hi * pow2(b) + lo, a + b) == bits_of(hi, a) + bits_of(lo, b),
{
    let v = hi * pow2(b) + lo;
    lemma_bits_of_split(v, a, b);
    lemma_pow2_pos(b);
    lemma_fundamental_div_mod_converse(v as int, pow2(b) as int, hi as int, lo as int);
    lemma_bits_of_mod(v, b);
}

pub proof fn lemma_bits_of_zero(n: nat)
    ensures
        bits_of(0, n) == zeros(n),
    decreases n,
{
    if n > 0 {
        lemma_bits_of_zero((n - 1) as nat);
    }
    assert(bits_of(0, n) =~= zeros(n));
}

/// A sequence that spells zero holds zero bits only.
pub proof fn lemma_value_zero(s: Seq<bool>)
    requires
        value_of(s) == 0,
    ensures
        forall|i: int| 0 <= i < s.len() ==> !s[i],
    decreases s.len(),
{
    if s.len() > 0 {
        lemma_value_zero(s.drop_last());
        assert forall|i: int| 0 <= i < s.len() implies !s[i] by {
            if i < s.len() - 1 {
                assert(s[i] == s.drop_last()[i]);
            }
        }
    }
}

/// A sequence that spells a number below `2^k` begins with zero bits, down
/// to its last `k` bits.
pub proof fn lemma_small_value_leads_zero(s: Seq<bool>, k: nat)
    requires
        k <= s.len(),
        value_of(s) < pow2(k),
    ensures
        forall|i: int| 0 <= i < s.len() - k ==> !s[i],
        value_of(s.subrange(s.len() - k, s.len() as int)) == value_of(s),
{
    let a = s.subrange(0, s.len() - k);
    lemma_value_split(s, k);
    lemma_pow2_pos(k);
    lemma_small_mod(value_of(s), pow2(k));
    lemma_basic_div(value_of(s) as int, pow2(k) as int);
    lemma_value_zero(a);
    assert forall|i: int| 0 <= i < s.len() - k implies !s[i] by {
        assert(s[i] == a[i]);
    }
}

/// A sequence of `k` bits that spells at least `2^(k-1)` begins with a one
/// bit, and the rest spells the remainder.
pub proof fn lemma_large_value_leads_one(s: Seq<bool>)
    requires
        s.len() >= 1,
        value_of(s) >= pow2((s.len() - 1) as nat),
    ensures
        s[0],
        value_of(s.subrange(1, s.len() as int)) == value_of(s) - pow2((s.len() - 1) as nat),
{
    let k = (s.len() - 1) as nat;
    let a = s.subrange(0, 1);
    let b = s.subrange(1, s.len() as int);
    assert(s =~= a + b);
    lemma_value_concat(a, b);
    lemma_value_bound(b);
    assert(value_of(a.drop_last()) == 0);
    assert(a.last() == s[0]);
    assert(value_of(a) == if s[0] { 1nat } else { 0nat });
    assert(value_of(a) * pow2(k) == if s[0] { pow2(k) } else { 0nat }) by {
        lemma_mul_basics(pow2(k) as int);
    }
}

pub proof fn lemma_bytes_bits_len(bytes: Seq<u8>)
    ensures
        bytes_bits(bytes).len() == 8 * bytes.len(),
    decreases bytes.len(),
{
    if bytes.len() > 0 {
        lemma_bytes_bits_len(bytes.drop_last());
        lemma_bits_of_len(bytes.last() as nat, 8);
    }
}

pub proof fn lemma_bytes_bits_push(bytes: Seq<u8>, b: u8)
    ensures
        bytes_bits(bytes.push(b)) == bytes_bits(bytes) + bits_of(b as nat, 8),
{
    assert(bytes.push(b).drop_last() =~= bytes);
}

/// The eight bits of the byte at index `i`.
pub proof fn lemma_bytes_bits_at(bytes: Seq<u8>, i: int)
    requires
        0 <= i < bytes.len(),
    ensures
        bytes_bits(bytes).len() == 8 * bytes.len(),
        bytes_bits(bytes).subrange(8 * i, 8 * i + 8) == bits_of(bytes[i] as nat, 8),
    decreases bytes.len(),
{
    lemma_bytes_bits_len(bytes);
    lemma_bytes_bits_len(bytes.drop_last());
    lemma_bits_of_len(bytes.last() as nat, 8);
    if i == bytes.len() - 1 {
        assert(bytes_bits(bytes).subrange(8 * i, 8 * i + 8) =~= bits_of(bytes[i] as nat, 8));
    } else {
        lemma_bytes_bits_at(bytes.drop_last(), i);
        assert(bytes_bits(bytes).subrange(8 * i, 8 * i + 8) =~= bytes_bits(
            bytes.drop_last(),
        ).subrange(8 * i, 8 * i + 8));
    }
}

/// The eight bits of a byte spell that byte.
pub proof fn lemma_byte_value(b: u8)
    ensures
        value_of(bits_of(b as nat, 8)) == b,
{
    lemma_value_of_bits(b as nat, 8);
    lemma2_to64();
}

/// The bits of whole bytes spell those bytes.
pub proof fn lemma_bytes_of_bytes_bits(bytes: Seq<u8>)
    ensures
        bytes_of(bytes_bits(bytes)) == bytes,
{
    lemma_bytes_bits_len(bytes);
    assert forall|i: int| 0 <= i < bytes.len() implies #[trigger] byte_at(bytes_bits(bytes), i)
        == bytes[i] by {
        lemma_bytes_bits_at(bytes, i);
        lemma_byte_value(bytes[i]);
    }
    assert(bytes_of(bytes_bits(bytes)) =~= bytes);
}

/// The bytes that whole-byte bits spell hold those bits.
pub proof fn lemma_bytes_bits_of_bytes(bits: Seq<bool>)
    requires
        bits.len() % 8 == 0,
    ensures
        bytes_bits(bytes_of(bits)) == bits,
    decreases bits.len(),
{
    if bits.len() == 0 {
        assert(bytes_bits(bytes_of(bits)) =~= bits);
    } else {
        let n = bits.len() as int;
        let head = bits.subrange(0, n - 8);
        let tail = bits.subrange(n - 8, n);
        lemma_bytes_bits_of_bytes(head);
        assert(bytes_of(bits).drop_last() =~= bytes_of(head)) by {
            assert forall|i: int| 0 <= i < (n - 8) / 8 implies #[trigger] byte_at(bits, i)
                == byte_at(head, i) by {
                assert(bits.subrange(8 * i, 8 * i + 8) =~= head.subrange(8 * i, 8 * i + 8));
            }
        }
        let last = bytes_of(bits).last();
        assert(bits.subrange(8 * (n / 8 - 1), 8 * (n / 8 - 1) + 8) =~= tail);
        lemma_value_bound(tail);
        lemma2_to64();
        assert(last as nat == value_of(tail));
        lemma_bits_of_value(tail);
        assert(bytes_bits(bytes_of(bits)) =~= bits);
    }
}

/// What was packed begins the bits of the packed bytes.
pub proof fn lemma_pack_holds(bits: Seq<bool>)
    ensures
        bytes_bits(pack(bits)) == padded(bits),
        starts(bits, bytes_bits(pack(bits))),
{
    let p = padded(bits);
    assert(p.len() % 8 == 0);
    lemma_bytes_bits_of_bytes(p);
    assert(p.subrange(0, bits.len() as int) =~= bits);
}

/// Packing whole bytes followed by fewer than eight pending bits: the
/// pending bits become one more byte, filled up with zero bits.
pub proof fn lemma_pack_pending(bytes: Seq<u8>, pending: Seq<bool>)
    requires
        pending.len() < 8,
    ensures
        pending.len() == 0 ==> pack(bytes_bits(bytes) + pending) == bytes,
        pending.len() > 0 ==> value_of(pending) * pow2((8 - pending.len()) as nat) < 256
            && pack(bytes_bits(bytes) + pending) == bytes.push(
            (value_of(pending) * pow2((8 - pending.len()) as nat)) as u8,
        ),
{
    let bits = bytes_bits(bytes) + pending;
    lemma_bytes_bits_len(bytes);
    if pending.len() == 0 {
        assert(padded(bits) =~= bytes_bits(bytes));
        lemma_bytes_of_bytes_bits(bytes);
    } else {
        let k = pending.len();
        let fill = (8 - k) as nat;
        let v = value_of(pending);
        let w = v * pow2(fill);
        lemma_value_bound(pending);
        lemma_pow2_adds(k, fill);
        lemma_pow2_pos(fill);
        lemma2_to64();
        assert(w < 256) by {
            lemma_mul_strict_inequality(v as int, pow2(k) as int, pow2(fill) as int);
        }
        lemma_bits_of_concat(v, k, 0, fill);
        lemma_bits_of_value(pending);
        lemma_bits_of_zero(fill);
        assert(bits_of(w, 8) == pending + zeros(fill));
        lemma_bytes_bits_push(bytes, w as u8);
        assert(padded(bits) =~= bytes_bits(bytes.push(w as u8)));
        lemma_bytes_of_bytes_bits(bytes.push(w as u8));
    }
}

/// A run of zero bits before `pos + j` adds to the run found from there.
pub proof fn lemma_zero_run_skip(bits: Seq<bool>, pos: nat, j: nat)
    requires
        pos + j <= bits.len(),
        forall|i: int| pos <= i < pos + j ==> !bits[i],
    ensures
        zero_run(bits, pos) == match zero_run(bits, pos + j) {
            Some(k) => Some(k + j),
            None => None,
        },
    decreases j,
{
    if j > 0 {
        lemma_zero_run_skip(bits, pos + 1, (j - 1) as nat);
    }
}

/// Where a unary code stands at `pos`, the zero run from there is its number.
pub proof fn lemma_zero_run_unary(bits: Seq<bool>, pos: nat, n: nat)
    requires
        pos + n + 1 <= bits.len(),
        bits.subrange(pos as int, (pos + n + 1) as int) == unary(n),
    ensures
        zero_run(bits, pos) == Some(n),
{
    assert forall|i: int| pos <= i < pos + n implies !bits[i] by {
        assert(bits[i] == bits.subrange(pos as int, (pos + n + 1) as int)[i - pos]);
    }
    assert(bits[(pos + n) as int] == bits.subrange(pos as int, (pos + n + 1) as int)[n as int]);
    lemma_zero_run_skip(bits, pos, n);
}

pub proof fn lemma_starts_trans(a: Seq<bool>, b: Seq<bool>, c: Seq<bool>)
    requires
        starts(a, b),
        starts(b, c),
    ensures
        starts(a, c),
{
    assert(c.subrange(0, a.len() as int) =~= b.subrange(0, a.len() as int));
}

/// Bits that stand in a beginning of `full` stand at the same place in `full`.
pub proof fn lemma_starts_window(part: Seq<bool>, full: Seq<bool>, from: int, to: int)
    requires
        starts(part, full),
        0 <= from <= to <= part.len(),
    ensures
        full.subrange(from, to) == part.subrange(from, to),
{
    assert(full.subrange(from, to) =~= full.subrange(0, part.len() as int).subrange(from, to));
}

} // verus!
