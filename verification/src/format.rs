//! The three sample widths, their coding constants, and the mapping between
//! samples, differences and the non-negative numbers that are coded.

use vstd::arithmetic::div_mod::{lemma_add_mod_noop_right, lemma_mod_equivalence};
use vstd::prelude::*;

verus! {

/// The width of a sample. Each width has its own coding constants.
#[derive(Clone, Copy, Debug, PartialEq, Eq)]
pub enum Width {
    /// 8-bit samples.
    Byte,
    /// 16-bit samples.
    Short,
    /// 32-bit samples.
    Int,
}

impl Width {
    /// The number of bits of a sample, which is also the number of bits of
    /// a value that is coded directly.
    pub open spec fn bits(self) -> nat {
        match self {
            Width::Byte => 8,
            Width::Short => 16,
            Width::Int => 32,
        }
    }

    /// The number of bits of the code that begins a block.
    pub open spec fn fsbits(self) -> nat {
        match self {
            Width::Byte => 3,
            Width::Short => 4,
            Width::Int => 5,
        }
    }

    /// The split from which on a block is coded directly.
    pub open spec fn fsmax(self) -> nat {
        match self {
            Width::Byte => 6,
            Width::Short => 14,
            Width::Int => 25,
        }
    }

    /// The number of values of a sample: two to the power of its bits.
    pub open spec fn modulus(self) -> int {
        match self {
            Width::Byte => 0x100,
            Width::Short => 0x1_0000,
            Width::Int => 0x1_0000_0000,
        }
    }

    /// The number of bits of a sample.
    pub fn sample_bits(self) -> (r: u32)
        ensures
            r == self.bits(),
    {
        match self {
            Width::Byte => 8,
            Width::Short => 16,
            Width::Int => 32,
        }
    }

    /// The number of bits of the code that begins a block.
    pub fn code_bits(self) -> (r: u32)
        ensures
            r == self.fsbits(),
    {
        match self {
            Width::Byte => 3,
            Width::Short => 4,
            Width::Int => 5,
        }
    }

    /// The split from which on a block is coded directly.
    pub fn max_split(self) -> (r: u32)
        ensures
            r == self.fsmax(),
    {
        match self {
            Width::Byte => 6,
            Width::Short => 14,
            Width::Int => 25,
        }
    }

    /// The number of values of a sample.
    pub fn sample_range(self) -> (r: i64)
        ensures
            r == self.modulus(),
    {
        match self {
            Width::Byte => 0x100,
            Width::Short => 0x1_0000,
            Width::Int => 0x1_0000_0000,
        }
    }

    /// True where `v` is a signed sample of this width.
    pub open spec fn holds(self, v: int) -> bool {
        -(self.modulus() / 2) <= v < self.modulus() / 2
    }
}

/// The difference `d` brought into the signed range of the width, as
/// two's-complement subtraction leaves it.
pub open spec fn wrap(d: int, w: Width) -> int {
    let r = d % w.modulus();
    if r >= w.modulus() / 2 {
        r - w.modulus()
    } else {
        r
    }
}

/// The non-negative number that stands for a signed difference: 0, -1, 1,
/// -2, 2, ... become 0, 1, 2, 3, 4, ...
pub open spec fn zigzag(d: int) -> nat {
    if d >= 0 {
        (2 * d) as nat
    } else {
        (-2 * d - 1) as nat
    }
}

/// The signed difference that a mapped number stands for.
pub open spec fn unzigzag(m: nat) -> int {
    if m % 2 == 0 {
        m as int / 2
    } else {
        -(m as int / 2) - 1
    }
}

/// The sample that follows `last` where the mapped difference is `m`, as
/// an unsigned number of the width.
pub open spec fn next_sample(last: nat, m: nat, w: Width) -> nat {
    ((last + unzigzag(m)) % w.modulus()) as nat
}

/// A signed sample as the unsigned number with the same bits.
pub open spec fn raw(v: int, w: Width) -> nat {
    (v % w.modulus()) as nat
}

/// A signed sample type that can be coded.
pub trait Sample: Copy {
    /// The width of the type.
    spec fn width() -> Width;

    /// The sample as a number.
    spec fn value(self) -> int;

    /// The width of the type.
    fn sample_width() -> (w: Width)
        ensures
            w == Self::width(),
    ;

    /// The sample as a number.
    fn widen(self) -> (r: i64)
        ensures
            r == self.value(),
    ;

    /// The number of a sample lies in the signed range of the width.
    proof fn lemma_value_holds(self)
        ensures
            Self::width().holds(self.value()),
    ;
}

impl Sample for i8 {
    open spec fn width() -> Width {
        Width::Byte
    }

    open spec fn value(self) -> int {
        self as int
    }

    fn sample_width() -> (w: Width) {
        Width::Byte
    }

    fn widen(self) -> (r: i64) {
        self as i64
    }

    proof fn lemma_value_holds(self) {
    }
}

impl Sample for i16 {
    open spec fn width() -> Width {
        Width::Short
    }

    open spec fn value(self) -> int {
        self as int
    }

    fn sample_width() -> (w: Width) {
        Width::Short
    }

    fn widen(self) -> (r: i64) {
        self as i64
    }

    proof fn lemma_value_holds(self) {
    }
}

impl Sample for i32 {
    open spec fn width() -> Width {
        Width::Int
    }

    open spec fn value(self) -> int {
        self as int
    }

    fn sample_width() -> (w: Width) {
        Width::Int
    }

    fn widen(self) -> (r: i64) {
        self as i64
    }

    proof fn lemma_value_holds(self) {
    }
}

/// An unsigned sample type that decoding fills.
pub trait Pixel: Copy {
    /// The width of the type.
    spec fn width() -> Width;

    /// The sample as a number.
    spec fn value(self) -> nat;

    /// The width of the type.
    fn pixel_width() -> (w: Width)
        ensures
            w == Self::width(),
    ;

    /// The sample that holds `v`, a number below the modulus of the width.
    fn from_raw(v: u32) -> (r: Self)
        requires
            v < Self::width().modulus(),
        ensures
            r.value() == v,
    ;
}

impl Pixel for u8 {
    open spec fn width() -> Width {
        Width::Byte
    }

    open spec fn value(self) -> nat {
        self as nat
    }

    fn pixel_width() -> (w: Width) {
        Width::Byte
    }

    fn from_raw(v: u32) -> (r: Self) {
        v as u8
    }
}

impl Pixel for u16 {
    open spec fn width() -> Width {
        Width::Short
    }

    open spec fn value(self) -> nat {
        self as nat
    }

    fn pixel_width() -> (w: Width) {
        Width::Short
    }

    fn from_raw(v: u32) -> (r: Self) {
        v as u16
    }
}

impl Pixel for u32 {
    open spec fn width() -> Width {
        Width::Int
    }

    open spec fn value(self) -> nat {
        self as nat
    }

    fn pixel_width() -> (w: Width) {
        Width::Int
    }

    fn from_raw(v: u32) -> (r: Self) {
        v
    }
}

/// The numbers of a sequence of signed samples.
pub open spec fn values<T: Sample>(s: Seq<T>) -> Seq<int> {
    s.map_values(|x: T| x.value())
}

/// The numbers of a sequence of unsigned samples.
pub open spec fn pixels<T: Pixel>(s: Seq<T>) -> Seq<nat> {
    s.map_values(|x: T| x.value())
}

/// The mapped difference between a sample and the one before it.
pub fn map_difference(sample: i64, last: i64, w: Width) -> (m: u32)
    requires
        w.holds(sample as int),
        w.holds(last as int),
    ensures
        m == zigzag(wrap(sample - last, w)),
        m < w.modulus(),
{
    let modulus = w.sample_range();
    let half = modulus / 2;
    let diff = sample - last;
    let pdiff = if diff >= half {
        diff - modulus
    } else if diff < -half {
        diff + modulus
    } else {
        diff
    };
    assert(pdiff == wrap(sample - last, w) && -half <= pdiff < half && 0 < half
        <= 0x8000_0000 && modulus == 2 * half) by {
        match w {
            Width::Byte => {
                assert(diff % 0x100 == pdiff % 0x100);
            },
            Width::Short => {
                assert(diff % 0x1_0000 == pdiff % 0x1_0000);
            },
            Width::Int => {
                assert(diff % 0x1_0000_0000 == pdiff % 0x1_0000_0000);
            },
        }
    }
    if pdiff >= 0 {
        (2 * pdiff) as u32
    } else {
        (-1 - 2 * pdiff) as u32
    }
}

/// The bits of a signed sample as an unsigned number.
pub fn raw_bits(sample: i64, w: Width) -> (r: u32)
    requires
        w.holds(sample as int),
    ensures
        r == raw(sample as int, w),
        r < w.modulus(),
{
    if sample < 0 {
        (sample + w.sample_range()) as u32
    } else {
        sample as u32
    }
}

/// The sample that follows `last` where the mapped difference is `m`.
pub fn undo_difference(last: u32, m: u32, w: Width) -> (r: u32)
    requires
        last < w.modulus(),
    ensures
        r == next_sample(last as nat, m as nat, w),
        r < w.modulus(),
{
    let half = (m / 2) as u64;
    let sum = if m % 2 == 0 {
        last as u64 + half
    } else {
        last as u64 + 0x1_0000_0000 - half - 1
    };
    let range = w.sample_range() as u64;
    assert(sum % range == next_sample(last as nat, m as nat, w)) by {
        let exact = last + unzigzag(m as nat);
        match w {
            Width::Byte => {
                assert(sum % 0x100 == exact % 0x100);
            },
            Width::Short => {
                assert(sum % 0x1_0000 == exact % 0x1_0000);
            },
            Width::Int => {
                assert(sum % 0x1_0000_0000 == exact % 0x1_0000_0000);
            },
        }
    }
    (sum % range) as u32
}

/// A mapped difference is below the modulus and stands for the wrapped
/// difference.
pub proof fn lemma_zigzag_wrap(d: int, w: Width)
    ensures
        zigzag(wrap(d, w)) < w.modulus(),
        unzigzag(zigzag(wrap(d, w))) == wrap(d, w),
        (wrap(d, w) - d) % w.modulus() == 0,
{
    match w {
        Width::Byte => {
            assert((wrap(d, w) - d) % 0x100 == 0);
        },
        Width::Short => {
            assert((wrap(d, w) - d) % 0x1_0000 == 0);
        },
        Width::Int => {
            assert((wrap(d, w) - d) % 0x1_0000_0000 == 0);
        },
    }
}

/// Adding to a remainder a number congruent to `d` gives the remainder of
/// the sum with `d`.
proof fn lemma_congruent_sum(last: int, p: int, d: int, m: int)
    requires
        0 < m,
        (p - d) % m == 0,
    ensures
        (last % m + p) % m == (last + d) % m,
{
    lemma_add_mod_noop_right(p, last, m);
    lemma_mod_equivalence(p + last, last + d, m);
}

/// Undoing the mapped difference of two samples gives the second sample.
pub proof fn lemma_difference_round_trip(sample: int, last: int, w: Width)
    ensures
        next_sample(raw(last, w), zigzag(wrap(sample - last, w)), w) == raw(sample, w),
{
    let p = wrap(sample - last, w);
    lemma_zigzag_wrap(sample - last, w);
    lemma_congruent_sum(last, p, sample - last, w.modulus());
}

} // verus!
