use ricecomp::estimate::{
    add_rounded, choose_code, choose_split, count_bits, round_signed, round_to_53, two_to,
    ROUND_LIMIT, SUM_LIMIT,
};
use ricecomp::format::{map_difference, raw_bits, undo_difference, Pixel, Sample, Width};
use ricecomp::word::{low_bits, shift_down, shift_up, significant_bits, SIGNIFICANT_BITS};

#[test]
fn each_width_has_its_constants() {
    assert_eq!(
        (Width::Int.sample_bits(), Width::Int.code_bits(), Width::Int.max_split()),
        (32, 5, 25)
    );
    assert_eq!(
        (Width::Short.sample_bits(), Width::Short.code_bits(), Width::Short.max_split()),
        (16, 4, 14)
    );
    assert_eq!(
        (Width::Byte.sample_bits(), Width::Byte.code_bits(), Width::Byte.max_split()),
        (8, 3, 6)
    );
    for w in [Width::Byte, Width::Short, Width::Int] {
        // A directly coded value has as many bits as a sample: two to the
        // power of the code's bits.
        assert_eq!(w.sample_bits(), 1 << w.code_bits());
        assert_eq!(w.sample_range(), 1i64 << w.sample_bits());
    }
}

#[test]
fn sample_types_know_their_width() {
    assert_eq!(<i8 as Sample>::sample_width(), Width::Byte);
    assert_eq!(<i16 as Sample>::sample_width(), Width::Short);
    assert_eq!(<i32 as Sample>::sample_width(), Width::Int);
    assert_eq!(<u8 as Pixel>::pixel_width(), Width::Byte);
    assert_eq!(<u16 as Pixel>::pixel_width(), Width::Short);
    assert_eq!(<u32 as Pixel>::pixel_width(), Width::Int);
    assert_eq!((-5i8).widen(), -5);
    assert_eq!(i32::MIN.widen(), -2147483648);
    assert_eq!(<u8 as Pixel>::from_raw(255), 255u8);
    assert_eq!(<u16 as Pixel>::from_raw(65535), 65535u16);
    assert_eq!(<u32 as Pixel>::from_raw(u32::MAX), u32::MAX);
}

#[test]
fn differences_are_mapped_in_zigzag() {
    let w = Width::Int;
    assert_eq!(map_difference(5, 5, w), 0);
    assert_eq!(map_difference(4, 5, w), 1);
    assert_eq!(map_difference(6, 5, w), 2);
    assert_eq!(map_difference(3, 5, w), 3);
    assert_eq!(map_difference(7, 5, w), 4);
    assert_eq!(map_difference(-100, 0, w), 199);
    assert_eq!(map_difference(100, 0, w), 200);
}

#[test]
fn differences_wrap_in_each_width() {
    // Across the ends of the range the difference is one step.
    assert_eq!(map_difference(i32::MIN as i64, i32::MAX as i64, Width::Int), 2);
    assert_eq!(map_difference(i32::MAX as i64, i32::MIN as i64, Width::Int), 1);
    assert_eq!(map_difference(-32768, 32767, Width::Short), 2);
    assert_eq!(map_difference(32767, -32768, Width::Short), 1);
    assert_eq!(map_difference(-128, 127, Width::Byte), 2);
    assert_eq!(map_difference(127, -128, Width::Byte), 1);
    // The largest mapped values of each width.
    assert_eq!(map_difference(i32::MIN as i64, 0, Width::Int), u32::MAX);
    assert_eq!(map_difference(i32::MAX as i64, 0, Width::Int), u32::MAX - 1);
    assert_eq!(map_difference(-1, i32::MIN as i64, Width::Int), u32::MAX - 1);
    assert_eq!(map_difference(-32768, 0, Width::Short), 65535);
    assert_eq!(map_difference(32767, 0, Width::Short), 65534);
    assert_eq!(map_difference(16384, 0, Width::Short), 32768);
    assert_eq!(map_difference(-128, 0, Width::Byte), 255);
    assert_eq!(map_difference(64, 0, Width::Byte), 128);
}

#[test]
fn mapped_differences_are_undone() {
    assert_eq!(undo_difference(5, 0, Width::Int), 5);
    assert_eq!(undo_difference(5, 1, Width::Int), 4);
    assert_eq!(undo_difference(5, 2, Width::Int), 6);
    assert_eq!(undo_difference(0, 1, Width::Int), u32::MAX);
    assert_eq!(undo_difference(u32::MAX, 2, Width::Int), 0);
    assert_eq!(undo_difference(0, u32::MAX, Width::Int), 0x8000_0000);
    assert_eq!(undo_difference(0, 1, Width::Short), 65535);
    assert_eq!(undo_difference(65535, 2, Width::Short), 0);
    assert_eq!(undo_difference(0, 65535, Width::Short), 32768);
    assert_eq!(undo_difference(7, u32::MAX, Width::Short), 7);
    assert_eq!(undo_difference(0, 1, Width::Byte), 255);
    assert_eq!(undo_difference(255, 2, Width::Byte), 0);
    assert_eq!(undo_difference(200, 255, Width::Byte), 72);
}

#[test]
fn undoing_a_mapped_difference_gives_the_sample() {
    let bytes: Vec<i64> = (-128..128).collect();
    for &last in bytes.iter() {
        for &next in bytes.iter() {
            let m = map_difference(next, last, Width::Byte);
            assert!(m < 256);
            let back = undo_difference(raw_bits(last, Width::Byte), m, Width::Byte);
            assert_eq!(back, raw_bits(next, Width::Byte));
        }
    }
    let edges: [i64; 9] = [-32768, -32767, -16385, -1, 0, 1, 16384, 32766, 32767];
    for &last in edges.iter() {
        for &next in edges.iter() {
            let m = map_difference(next, last, Width::Short);
            assert!(m < 65536);
            let back = undo_difference(raw_bits(last, Width::Short), m, Width::Short);
            assert_eq!(back, raw_bits(next, Width::Short));
        }
    }
}

#[test]
fn raw_bits_are_the_twos_complement() {
    assert_eq!(raw_bits(-1, Width::Int), 0xffff_ffff);
    assert_eq!(raw_bits(i32::MIN as i64, Width::Int), 0x8000_0000);
    assert_eq!(raw_bits(i32::MAX as i64, Width::Int), 0x7fff_ffff);
    assert_eq!(raw_bits(-300, Width::Short), 0xfed4);
    assert_eq!(raw_bits(-2, Width::Byte), 0xfe);
    assert_eq!(raw_bits(17, Width::Byte), 17);
}

#[test]
fn bits_are_counted_by_halving() {
    assert_eq!(count_bits(0), 0);
    assert_eq!(count_bits(1), 1);
    assert_eq!(count_bits(2), 2);
    assert_eq!(count_bits(3), 2);
    assert_eq!(count_bits(4), 3);
    assert_eq!(count_bits(255), 8);
    assert_eq!(count_bits(256), 9);
    assert_eq!(count_bits(u128::MAX), 128);
    for k in 0..128u32 {
        assert_eq!(count_bits(1u128 << k), k + 1);
        assert_eq!(count_bits((1u128 << k) - 1), k);
    }
}

#[test]
fn the_table_counts_the_bits_of_each_byte() {
    assert_eq!(SIGNIFICANT_BITS.len(), 256);
    assert_eq!(significant_bits(0), 0);
    assert_eq!(significant_bits(1), 1);
    assert_eq!(significant_bits(2), 2);
    assert_eq!(significant_bits(3), 2);
    assert_eq!(significant_bits(127), 7);
    assert_eq!(significant_bits(128), 8);
    assert_eq!(significant_bits(255), 8);
    for b in 0..=255u8 {
        assert_eq!(significant_bits(b), 8 - b.leading_zeros());
        assert_eq!(significant_bits(b), count_bits(b as u128));
    }
}

#[test]
fn powers_of_two_are_exact() {
    assert_eq!(two_to(0), 1);
    assert_eq!(two_to(1), 2);
    assert_eq!(two_to(53), 1 << 53);
    assert_eq!(two_to(86), SUM_LIMIT);
    assert_eq!(two_to(100), ROUND_LIMIT);
}

#[test]
fn numbers_of_up_to_53_bits_are_not_rounded() {
    for x in [0u128, 1, 2, 3, 1000, (1 << 52) + 1, (1 << 53) - 1, 1 << 53] {
        assert_eq!(round_to_53(x), x);
    }
}

#[test]
fn longer_numbers_are_rounded_to_the_nearest_of_53_bits() {
    let p: u128 = 1 << 53;
    // Between 2^53 and 2^54 every second number has 53 significant bits.
    assert_eq!(round_to_53(p + 2), p + 2);
    // Half way, the number whose last bit is zero is taken.
    assert_eq!(round_to_53(p + 1), p);
    assert_eq!(round_to_53(p + 3), p + 4);
    assert_eq!(round_to_53(p + 5), p + 4);
    assert_eq!(round_to_53(p + 7), p + 8);
    // Between 2^55 and 2^56 every eighth number.
    let q: u128 = 1 << 55;
    assert_eq!(round_to_53(q + 3), q);
    assert_eq!(round_to_53(q + 4), q);
    assert_eq!(round_to_53(q + 5), q + 8);
    assert_eq!(round_to_53(q + 12), q + 16);
    assert_eq!(round_to_53(q + 11), q + 8);
    // Rounding up may reach the next power of two.
    assert_eq!(round_to_53((1 << 54) - 1), 1 << 54);
    assert_eq!(round_to_53(ROUND_LIMIT), ROUND_LIMIT);
    assert_eq!(round_to_53(ROUND_LIMIT - 1), ROUND_LIMIT);
    assert_eq!(round_signed(-((p + 3) as i128)), -((p + 4) as i128));
    assert_eq!(round_signed(-5), -5);
    assert_eq!(round_signed(0), 0);
}

struct Lcg(u64);

impl Lcg {
    fn next(&mut self) -> u64 {
        self.0 = self.0.wrapping_mul(6364136223846793005).wrapping_add(1442695040888963407);
        self.0 >> 11
    }

    /// A number of a random number of bits, from `least` to `most`.
    fn spread(&mut self, least: u32, most: u32) -> u128 {
        let n = least + (self.next() % (most - least + 1) as u64) as u32;
        self.bits(n)
    }

    fn bits(&mut self, n: u32) -> u128 {
        let wide = ((self.next() as u128) << 53) | self.next() as u128;
        if n == 0 {
            0
        } else {
            wide & ((1u128 << n) - 1)
        }
    }
}

#[test]
fn rounding_is_that_of_double_precision() {
    let mut rng = Lcg(11);
    for _ in 0..200_000 {
        let x = rng.spread(1, 100);
        assert_eq!(round_to_53(x), (x as f64) as u128);
        assert_eq!(round_signed(-(x as i128)), (-(x as f64)) as i128);
    }
}

#[test]
fn sums_are_those_of_double_precision() {
    let mut rng = Lcg(12);
    for _ in 0..200_000 {
        let sum = round_to_53(rng.spread(1, 86));
        let m = rng.next() as u32;
        let expected = (sum as f64 + m as f64) as u128;
        assert_eq!(add_rounded(sum, m), expected);
    }
    // At the limit a sum is not moved any more.
    assert_eq!(add_rounded(SUM_LIMIT, u32::MAX), SUM_LIMIT);
    // Just below the limit the numbers of 53 bits lie 2^33 apart.
    assert_eq!(add_rounded(SUM_LIMIT - (1 << 33), u32::MAX), SUM_LIMIT - (1 << 33));
    assert_eq!(add_rounded(SUM_LIMIT - (1 << 33), 1 << 31), SUM_LIMIT - (1 << 33));
    assert_eq!(add_rounded(SUM_LIMIT - (1 << 32) - 1, 1), SUM_LIMIT);
    assert_eq!(add_rounded(0, 0), 0);
    assert_eq!(add_rounded(7, 8), 15);
}

fn bit_count(mut v: u32) -> u32 {
    let mut n = 0;
    while v > 0 {
        v >>= 1;
        n += 1;
    }
    n
}

/// The split in double-precision arithmetic.
fn float_split(pixelsum: f64, count: usize, w: Width) -> u32 {
    let mut dpsum = (pixelsum - (count as f64) / 2.0 - 1.0) / (count as f64);
    if dpsum < 0.0 {
        dpsum = 0.0;
    }
    let whole = match w {
        Width::Int => dpsum as u32,
        Width::Short => (dpsum as u16) as u32,
        Width::Byte => (dpsum as u8) as u32,
    };
    bit_count(whole >> 1)
}

#[test]
fn the_split_is_that_of_double_precision() {
    let mut rng = Lcg(13);
    let widths = [Width::Byte, Width::Short, Width::Int];
    for round in 0..300_000u32 {
        let w = widths[(round % 3) as usize];
        let count = (rng.spread(1, 64) as usize).max(1);
        let kind = rng.next() % 3;
        let exact: u128 = if kind == 0 {
            rng.spread(1, 86)
        } else {
            // A sum whose mean lies next to a whole number or a power of two.
            let k = if kind == 1 { rng.bits(32) } else { 1u128 << (rng.next() % 33) };
            let near = k * count as u128 + count as u128 / 2 + 1;
            (near + rng.next() as u128 % 7).saturating_sub(3)
        };
        let sum = round_to_53(exact.min(SUM_LIMIT));
        assert_eq!(choose_split(sum, count, w), float_split(sum as f64, count, w));
    }
}

#[test]
fn the_split_of_sums_that_round_is_that_of_double_precision() {
    let mut rng = Lcg(14);
    let mut rounded_up = 0;
    for _ in 0..300_000u32 {
        let count = (rng.spread(20, 63) as usize) | (1 << 19);
        // One less than a power of two: rounded up, the mean has one bit more.
        let k = (1u128 << (rng.next() % 32 + 1)) - 1;
        let n = round_to_53(count as u128);
        // Twice the sum less the count and two, just below a multiple of
        // twice the count: the quotient is rounded up to a whole number
        // where it is near enough.
        let slack = ((2 * n) >> (15 + rng.next() % 16)).max(1);
        let below = (k + 1) * 2 * n - (rng.next() as u128 % slack + 1);
        let sum = round_to_53(((below + 2 + n) / 2).min(SUM_LIMIT));
        let fs = choose_split(sum, count, Width::Int);
        assert_eq!(fs, float_split(sum as f64, count, Width::Int));
        let exact = (2 * sum).saturating_sub(count as u128 + 2) / (2 * count as u128);
        if fs != bit_count((exact.min(u32::MAX as u128) as u32) >> 1) {
            rounded_up += 1;
        }
    }
    // Some of these splits differ from those of exact arithmetic.
    assert!(rounded_up > 0);
}

#[test]
fn the_split_of_whole_blocks_is_that_of_double_precision() {
    let mut rng = Lcg(15);
    for len in [1usize, 2, 3, 16, 32, 1000] {
        for bits in [1u32, 4, 8, 16, 24, 32] {
            let values: Vec<u32> =
                (0..len).map(|_| (rng.next() as u32) >> (32 - bits)).collect();
            let mut sum: u128 = 0;
            let mut pixelsum = 0.0f64;
            for &v in values.iter() {
                sum = add_rounded(sum, v);
                pixelsum += v as f64;
            }
            assert_eq!(sum as f64, pixelsum);
            assert_eq!(choose_split(sum, len, Width::Int), float_split(pixelsum, len, Width::Int));
        }
    }
}

#[test]
fn the_split_is_the_bit_count_of_half_the_mean() {
    let w = Width::Int;
    // Sixteen ascending samples: differences 0 and fifteen times 1, mapped
    // to 0 and fifteen times 2. (30 - 8 - 1) / 16 is 1, half of it is 0.
    assert_eq!(choose_split(30, 16, w), 0);
    // (40 - 8 - 1) / 16 is 1 still; (41 - 8 - 1) / 16 is 2, half of it is 1.
    assert_eq!(choose_split(32, 16, w), 0);
    assert_eq!(choose_split(40, 16, w), 0);
    assert_eq!(choose_split(41, 16, w), 1);
    assert_eq!(choose_split(57, 16, w), 1);
    // Below one and a half per sample the mean is cut off at zero.
    assert_eq!(choose_split(0, 16, w), 0);
    assert_eq!(choose_split(0, 1, w), 0);
    assert_eq!(choose_split(1, 1, w), 0);
    assert_eq!(choose_split(3, 1, w), 0);
    // One sample: (sum - 1/2 - 1) / 1, then halved.
    assert_eq!(choose_split(4, 1, w), 1);
    assert_eq!(choose_split(5, 1, w), 1);
    assert_eq!(choose_split(6, 1, w), 2);
    assert_eq!(choose_split(9, 1, w), 2);
    assert_eq!(choose_split(10, 1, w), 3);
    assert_eq!(choose_split(u32::MAX as u128, 1, w), 31);
    assert_eq!(choose_split(40000, 32, Width::Short), 10);
    assert_eq!(choose_split(300, 8, Width::Byte), 5);
}

#[test]
fn the_mean_is_cut_off_at_the_highest_sample() {
    // A mean of 2^20 is cut off at 65535 and at 255: half of them has 15
    // and 7 bits.
    assert_eq!(choose_split(1 << 30, 1 << 10, Width::Int), 19);
    assert_eq!(choose_split(1 << 30, 1 << 10, Width::Short), 15);
    assert_eq!(choose_split(1 << 30, 1 << 10, Width::Byte), 7);
    assert_eq!(choose_split(SUM_LIMIT, 1, Width::Int), 31);
    assert_eq!(choose_split(SUM_LIMIT, u32::MAX as usize, Width::Int), 31);
}

#[test]
fn the_split_of_the_largest_sums() {
    let n: usize = 1 << 20;
    let w = Width::Int;
    assert_eq!(choose_split(n as u128 * 0xffff_ffff, n, w), 31);
    assert_eq!(choose_split(n as u128 * 0x1_0000, n, w), 15);
    assert_eq!(choose_split(n as u128 * 0x1_0000 + n as u128 / 2, n, w), 15);
    assert_eq!(choose_split(n as u128 * 0x1_0001 + n as u128, n, w), 16);
}

#[test]
fn the_code_names_the_regime() {
    // All differences zero: the empty block.
    assert_eq!(choose_code(0, 16, Width::Int), 0);
    assert_eq!(choose_code(0, 1, Width::Byte), 0);
    // A split of zero with a sum above zero is a Rice block.
    assert_eq!(choose_code(1, 16, Width::Int), 1);
    assert_eq!(choose_code(30, 16, Width::Int), 1);
    assert_eq!(choose_code(57, 16, Width::Short), 2);
    assert_eq!(choose_code(300, 8, Width::Byte), 6);
    // A split at or above the limit gives the direct code.
    assert_eq!(choose_code(600, 8, Width::Byte), 7);
    assert_eq!(choose_code(255, 1, Width::Byte), 7);
    assert_eq!(choose_code(65535, 1, Width::Short), 15);
    assert_eq!(choose_code(u32::MAX as u128, 1, Width::Int), 26);
    // The highest Rice split of each width.
    assert_eq!(choose_code(1 << 25, 1, Width::Int), 25);
    assert_eq!(choose_code((1 << 25) + 2, 1, Width::Int), 26);
    assert_eq!(choose_code(1 << 14, 1, Width::Short), 14);
    assert_eq!(choose_code((1 << 14) + 2, 1, Width::Short), 15);
    assert_eq!(choose_code(1 << 6, 1, Width::Byte), 6);
    assert_eq!(choose_code((1 << 6) + 2, 1, Width::Byte), 7);
}

#[test]
fn shifts_and_masks_are_powers_of_two() {
    assert_eq!(shift_up(5, 0), 5);
    assert_eq!(shift_up(5, 3), 40);
    assert_eq!(shift_up(1, 63), 1u64 << 63);
    assert_eq!(shift_down(40, 3), 5);
    assert_eq!(shift_down(47, 3), 5);
    assert_eq!(shift_down(u64::MAX, 63), 1);
    assert_eq!(low_bits(0xabcd, 8), 0xcd);
    assert_eq!(low_bits(0xabcd, 0), 0);
    assert_eq!(low_bits(u64::MAX, 63), u64::MAX >> 1);
}
