use ricecomp::read::{DecodeError, RCDecoder};
use ricecomp::write::{EncodeError, RCEncoder};

#[test]
fn encode_int_works() {
    let inarray: [i32; 32] = [
        1, 2, 3, 4, 5, 6, 7, 8, 9, 10, 11, 12, 13, 14, 15, 16, 17, 18, 19, 20, 21, 22, 23, 24,
        25, 26, 27, 28, 29, 30, 31, 32,
    ];

    let mut outarray = Vec::new();
    let mut encoder = RCEncoder::new();
    let _result = encoder.encode(&inarray, 32, 16, &mut outarray).unwrap();

    assert_eq!(outarray.len(), 17);
}

#[test]
fn decode_int_works() {
    let bs = 16;
    let inarray: [i32; 32] = [
        1, 2, 3, 4, 5, 6, 7, 8, 9, 10, 11, 12, 13, 14, 15, 16, 17, 18, 19, 20, 21, 22, 23, 24,
        25, 26, 27, 28, 29, 30, 31, 32,
    ];

    let mut outarray = Vec::new();
    let mut encoder = RCEncoder::new();
    let _result = encoder.encode(&inarray, 32, bs, &mut outarray).unwrap();

    let decoder = RCDecoder::new();
    let mut new_inarray = Vec::new();
    let _result = decoder.decode(&outarray, 32, bs, &mut new_inarray);
    let new_inarray: Vec<i32> = new_inarray.iter().map(|&x| x as i32).collect();
    assert_eq!(new_inarray.len(), 32);
    assert_eq!(inarray.to_vec(), new_inarray);
}

#[test]
fn decode_short_works() {
    let bs = 16;
    let inarray: [i16; 32] = [
        1, 2, 3, 4, 5, 6, 7, 8, 9, 10, 11, 12, 13, 14, 15, 16, 17, 18, 19, 20, 21, 22, 23, 24,
        25, 26, 27, 28, 29, 30, 31, 32,
    ];

    let mut outarray = Vec::new();
    let mut encoder = RCEncoder::new();
    let _result = encoder.encode_short(&inarray, 32, bs, &mut outarray).unwrap();

    let decoder = RCDecoder::new();
    let mut new_inarray = Vec::new();
    let _result = decoder.decode_short(&outarray, 32, bs, &mut new_inarray);
    let new_inarray: Vec<i16> = new_inarray.iter().map(|&x| x as i16).collect();
    assert_eq!(new_inarray.len(), 32);
    assert_eq!(inarray.to_vec(), new_inarray);
}

#[test]
fn decode_byte_works() {
    let bs = 16;
    let inarray: [i8; 32] = [
        1, 2, 3, 4, 5, 6, 7, 8, 9, 10, 11, 12, 13, 14, 15, 16, 17, 18, 19, 20, 21, 22, 23, 24,
        25, 26, 27, 28, 29, 30, 31, 32,
    ];

    let mut outarray = Vec::new();
    let mut encoder = RCEncoder::new();
    let _result = encoder.encode_byte(&inarray, 32, bs, &mut outarray).unwrap();

    let decoder = RCDecoder::new();
    let mut new_inarray = Vec::new();
    let _result = decoder.decode_byte(&outarray, 32, bs, &mut new_inarray);
    let new_inarray: Vec<i8> = new_inarray.iter().map(|&x| x as i8).collect();
    assert_eq!(new_inarray.len(), 32);
    assert_eq!(inarray.to_vec(), new_inarray);
}

fn ascending() -> Vec<i32> {
    (1..=32).collect()
}

fn encode_int(input: &[i32], nx: usize, nblock: usize) -> Vec<u8> {
    let mut out = Vec::new();
    let n = RCEncoder::new().encode(input, nx, nblock, &mut out).unwrap();
    assert_eq!(n, out.len());
    out
}

fn encode_short(input: &[i16], nx: usize, nblock: usize) -> Vec<u8> {
    let mut out = Vec::new();
    let n = RCEncoder::new().encode_short(input, nx, nblock, &mut out).unwrap();
    assert_eq!(n, out.len());
    out
}

fn encode_byte(input: &[i8], nx: usize, nblock: usize) -> Vec<u8> {
    let mut out = Vec::new();
    let n = RCEncoder::new().encode_byte(input, nx, nblock, &mut out).unwrap();
    assert_eq!(n, out.len());
    out
}

#[test]
fn ascending_ints_encode_to_the_known_bytes() {
    let out = encode_int(&ascending(), 32, 16);
    assert_eq!(
        out,
        vec![0, 0, 0, 1, 12, 146, 73, 36, 146, 73, 33, 36, 146, 73, 36, 146, 73]
    );
}

#[test]
fn ascending_shorts_encode_to_the_known_bytes() {
    let input: Vec<i16> = (1..=32).collect();
    let out = encode_short(&input, 32, 16);
    assert_eq!(out, vec![0, 1, 25, 36, 146, 73, 36, 146, 68, 146, 73, 36, 146, 73, 36]);
}

#[test]
fn ascending_bytes_encode_to_the_known_bytes() {
    let input: Vec<i8> = (1..=32).collect();
    let out = encode_byte(&input, 32, 16);
    assert_eq!(out, vec![1, 50, 73, 36, 146, 73, 36, 146, 73, 36, 146, 73, 36, 144]);
}

#[test]
fn known_bytes_decode_to_ascending_ints() {
    let bytes = [0, 0, 0, 1, 12, 146, 73, 36, 146, 73, 33, 36, 146, 73, 36, 146, 73];
    let mut out = Vec::new();
    let r = RCDecoder::new().decode(&bytes, 32, 16, &mut out);
    assert_eq!(r, Ok(()));
    let expected: Vec<u32> = (1..=32).collect();
    assert_eq!(out, expected);
}

#[test]
fn encode_returns_the_number_of_bytes_appended() {
    let mut out = vec![9u8, 8, 7];
    let n = RCEncoder::new().encode(&ascending(), 32, 16, &mut out).unwrap();
    assert_eq!(n, 17);
    assert_eq!(out.len(), 20);
    assert_eq!(&out[..3], &[9, 8, 7]);
    assert_eq!(
        &out[3..],
        &[0, 0, 0, 1, 12, 146, 73, 36, 146, 73, 33, 36, 146, 73, 36, 146, 73]
    );
}

#[test]
fn an_encoder_can_be_used_again() {
    let mut encoder = RCEncoder::new();
    let mut first = Vec::new();
    let mut second = Vec::new();
    assert_eq!(encoder.encode(&[5, -3, 12], 3, 100, &mut first), Ok(7));
    assert_eq!(encoder.encode(&ascending(), 32, 16, &mut second), Ok(17));
    assert_eq!(first, vec![0, 0, 0, 5, 36, 60, 112]);
    assert_eq!(second, encode_int(&ascending(), 32, 16));
}

#[test]
fn empty_input_is_refused_for_every_block_size() {
    let empty: [i32; 0] = [];
    for nblock in [0usize, 1, 16, 1000] {
        let mut out = vec![1u8, 2];
        let r = RCEncoder::new().encode(&empty, 0, nblock, &mut out);
        assert_eq!(r, Err(EncodeError::ZeroSizeInput));
        assert_eq!(out, vec![1, 2]);
    }
    let mut out = Vec::new();
    let no_shorts: [i16; 0] = [];
    let no_bytes: [i8; 0] = [];
    assert_eq!(
        RCEncoder::new().encode_short(&no_shorts, 0, 4, &mut out),
        Err(EncodeError::ZeroSizeInput)
    );
    assert_eq!(
        RCEncoder::new().encode_byte(&no_bytes, 0, 4, &mut out),
        Err(EncodeError::ZeroSizeInput)
    );
    assert!(out.is_empty());
}

#[test]
fn a_block_size_of_zero_is_refused() {
    let mut out = Vec::new();
    assert_eq!(RCEncoder::new().encode(&[7], 1, 0, &mut out), Err(EncodeError::ZeroSizeInput));
    assert_eq!(
        RCEncoder::new().encode_short(&[7], 1, 0, &mut out),
        Err(EncodeError::ZeroSizeInput)
    );
    assert_eq!(
        RCEncoder::new().encode_byte(&[7], 1, 0, &mut out),
        Err(EncodeError::ZeroSizeInput)
    );
    assert!(out.is_empty());
}

#[test]
fn equal_samples_take_one_code_per_block() {
    // 32 header bits, then three blocks of 5 bits each: 47 bits, 6 bytes.
    assert_eq!(encode_int(&[7; 20], 20, 8), vec![0, 0, 0, 7, 0, 0]);
    // 16 header bits, then three blocks of 4 bits each.
    assert_eq!(encode_short(&[-300; 20], 20, 8), vec![254, 212, 0, 0]);
    // 8 header bits, then three blocks of 3 bits each.
    assert_eq!(encode_byte(&[-128; 5], 5, 2), vec![128, 0, 0]);
}

#[test]
fn equal_samples_decode_to_copies_of_the_first() {
    let mut ints = Vec::new();
    assert_eq!(RCDecoder::new().decode(&[0, 0, 0, 7, 0, 0], 20, 8, &mut ints), Ok(()));
    assert_eq!(ints, vec![7u32; 20]);
    let mut shorts = Vec::new();
    assert_eq!(RCDecoder::new().decode_short(&[254, 212, 0, 0], 20, 8, &mut shorts), Ok(()));
    assert_eq!(shorts, vec![(-300i16) as u16; 20]);
    let mut bytes = Vec::new();
    assert_eq!(RCDecoder::new().decode_byte(&[128, 0, 0], 5, 2, &mut bytes), Ok(()));
    assert_eq!(bytes, vec![128u8; 5]);
}

#[test]
fn extreme_differences_are_written_directly() {
    let input = [0, i32::MAX, 0, i32::MIN, 5, i32::MIN];
    let out = encode_int(&input, 6, 3);
    // 32 header bits and two blocks of 5 + 3 * 32 bits: 234 bits, 30 bytes.
    assert_eq!(
        out,
        vec![
            0, 0, 0, 0, 208, 0, 0, 0, 7, 255, 255, 255, 247, 255, 255, 255, 238, 191, 255, 255,
            255, 255, 255, 255, 253, 127, 255, 255, 253, 128
        ]
    );
    let mut back = Vec::new();
    assert_eq!(RCDecoder::new().decode(&out, 6, 3, &mut back), Ok(()));
    let back: Vec<i32> = back.iter().map(|&x| x as i32).collect();
    assert_eq!(back, input.to_vec());
}

#[test]
fn extreme_short_and_byte_differences_are_written_directly() {
    let shorts = [0i16, 32767, -32768, 32767];
    let out = encode_short(&shorts, 4, 4);
    assert_eq!(out, vec![0, 0, 232, 0, 0, 127, 253, 0, 20, 0, 32]);
    let mut back = Vec::new();
    assert_eq!(RCDecoder::new().decode_short(&out, 4, 4, &mut back), Ok(()));
    assert_eq!(back, vec![0u16, 32767, 32768, 32767]);

    let bytes = [0i8, 127, -128, 127, 0];
    let out = encode_byte(&bytes, 5, 4);
    assert_eq!(out, vec![0, 208, 0, 250, 40, 127, 232]);
    let mut back = Vec::new();
    assert_eq!(RCDecoder::new().decode_byte(&out, 5, 4, &mut back), Ok(()));
    assert_eq!(back, vec![0u8, 127, 128, 127, 0]);
}

#[test]
fn differences_wrap_at_the_ends_of_the_range() {
    let input = [-1, i32::MIN];
    let out = encode_int(&input, 2, 16);
    assert_eq!(out, vec![255, 255, 255, 255, 208, 0, 0, 0, 7, 255, 255, 255, 232]);
    let mut back = Vec::new();
    assert_eq!(RCDecoder::new().decode(&out, 2, 16, &mut back), Ok(()));
    assert_eq!(back, vec![u32::MAX, 0x8000_0000]);

    // From the highest sample to the lowest is one step up, and back one step down.
    let input = [i32::MAX, i32::MIN, i32::MAX];
    let out = encode_int(&input, 3, 2);
    assert_eq!(out, vec![127, 255, 255, 255, 12, 133]);
    let mut back = Vec::new();
    assert_eq!(RCDecoder::new().decode(&out, 3, 2, &mut back), Ok(()));
    assert_eq!(back, vec![0x7fff_ffff, 0x8000_0000, 0x7fff_ffff]);
}

#[test]
fn a_block_size_above_the_length_gives_one_block() {
    let out = encode_int(&[5, -3, 12], 3, 100);
    assert_eq!(out, vec![0, 0, 0, 5, 36, 60, 112]);
    assert_eq!(encode_int(&[5, -3, 12], 3, usize::MAX), out);
    let mut back = Vec::new();
    assert_eq!(RCDecoder::new().decode(&out, 3, usize::MAX, &mut back), Ok(()));
    assert_eq!(back, vec![5, (-3i32) as u32, 12]);
}

#[test]
fn a_single_sample_is_a_header_and_an_empty_block() {
    assert_eq!(encode_int(&[42], 1, 1), vec![0, 0, 0, 42, 0]);
    assert_eq!(encode_short(&[-2], 1, 7), vec![255, 254, 0]);
    assert_eq!(encode_byte(&[-2], 1, 7), vec![254, 0]);
}

#[test]
fn only_the_first_nx_samples_are_encoded() {
    let out = encode_int(&[10, 11, 13, 9, 100], 3, 2);
    assert_eq!(out, vec![0, 0, 0, 10, 12, 136, 128]);
    assert_eq!(out, encode_int(&[10, 11, 13], 3, 2));
}

#[test]
fn no_samples_of_a_sequence_give_the_header_alone() {
    let out = encode_int(&[10, 11], 0, 2);
    assert_eq!(out, vec![0, 0, 0, 10]);
    let mut back = vec![1u32, 2, 3];
    assert_eq!(RCDecoder::new().decode(&out, 0, 2, &mut back), Ok(()));
    assert!(back.is_empty());
}

#[test]
fn rice_blocks_encode_to_the_known_bytes() {
    assert_eq!(
        encode_int(&[0, 40, 3, 77, 20, 60, 1, 50], 8, 8),
        vec![0, 0, 0, 0, 60, 5, 4, 146, 163, 138, 131, 171, 16]
    );
    assert_eq!(
        encode_byte(&[0, 100, -100, 3, 4, 5, 5, 5, 90], 9, 4),
        vec![0, 224, 25, 14, 25, 196, 159, 213, 0]
    );
}

#[test]
fn a_jump_among_shorts_is_split_by_the_mean() {
    let mut input = vec![0i16];
    input.extend(std::iter::repeat(20000).take(31));
    let out = encode_short(&input, 32, 32);
    assert_eq!(
        out,
        vec![
            0, 0, 184, 0, 0, 0, 0, 0, 2, 32, 64, 8, 1, 0, 32, 4, 0, 128, 16, 2, 0, 64, 8, 1, 0,
            32, 4, 0, 128, 16, 2, 0, 64, 8, 1, 0, 32, 4, 0, 128, 16, 2, 0, 64, 8, 1, 0, 32, 4, 0,
            128, 0
        ]
    );
    let mut back = Vec::new();
    assert_eq!(RCDecoder::new().decode_short(&out, 32, 32, &mut back), Ok(()));
    let back: Vec<i16> = back.iter().map(|&x| x as i16).collect();
    assert_eq!(back, input);
}

#[test]
fn a_stream_cut_short_ends_the_buffer() {
    let bytes = encode_int(&ascending(), 32, 16);
    // 80 bits hold the header of 32 bits, a code of 5 bits, the first
    // sample in 1 bit and 14 more in 3 bits each.
    let mut out = vec![77u32; 3];
    let r = RCDecoder::new().decode(&bytes[..10], 32, 16, &mut out);
    assert_eq!(r, Err(DecodeError::EndOfBuffer));
    let mut expected: Vec<u32> = (1..=15).collect();
    expected.resize(32, 0);
    assert_eq!(out, expected);
}

#[test]
fn every_cut_of_a_stream_ends_the_buffer() {
    let bytes = encode_int(&ascending(), 32, 16);
    for cut in 0..bytes.len() {
        let mut out = Vec::new();
        let r = RCDecoder::new().decode(&bytes[..cut], 32, 16, &mut out);
        assert_eq!(r, Err(DecodeError::EndOfBuffer));
        assert_eq!(out.len(), 32);
        for (i, &v) in out.iter().enumerate() {
            assert!(v == 0 || v == i as u32 + 1);
        }
    }
}

#[test]
fn a_header_cut_short_ends_the_buffer() {
    let mut ints = Vec::new();
    assert_eq!(RCDecoder::new().decode(&[0, 0, 1], 0, 4, &mut ints), Err(DecodeError::EndOfBuffer));
    assert!(ints.is_empty());
    let mut ints = Vec::new();
    assert_eq!(RCDecoder::new().decode(&[], 2, 4, &mut ints), Err(DecodeError::EndOfBuffer));
    assert_eq!(ints, vec![0, 0]);
    let mut shorts = Vec::new();
    assert_eq!(
        RCDecoder::new().decode_short(&[1], 1, 4, &mut shorts),
        Err(DecodeError::EndOfBuffer)
    );
    assert_eq!(shorts, vec![0]);
    let mut bytes = Vec::new();
    assert_eq!(RCDecoder::new().decode_byte(&[], 1, 4, &mut bytes), Err(DecodeError::EndOfBuffer));
    assert_eq!(bytes, vec![0]);
}

#[test]
fn decoding_in_blocks_of_no_samples_ends_the_buffer() {
    let bytes = encode_int(&ascending(), 32, 16);
    let mut out = Vec::new();
    assert_eq!(RCDecoder::new().decode(&bytes, 32, 0, &mut out), Err(DecodeError::EndOfBuffer));
    assert_eq!(out, vec![0u32; 32]);
    let mut out = Vec::new();
    assert_eq!(RCDecoder::new().decode(&bytes, 0, 0, &mut out), Ok(()));
    assert!(out.is_empty());
}

#[test]
fn bytes_after_the_stream_are_no_error() {
    let mut bytes = encode_int(&ascending(), 32, 16);
    bytes.extend_from_slice(&[255, 0, 255]);
    let mut out = Vec::new();
    assert_eq!(RCDecoder::new().decode(&bytes, 32, 16, &mut out), Ok(()));
    let expected: Vec<u32> = (1..=32).collect();
    assert_eq!(out, expected);
}

#[test]
fn a_run_of_zero_bits_without_end_ends_the_buffer() {
    // Header 0, code 1 (split 0), then zero bits only.
    let bytes = [0u8, 0, 0, 0, 0b0000_1000, 0, 0, 0];
    let mut out = Vec::new();
    assert_eq!(RCDecoder::new().decode(&bytes, 1, 1, &mut out), Err(DecodeError::EndOfBuffer));
    assert_eq!(out, vec![0]);
}

#[test]
fn codes_above_the_direct_code_are_read_as_splits() {
    // 32-bit header 0, code 31 (split 30), unary 1 (one zero bit, one one
    // bit), then 30 bits that spell 5: the mapped difference is 2^30 + 5.
    let mut bits: Vec<u8> = vec![0; 32];
    bits.extend_from_slice(&[1, 1, 1, 1, 1]);
    bits.extend_from_slice(&[0, 1]);
    let mut low = vec![0u8; 30];
    low[27] = 1;
    low[29] = 1;
    bits.extend_from_slice(&low);
    while bits.len() % 8 != 0 {
        bits.push(0);
    }
    let bytes: Vec<u8> =
        bits.chunks(8).map(|c| c.iter().fold(0u8, |acc, &b| acc * 2 + b)).collect();
    let mut out = Vec::new();
    assert_eq!(RCDecoder::new().decode(&bytes, 1, 1, &mut out), Ok(()));
    // 2^30 + 5 is odd: the difference is -(2^29 + 2) - 1.
    assert_eq!(out, vec![(-(1i64 << 29) - 3) as u32]);
}

#[test]
fn the_default_coders_work_as_the_new_ones() {
    let mut out = Vec::new();
    assert_eq!(RCEncoder::default().encode(&ascending(), 32, 16, &mut out), Ok(17));
    let mut back = Vec::new();
    assert_eq!(RCDecoder::default().decode(&out, 32, 16, &mut back), Ok(()));
    let expected: Vec<u32> = (1..=32).collect();
    assert_eq!(back, expected);
}
