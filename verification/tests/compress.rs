use std::io::Read;

use deflate::errors::DeflateError;
use deflate::lz77::{lz77_compress, LDPair};
use deflate::stored_block::compress_data_stored;
use deflate::{
    compress_data, compress_data_dynamic, compress_data_fixed, encode_dynamic, encode_fixed, BType,
    BitWriter, EncoderState,
};

/// Decompresses a raw stream to the end.
fn decompress_to_end(input: &[u8]) -> Vec<u8> {
    let mut inflater = inflate::InflateStream::new();
    let mut out = Vec::new();
    let mut n = 0;
    println!("input len {}", input.len());
    while n < input.len() {
        let (num_bytes_read, result) = inflater.update(&input[n..]).unwrap();
        println!("result len {}, bytes_read {}", result.len(), num_bytes_read);
        n += num_bytes_read;
        out.extend(result);
    }
    out
}

/// Decompresses a raw stream with a second decoder.
fn decompress_with_flate2(input: &[u8]) -> Vec<u8> {
    let mut result = Vec::new();
    let mut decoder = flate2::read::DeflateDecoder::new(input);
    decoder.read_to_end(&mut result).unwrap();
    result
}

/// Bytes with long and short repeats and stretches without any.
fn mixed_data(len: usize) -> Vec<u8> {
    let mut data = Vec::with_capacity(len);
    let mut x: u32 = 12345;
    while data.len() < len {
        x = x.wrapping_mul(1103515245).wrapping_add(12345);
        let kind = (x >> 16) % 4;
        let run = ((x >> 20) % 300) as usize + 1;
        for i in 0..run {
            if data.len() == len {
                break;
            }
            let b = match kind {
                0 => (x >> 8) as u8,
                1 => b"the quick brown fox "[i % 20],
                2 => {
                    x = x.wrapping_mul(1103515245).wrapping_add(12345);
                    (x >> 16) as u8
                }
                _ => (i % 7) as u8,
            };
            data.push(b);
        }
    }
    data
}

#[test]
fn test_no_compression_one_chunk() {
    let test_data = vec![1u8, 2, 3, 4, 5, 6, 7, 8];
    let compressed = compress_data(&test_data, BType::NoCompression);
    let result = decompress_to_end(&compressed);
    assert_eq!(test_data, result);
}

#[test]
fn test_no_compression_multiple_chunks() {
    let test_data = vec![32u8; 40000];
    let compressed = compress_data(&test_data, BType::NoCompression);
    let result = decompress_to_end(&compressed);
    assert_eq!(test_data, result);
}

#[test]
fn test_no_compression_string() {
    let test_data = String::from(
        "This is some text, this is some more text, this is even \
                                      more text, lots of text here.",
    )
    .into_bytes();
    let compressed = compress_data(&test_data, BType::NoCompression);
    let result = decompress_to_end(&compressed);
    assert_eq!(test_data, result);
}

#[test]
fn test_fixed_string_mem() {
    let test_data = String::from("                    GNU GENERAL PUBLIC LICENSE").into_bytes();
    let compressed = compress_data(&test_data, BType::FixedHuffman);

    let result = decompress_to_end(&compressed);
    println!("Output: `{}`", std::str::from_utf8(&result).unwrap());
    assert_eq!(test_data, result);
}

#[test]
fn test_fixed_data() {
    let data = vec![190u8; 400];
    let compressed = compress_data(&data, BType::FixedHuffman);
    let result = decompress_to_end(&compressed);

    println!("data len: {}, result len: {}", data.len(), result.len());
    assert_eq!(data, result);
}

/// The stream of a well-known worked example of the fixed codes.
#[test]
fn test_fixed_example() {
    let test_data = b"Deflate late";
    let check = [0x73, 0x49, 0x4d, 0xcb, 0x49, 0x2c, 0x49, 0x55, 0x00, 0x11, 0x00];
    let compressed = compress_data(test_data, BType::FixedHuffman);
    assert_eq!(&compressed, &check);
    let decompressed = decompress_to_end(&compressed);
    assert_eq!(&decompressed, test_data)
}

#[test]
fn test_dynamic_string_mem() {
    let test_data = String::from("                    GNU GENERAL PUBLIC LICENSE").into_bytes();
    let compressed = compress_data(&test_data, BType::DynamicHuffman);

    let result = decompress_to_end(&compressed);
    println!("Output: `{}`", std::str::from_utf8(&result).unwrap());
    assert_eq!(test_data, result);
}

#[test]
fn stored_stream_of_three_bytes() {
    assert_eq!(compress_data_stored(&[1, 2, 3]), vec![1, 3, 0, 0xfc, 0xff, 1, 2, 3]);
}

#[test]
fn stored_stream_of_nothing() {
    assert_eq!(compress_data_stored(&[]), vec![1, 0, 0, 0xff, 0xff]);
    assert_eq!(decompress_with_flate2(&compress_data(&[], BType::NoCompression)), Vec::<u8>::new());
}

#[test]
fn stored_stream_splits_after_65535_bytes() {
    let data = vec![7u8; 65536];
    let out = compress_data_stored(&data);
    assert_eq!(out.len(), 65536 + 10);
    assert_eq!(&out[..5], &[0, 0xff, 0xff, 0, 0]);
    assert_eq!(&out[5 + 65535..], &[1, 1, 0, 0xfe, 0xff, 7]);
    assert_eq!(decompress_with_flate2(&out), data);
}

#[test]
fn stored_stream_of_exactly_one_full_block() {
    let data = vec![9u8; 65535];
    let out = compress_data_stored(&data);
    assert_eq!(out.len(), 65535 + 5);
    assert_eq!(&out[..5], &[1, 0xff, 0xff, 0, 0]);
    assert_eq!(decompress_to_end(&out), data);
}

#[test]
fn empty_input_fixed() {
    let out = compress_data(&[], BType::FixedHuffman);
    assert_eq!(out, vec![0x03, 0x00]);
    assert_eq!(decompress_with_flate2(&out), Vec::<u8>::new());
}

#[test]
fn empty_input_dynamic() {
    let out = compress_data(&[], BType::DynamicHuffman);
    assert_eq!(out[0] & 7, 0b101);
    assert_eq!(decompress_to_end(&out), Vec::<u8>::new());
}

#[test]
fn single_byte_all_modes() {
    for b in [0u8, 143, 144, 255] {
        assert_eq!(decompress_to_end(&compress_data(&[b], BType::NoCompression)), vec![b]);
        assert_eq!(decompress_to_end(&compress_data(&[b], BType::FixedHuffman)), vec![b]);
        assert_eq!(decompress_to_end(&compress_data(&[b], BType::DynamicHuffman)), vec![b]);
    }
}

#[test]
fn every_literal_round_trips() {
    let data: Vec<u8> = (0..=255u8).collect();
    assert_eq!(decompress_with_flate2(&compress_data_fixed(&data)), data);
    assert_eq!(decompress_to_end(&compress_data_dynamic(&data)), data);
    assert_eq!(decompress_with_flate2(&compress_data_dynamic(&data)), data);
}

#[test]
fn large_mixed_data_round_trips_fixed() {
    let data = mixed_data(200_000);
    let out = compress_data(&data, BType::FixedHuffman);
    assert!(out.len() < data.len());
    assert!(decompress_with_flate2(&out) == data);
}

#[test]
fn large_mixed_data_round_trips_dynamic() {
    let data = mixed_data(100_000);
    let out = compress_data(&data, BType::DynamicHuffman);
    assert!(decompress_to_end(&out) == data);
}

#[test]
fn large_mixed_data_round_trips_stored() {
    let data = mixed_data(150_000);
    let out = compress_data(&data, BType::NoCompression);
    assert_eq!(out.len(), data.len() + 3 * 5);
    assert!(decompress_with_flate2(&out) == data);
}

#[test]
fn long_run_uses_longest_matches() {
    let data = vec![b'a'; 1000];
    let symbols = lz77_compress(&data, 32768).unwrap();
    assert_eq!(symbols[0], LDPair::BlockStart { is_final: true });
    assert_eq!(symbols[1], LDPair::Literal(b'a'));
    assert_eq!(symbols[2], LDPair::LengthDistance { length: 258, distance: 1 });
    assert!(decompress_with_flate2(&compress_data_fixed(&data)) == data);
}

#[test]
fn lz77_symbols_of_worked_example() {
    let symbols = lz77_compress(b"Deflate late", 32768).unwrap();
    let mut expected = vec![LDPair::BlockStart { is_final: true }];
    for b in b"Deflate " {
        expected.push(LDPair::Literal(*b));
    }
    expected.push(LDPair::LengthDistance { length: 4, distance: 5 });
    assert_eq!(symbols, expected);
}

#[test]
fn lz77_symbols_of_nothing() {
    assert_eq!(lz77_compress(&[], 32768), Some(vec![LDPair::BlockStart { is_final: true }]));
}

#[test]
fn lz77_offers_only_the_full_window() {
    assert_eq!(lz77_compress(b"abc", 1024), None);
    assert_eq!(lz77_compress(b"abc", 0), None);
}

#[test]
fn lazy_matching_prefers_the_longer_later_match() {
    // "abc" occurs early, "bcdefg" later: at the second "abc" the match one
    // byte further on is longer, so the "a" goes out as a literal.
    let data = b"abc..bcdefg..abcdefg";
    let symbols = lz77_compress(data, 32768).unwrap();
    let n = symbols.len();
    assert_eq!(symbols[n - 2], LDPair::Literal(b'a'));
    assert_eq!(symbols[n - 1], LDPair::LengthDistance { length: 6, distance: 9 });
    assert_eq!(decompress_to_end(&compress_data_fixed(data)), data.to_vec());
}

#[test]
fn encode_fixed_writes_given_symbols() {
    let mut symbols = vec![LDPair::BlockStart { is_final: true }];
    for b in b"Deflate " {
        symbols.push(LDPair::Literal(*b));
    }
    symbols.push(LDPair::LengthDistance { length: 4, distance: 5 });
    let out = encode_fixed(&symbols).unwrap();
    assert_eq!(out, vec![0x73, 0x49, 0x4d, 0xcb, 0x49, 0x2c, 0x49, 0x55, 0x00, 0x11, 0x00]);
}

#[test]
fn encode_fixed_longest_and_farthest_match() {
    // 32768 bytes, then the first 258 of them again.
    let mut data = mixed_data(32768);
    let head: Vec<u8> = data[..258].to_vec();
    data.extend(&head);
    let mut symbols = vec![LDPair::BlockStart { is_final: true }];
    for b in &data[..32768] {
        symbols.push(LDPair::Literal(*b));
    }
    symbols.push(LDPair::LengthDistance { length: 258, distance: 32768 });
    let out = encode_fixed(&symbols).unwrap();
    assert!(decompress_with_flate2(&out) == data);
}

#[test]
fn encode_refuses_match_out_of_range() {
    let start = LDPair::BlockStart { is_final: true };
    for (length, distance) in [(2u16, 1u16), (259, 1), (3, 0), (3, 32769)] {
        let symbols = vec![start, LDPair::Literal(1), LDPair::LengthDistance { length, distance }];
        assert_eq!(encode_fixed(&symbols), Err(DeflateError::InvalidLengthOrDistance));
        assert_eq!(encode_dynamic(&symbols), Err(DeflateError::InvalidLengthOrDistance));
    }
}

#[test]
fn encode_dynamic_wants_a_block_start_first() {
    assert_eq!(encode_dynamic(&vec![]), Err(DeflateError::InternalInvariant));
    assert_eq!(encode_dynamic(&vec![LDPair::Literal(1)]), Err(DeflateError::InternalInvariant));
    let bad = vec![LDPair::Literal(1), LDPair::LengthDistance { length: 2, distance: 1 }];
    assert_eq!(encode_dynamic(&bad), Err(DeflateError::InternalInvariant));
}

#[test]
fn encode_dynamic_two_blocks() {
    let symbols = vec![
        LDPair::BlockStart { is_final: false },
        LDPair::Literal(b'h'),
        LDPair::Literal(b'i'),
        LDPair::BlockStart { is_final: true },
        LDPair::Literal(b'!'),
        LDPair::LengthDistance { length: 3, distance: 1 },
    ];
    let out = encode_dynamic(&symbols).unwrap();
    assert_eq!(out[0] & 7, 0b100);
    assert_eq!(decompress_to_end(&out), b"hi!!!!".to_vec());
    assert_eq!(decompress_with_flate2(&out), b"hi!!!!".to_vec());
}

#[test]
fn bit_writer_packs_lowest_bit_first() {
    let mut w = BitWriter::new();
    w.write_bits(0b1, 1);
    w.write_bits(0b10, 2);
    w.write_bits(0b10110, 5);
    assert_eq!(w.buffer, vec![0b1011_0101]);
    w.write_bits(0xabcd, 16);
    assert_eq!(w.buffer, vec![0b1011_0101, 0xcd, 0xab]);
    w.write_bits(0b11, 2);
    w.write_bits(0x1ff, 9);
    assert_eq!(w.buffer, vec![0b1011_0101, 0xcd, 0xab, 0xff]);
    w.finish();
    assert_eq!(w.buffer, vec![0b1011_0101, 0xcd, 0xab, 0xff, 0b0000_0111]);
}

#[test]
fn bit_writer_keeps_only_the_low_bits() {
    let mut w = BitWriter::new();
    w.write_bits(0xffff, 4);
    w.write_bits(0, 4);
    w.write_bits(0xffff, 0);
    w.write_bits(0, 8);
    assert_eq!(w.buffer, vec![0x0f, 0x00]);
}

#[test]
fn bit_writer_finish_is_idle_without_pending_bits() {
    let mut w = BitWriter::new();
    w.finish();
    assert_eq!(w.buffer, Vec::<u8>::new());
    w.write_bits(0x5a, 8);
    w.finish();
    assert_eq!(w.buffer, vec![0x5a]);
    w.write_bits(1, 1);
    w.finish();
    w.finish();
    assert_eq!(w.buffer, vec![0x5a, 0x01]);
}

#[test]
fn encoder_state_by_hand() {
    let mut state = EncoderState::default();
    state.write_start_of_block(true);
    state.write_literal(b'D');
    assert_eq!(state.write_ldpair(LDPair::Literal(b'e')), Ok(()));
    state.write_end_of_block();
    state.flush();
    let out = state.take_buffer();
    assert_eq!(out, compress_data_fixed(b"De"));
    assert_eq!(state.take_buffer(), Vec::<u8>::new());
}

#[test]
fn encoder_state_refuses_block_start_and_bad_match() {
    let mut state = EncoderState::default();
    assert_eq!(
        state.write_ldpair(LDPair::BlockStart { is_final: true }),
        Err(DeflateError::InternalInvariant)
    );
    assert_eq!(
        state.write_ldpair(LDPair::LengthDistance { length: 300, distance: 1 }),
        Err(DeflateError::InvalidLengthOrDistance)
    );
    state.flush();
    assert_eq!(state.take_buffer(), Vec::<u8>::new());
}

#[test]
fn block_headers() {
    let mut fixed = EncoderState::default();
    fixed.write_start_of_block(false);
    fixed.flush();
    assert_eq!(fixed.take_buffer(), vec![0b010]);
    let mut fixed_final = EncoderState::default();
    fixed_final.write_start_of_block(true);
    fixed_final.flush();
    assert_eq!(fixed_final.take_buffer(), vec![0b011]);
}

#[test]
fn short_inputs_round_trip() {
    for len in 0..40usize {
        for period in [1usize, 2, 3, 5, 40] {
            let data: Vec<u8> = (0..len).map(|i| b"abcdefgh"[(i % period) % 8]).collect();
            assert_eq!(decompress_with_flate2(&compress_data(&data, BType::NoCompression)), data);
            assert_eq!(decompress_with_flate2(&compress_data(&data, BType::FixedHuffman)), data);
            assert_eq!(decompress_to_end(&compress_data(&data, BType::DynamicHuffman)), data);
            assert_eq!(decompress_with_flate2(&compress_data(&data, BType::DynamicHuffman)), data);
        }
    }
}

#[test]
fn matches_at_the_edge_of_the_window() {
    for gap in [32765usize, 32768, 32769, 40000] {
        let mut data = b"a phrase to be found again".to_vec();
        let filler = mixed_data(gap);
        data.extend(&filler[..gap - 26]);
        data.extend(b"a phrase to be found again");
        let symbols = lz77_compress(&data, 32768).unwrap();
        for s in &symbols {
            if let LDPair::LengthDistance { length, distance } = s {
                assert!(*length >= 3 && *length <= 258);
                assert!(*distance >= 1 && *distance <= 32768);
            }
        }
        if gap <= 32768 {
            assert_eq!(
                symbols[symbols.len() - 1],
                LDPair::LengthDistance { length: 26, distance: gap as u16 }
            );
        }
        assert!(decompress_with_flate2(&compress_data_fixed(&data)) == data);
    }
}

#[test]
fn long_runs_round_trip() {
    let data = vec![0u8; 70_000];
    assert!(decompress_with_flate2(&compress_data(&data, BType::FixedHuffman)) == data);
    assert!(decompress_to_end(&compress_data(&data, BType::DynamicHuffman)) == data);
    let out = compress_data(&data, BType::FixedHuffman);
    assert!(out.len() < 1000);
}

#[test]
fn dynamic_block_with_second_decoder() {
    for len in [0usize, 1, 100, 5000, 70_000] {
        let data = mixed_data(len);
        let out = compress_data(&data, BType::DynamicHuffman);
        assert_eq!(out[0] & 7, 0b101);
        assert!(decompress_with_flate2(&out) == data);
        assert!(decompress_to_end(&out) == data);
    }
}
