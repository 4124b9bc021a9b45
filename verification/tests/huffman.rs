use deflate::errors::DeflateError;
use deflate::huffman_lengths::write_huffman_lengths;
use deflate::huffman_table::{
    create_codes, find_distance_index, find_length_index, fixed_code_lengths,
    fixed_code_lengths_distance, reverse, Code, HuffmanTable,
};
use deflate::BitWriter;

#[test]
fn canonical_codes_of_a_small_alphabet() {
    // Lengths 3,3,3,3,3,2,4,4 give the words 010 011 100 101 110 00 1110 1111.
    let table = HuffmanTable::from_length_tables(&[3, 3, 3, 3, 3, 2, 4, 4], &[1, 1]).unwrap();
    let words = [0b010u16, 0b110, 0b001, 0b101, 0b011, 0b00, 0b0111, 0b1111];
    let lengths = [3u8, 3, 3, 3, 3, 2, 4, 4];
    for i in 0..8 {
        assert_eq!(table.get_literal(i as u8), Code { code: words[i], length: lengths[i] });
    }
    assert_eq!(table.get_literal(8), Code { code: 0, length: 0 });
    assert_eq!(table.get_end_of_block(), Code { code: 0, length: 0 });
}

#[test]
fn unused_symbols_have_no_code() {
    let codes = create_codes(&[0, 2, 0, 1, 0]).unwrap();
    assert_eq!(codes, vec![0, 0b01, 0, 0, 0]);
}

#[test]
fn fixed_codes() {
    let table = HuffmanTable::fixed_table(288, 32);
    assert_eq!(table.get_literal(0), Code { code: 0b00001100, length: 8 });
    assert_eq!(table.get_literal(143), Code { code: 0b11111101, length: 8 });
    assert_eq!(table.get_literal(144), Code { code: 0b000010011, length: 9 });
    assert_eq!(table.get_literal(255), Code { code: 0b111111111, length: 9 });
    assert_eq!(table.get_end_of_block(), Code { code: 0, length: 7 });
    let bits = table.get_length_distance_code(3, 1).unwrap();
    assert_eq!(bits.length_code, Code { code: 0b1000000, length: 7 });
    assert_eq!(bits.length_extra_bits, Code { code: 0, length: 0 });
    assert_eq!(bits.distance_code, Code { code: 0, length: 5 });
    assert_eq!(bits.distance_extra_bits, Code { code: 0, length: 0 });
    let bits = table.get_length_distance_code(258, 32768).unwrap();
    assert_eq!(bits.length_code, Code { code: 0b10100011, length: 8 });
    assert_eq!(bits.length_extra_bits, Code { code: 0, length: 0 });
    assert_eq!(bits.distance_code, Code { code: 0b10111, length: 5 });
    assert_eq!(bits.distance_extra_bits, Code { code: 8191, length: 13 });
}

#[test]
fn fixed_code_length_tables() {
    let l = fixed_code_lengths(288);
    assert_eq!(l.len(), 288);
    assert_eq!((l[0], l[143], l[144], l[255], l[256], l[279], l[280], l[287]), (8, 8, 9, 9, 7, 7, 8, 8));
    assert_eq!(fixed_code_lengths_distance(32), vec![5u8; 32]);
}

#[test]
fn preset_codes_of_dynamic_blocks_are_complete() {
    let table = HuffmanTable::preset_table();
    assert_eq!(table.get_literal(0), Code { code: 0b00001100, length: 8 });
    assert_eq!(table.get_literal(147).length, 8);
    assert_eq!(table.get_literal(148).length, 9);
    assert_eq!(table.get_literal(255), Code { code: 0b111111111, length: 9 });
    assert_eq!(table.get_end_of_block(), Code { code: 0, length: 7 });
    let near = table.get_length_distance_code(258, 1).unwrap();
    assert_eq!(near.length_code.length, 8);
    assert_eq!(near.distance_code, Code { code: 0, length: 4 });
    let far = table.get_length_distance_code(3, 32768).unwrap();
    assert_eq!(far.distance_code, Code { code: 0b11111, length: 5 });
    // Sums of 2^-length over both alphabets, in units of 2^-9 and 2^-5.
    let mut literals = 0u32;
    for b in 0..=255u8 {
        literals += 512 >> table.get_literal(b).length;
    }
    literals += 512 >> table.get_end_of_block().length;
    for length in [3u16, 4, 5, 6, 7, 8, 9, 10, 11, 13, 15, 17, 19, 23, 27, 31, 35, 43, 51, 59, 67,
        83, 99, 115, 131, 163, 195, 227, 258]
    {
        literals += 512 >> table.get_length_distance_code(length, 1).unwrap().length_code.length;
    }
    assert_eq!(literals, 512);
    let mut distances = 0u32;
    for distance in [1u16, 2, 3, 4, 5, 7, 9, 13, 17, 25, 33, 49, 65, 97, 129, 193, 257, 385, 513,
        769, 1025, 1537, 2049, 3073, 4097, 6145, 8193, 12289, 16385, 24577]
    {
        distances += 32 >> table.get_length_distance_code(3, distance).unwrap().distance_code.length;
    }
    assert_eq!(distances, 32);
}

#[test]
fn length_codes_follow_the_format_table() {
    let cases: [(u16, usize, u16, u8); 12] = [
        (3, 0, 0, 0),
        (4, 1, 0, 0),
        (10, 7, 0, 0),
        (11, 8, 0, 1),
        (12, 8, 1, 1),
        (13, 9, 0, 1),
        (18, 11, 1, 1),
        (19, 12, 0, 2),
        (130, 23, 15, 4),
        (131, 24, 0, 5),
        (257, 27, 30, 5),
        (258, 28, 0, 0),
    ];
    let table = HuffmanTable::fixed_table(288, 32);
    for (length, index, extra, width) in cases {
        assert_eq!(find_length_index(length), index);
        let bits = table.get_length_distance_code(length, 1).unwrap();
        assert_eq!(bits.length_extra_bits, Code { code: extra, length: width });
    }
}

#[test]
fn distance_codes_follow_the_format_table() {
    let cases: [(u16, usize, u16, u8); 10] = [
        (1, 0, 0, 0),
        (4, 3, 0, 0),
        (5, 4, 0, 1),
        (6, 4, 1, 1),
        (7, 5, 0, 1),
        (24, 8, 7, 3),
        (25, 9, 0, 3),
        (24576, 28, 8191, 13),
        (24577, 29, 0, 13),
        (32768, 29, 8191, 13),
    ];
    let table = HuffmanTable::fixed_table(288, 32);
    for (distance, index, extra, width) in cases {
        assert_eq!(find_distance_index(distance), index);
        let bits = table.get_length_distance_code(3, distance).unwrap();
        assert_eq!(bits.distance_extra_bits, Code { code: extra, length: width });
    }
}

#[test]
fn match_out_of_range_has_no_code() {
    let table = HuffmanTable::fixed_table(288, 32);
    for (length, distance) in [(0u16, 1u16), (2, 1), (259, 1), (3, 0), (3, 32769), (65535, 65535)] {
        assert_eq!(
            table.get_length_distance_code(length, distance),
            Err(DeflateError::InvalidLengthOrDistance)
        );
    }
}

#[test]
fn code_lengths_without_a_code_are_refused() {
    let fails = |l: &[u8], d: &[u8]| match HuffmanTable::from_length_tables(l, d) {
        Ok(_) => false,
        Err(e) => e == DeflateError::HuffmanConstruction,
    };
    assert!(fails(&[16, 1], &[1]));
    assert!(fails(&[1, 1], &[1, 16]));
    assert!(fails(&[1, 1, 1], &[1]));
    assert!(fails(&[1, 2, 2, 15], &[1]));
    assert!(fails(&[1], &[2, 2, 2, 2, 2]));
    assert!(fails(&[8u8; 289], &[1]));
    assert!(fails(&[1], &[5u8; 33]));
    assert!(!fails(&[1, 2, 2], &[1]));
    assert!(!fails(&[], &[]));
    assert!(!fails(&[15, 15, 0, 1], &[0, 0, 3]));
    assert_eq!(create_codes(&[1, 1, 2]), None);
}

#[test]
fn reverse_turns_the_low_bits_round() {
    assert_eq!(reverse(0b011, 3), 0b110);
    assert_eq!(reverse(0b1, 15), 0b100_0000_0000_0000);
    assert_eq!(reverse(0b1011, 4), 0b1101);
    assert_eq!(reverse(0xffff, 0), 0);
    assert_eq!(reverse(0b110, 2), 0b01);
}

#[test]
fn code_description_layout() {
    let mut w = BitWriter::new();
    let literals = vec![8u8; 257];
    let distances = vec![1u8, 15];
    write_huffman_lengths(&literals, &distances, &mut w);
    w.finish();
    // 14 bits of counts and 19 * 3 bits of code length code lengths. Then
    // one 8 in five bits, 42 repeats of six and one of four in four bits
    // each, and the lengths 1 and 15 in five bits each.
    assert_eq!(w.buffer.len(), (14 + 19 * 3 + 5 + 43 * 4 + 10 + 7) / 8);
    // HLIT 0, HDIST 1, HCLEN 15: 00000 10000 1111, lowest bit first.
    assert_eq!(w.buffer[0], 0b0010_0000);
    // The lengths of the code length codes of 16, 17, 18 and 0: 2, 3, 3, 5.
    assert_eq!(w.buffer[1], 0b1011_1100);
    assert_eq!(w.buffer[2], 0b1011_0110);
}

#[test]
fn code_description_runs_of_zeros() {
    // 2 zeros go out one by one, 3 to 10 as a short run, 11 and more as a
    // long run of at most 138.
    let sizes = |zeros: usize| {
        let mut literals = vec![9u8];
        literals.extend(vec![0u8; zeros]);
        literals.push(7);
        literals.extend(vec![0u8; 286 - zeros - 2]);
        let mut w = BitWriter::new();
        write_huffman_lengths(&literals, &[5], &mut w);
        let with = w.buffer.len() * 8;
        with
    };
    // The tail of zeros shrinks as the run in front grows, so sizes only
    // move by the few bits that a symbol takes.
    assert!(sizes(2) <= 14 + 57 + 5 * 5 + 3 * 10 + 8);
    assert!(sizes(140) <= 14 + 57 + 5 * 5 + 3 * 10 + 8);
}
