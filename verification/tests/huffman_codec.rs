use purgepack::container::CodecError;
use purgepack::huffman::canonical::generate_canonical_codes;
use purgepack::huffman::frame::{read_frame, write_data_canonical};
use purgepack::huffman::paths::{code_lengths, generate_byte_codes};
use purgepack::huffman::stream::{build_decoding_tree, compress_canonical, decode_canonical};
use purgepack::huffman::tree::{
    calculate_byte_frequencies, generate_huffman_tree, HuffmanNode,
};
use purgepack::huffman::trie::DecodeNode;
use purgepack::huffman::{
    encode_with_table, huffman_decode, huffman_encode, huffman_table, read_data_canonical,
};

fn kraft_holds(table: &[(u8, usize)]) -> bool {
    let mut sum = 0f64;
    for (_, length) in table {
        sum += 0.5f64.powi(*length as i32);
    }
    sum <= 1.0
}

#[test]
fn huffman_small_scenario() {
    let input = b"AABBC".to_vec();
    let stream = huffman_encode(&input).unwrap();
    assert_eq!(&stream[..5], &[0x50, 0x50, 0x43, 0x42, 0x02]);
    let (table, bits) = read_frame(&stream[5..]).unwrap();
    assert_eq!(table.len(), 3);
    assert!(kraft_holds(&table));
    let total: usize = input
        .iter()
        .map(|b| table.iter().find(|(byte, _)| byte == b).unwrap().1)
        .sum();
    assert_eq!(bits.len(), total);
    assert_eq!(huffman_decode(&stream), Ok(input));
}

#[test]
fn huffman_small_scenario_bytes() {
    let stream = huffman_encode(b"AABBC").unwrap();
    let mut expected: Vec<u8> = vec![0x50, 0x50, 0x43, 0x42, 0x02];
    expected.extend_from_slice(&[0, 0, 0, 3]);
    expected.extend_from_slice(&[0, 0, 0, 8]);
    expected.extend_from_slice(&[65, 2, 66, 1, 67, 2]);
    expected.push(0b1010_0011);
    assert_eq!(stream, expected);
}

#[test]
fn huffman_empty_in_empty_out() {
    assert_eq!(huffman_encode(&[]), Ok(vec![]));
    assert_eq!(huffman_decode(&[]), Ok(vec![]));
}

#[test]
fn huffman_single_distinct_byte() {
    let input = vec![9u8; 11];
    let stream = huffman_encode(&input).unwrap();
    let (table, bits) = read_frame(&stream[5..]).unwrap();
    assert_eq!(table, vec![(9u8, 1usize)]);
    assert_eq!(bits, vec![0u8; 11]);
    assert_eq!(huffman_decode(&stream), Ok(input));
    assert_eq!(huffman_decode(&huffman_encode(&[200]).unwrap()), Ok(vec![200]));
}

#[test]
fn huffman_round_trip_of_every_byte_value() {
    let mut input: Vec<u8> = Vec::new();
    for round in 0..7u32 {
        for byte in 0..=255u8 {
            if (byte as u32) % (round + 1) == 0 {
                input.push(byte);
            }
        }
    }
    let stream = huffman_encode(&input).unwrap();
    let (table, _) = read_frame(&stream[5..]).unwrap();
    assert_eq!(table.len(), 256);
    assert!(kraft_holds(&table));
    assert_eq!(huffman_decode(&stream), Ok(input));
}

#[test]
fn huffman_round_trip_of_skewed_data() {
    let mut input: Vec<u8> = Vec::new();
    let mut count = 1usize;
    for byte in 0..14u8 {
        input.extend(std::iter::repeat(byte).take(count));
        count *= 2;
    }
    let table = huffman_table(&input);
    assert_eq!(table.len(), 14);
    assert_eq!(table[13], (13u8, 1usize));
    assert_eq!(table[0].1, 13);
    assert_eq!(table[1].1, 13);
    assert!(kraft_holds(&table));
    let stream = huffman_encode(&input).unwrap();
    assert!(stream.len() < input.len());
    assert_eq!(huffman_decode(&stream), Ok(input));
}

#[test]
fn huffman_frequencies_are_counted() {
    let frequencies = calculate_byte_frequencies(&[0, 255, 0]);
    assert_eq!(frequencies.len(), 256);
    assert_eq!(frequencies[0], 2);
    assert_eq!(frequencies[255], 1);
    assert_eq!(frequencies.iter().sum::<usize>(), 3);
}

#[test]
fn huffman_tree_merges_the_lightest_first() {
    let frequencies = calculate_byte_frequencies(b"AABBC");
    let tree = generate_huffman_tree(&frequencies);
    assert_eq!(
        tree.nodes,
        vec![
            HuffmanNode::Leaf { weight: 2, byte: 65 },
            HuffmanNode::Leaf { weight: 2, byte: 66 },
            HuffmanNode::Leaf { weight: 1, byte: 67 },
            HuffmanNode::Internal { weight: 3, left: 2, right: 0 },
            HuffmanNode::Internal { weight: 5, left: 1, right: 3 },
        ]
    );
    let codes = generate_byte_codes(&tree);
    assert_eq!(codes[66], vec![0]);
    assert_eq!(codes[67], vec![1, 0]);
    assert_eq!(codes[65], vec![1, 1]);
    assert_eq!(codes[0], Vec::<u8>::new());
    assert_eq!(code_lengths(&codes), vec![(65, 2), (66, 1), (67, 2)]);
}

#[test]
fn huffman_tree_of_nothing_has_no_nodes() {
    let tree = generate_huffman_tree(&vec![0usize; 256]);
    assert!(tree.nodes.is_empty());
    assert!(generate_byte_codes(&tree).iter().all(|code| code.is_empty()));
}

#[test]
fn canonical_codes_follow_length_then_byte() {
    let codes = generate_canonical_codes(&[(65, 2), (66, 1), (67, 2)]).unwrap();
    assert_eq!(codes[66], Some(vec![0]));
    assert_eq!(codes[65], Some(vec![1, 0]));
    assert_eq!(codes[67], Some(vec![1, 1]));
    assert_eq!(codes[0], None);
    let codes = generate_canonical_codes(&[(0, 3), (5, 3), (10, 4)]).unwrap();
    assert_eq!(codes[0], Some(vec![0, 0, 0]));
    assert_eq!(codes[5], Some(vec![0, 0, 1]));
    assert_eq!(codes[10], Some(vec![0, 1, 0, 0]));
}

#[test]
fn canonical_codes_do_not_depend_on_the_order_of_the_pairs() {
    let one = generate_canonical_codes(&[(65, 2), (66, 1), (67, 2)]).unwrap();
    let other = generate_canonical_codes(&[(67, 2), (65, 2), (66, 1)]).unwrap();
    assert_eq!(one, other);
}

#[test]
fn canonical_codes_of_long_lengths() {
    let mut table: Vec<(u8, usize)> = (1..=254usize).map(|l| ((l - 1) as u8, l)).collect();
    table.push((254, 255));
    table.push((255, 255));
    let codes = generate_canonical_codes(&table).unwrap();
    assert_eq!(codes[0], Some(vec![0]));
    assert_eq!(codes[1], Some(vec![1, 0]));
    let last = codes[255].clone().unwrap();
    assert_eq!(last.len(), 255);
    assert!(last.iter().all(|bit| *bit == 1));
    let mut before = vec![1u8; 255];
    before[254] = 0;
    assert_eq!(codes[254], Some(before));
}

#[test]
fn canonical_codes_refuse_what_is_no_code_table() {
    assert_eq!(generate_canonical_codes(&[(1, 1), (2, 1), (3, 1)]), None);
    assert_eq!(generate_canonical_codes(&[(1, 0)]), None);
    assert_eq!(generate_canonical_codes(&[(1, 256)]), None);
    assert_eq!(generate_canonical_codes(&[(1, 2), (1, 3)]), None);
    assert!(generate_canonical_codes(&[]).unwrap().iter().all(|code| code.is_none()));
}

#[test]
fn trie_decodes_a_stream_of_codes() {
    let codes = generate_canonical_codes(&[(0, 2), (5, 2)]).unwrap();
    let compressed = compress_canonical(&[0, 5, 0], &codes);
    assert_eq!(compressed, vec![0, 0, 0, 1, 0, 0]);
    let root = build_decoding_tree(&codes);
    assert_eq!(decode_canonical(&compressed, &root), Ok(vec![0, 5, 0]));
    assert_eq!(decode_canonical(&[0, 1, 0], &root), Ok(vec![5]));
    assert_eq!(
        decode_canonical(&[1, 1], &root),
        Err(CodecError::CorruptInput("invalid code"))
    );
}

#[test]
fn trie_insert_makes_the_path() {
    let mut root = DecodeNode::new();
    root.insert(&[0, 1, 0], 42);
    let node = root.left.as_ref().unwrap().right.as_ref().unwrap().left.as_ref().unwrap();
    assert_eq!(node.byte, Some(42));
    assert!(root.right.is_none());
    assert_eq!(root.byte, None);
    assert_eq!(decode_canonical(&[0, 1, 0, 0, 1, 0], &root), Ok(vec![42, 42]));
}

#[test]
fn frame_layout_is_big_endian() {
    let bytes = write_data_canonical(&[(0, 2), (5, 2)], &[0, 0, 0, 1, 0, 0]);
    assert_eq!(bytes, vec![0, 0, 0, 2, 0, 0, 0, 6, 0, 2, 5, 2, 0b0001_0000]);
    assert_eq!(read_frame(&bytes), Ok((vec![(0, 2), (5, 2)], vec![0, 0, 0, 1, 0, 0])));
    assert_eq!(read_data_canonical(&bytes), Ok(vec![0, 5, 0]));
}

#[test]
fn frame_that_stops_short_is_corrupt() {
    let err = Err(CodecError::CorruptInput("truncated frame"));
    let bytes = write_data_canonical(&[(0, 2), (5, 2)], &[0, 0, 0, 1, 0, 0, 0, 1, 0, 1]);
    assert_eq!(bytes.len(), 14);
    assert_eq!(read_data_canonical(&bytes[..13]), err);
    assert_eq!(read_data_canonical(&bytes[..9]), err);
    assert_eq!(read_data_canonical(&bytes[..7]), err);
    assert_eq!(read_data_canonical(&[]), err);
    assert_eq!(read_data_canonical(&[0xff, 0xff, 0xff, 0xff, 0, 0, 0, 0]), err);
    assert_eq!(read_data_canonical(&bytes), Ok(vec![0, 5, 0, 5, 5]));
}

#[test]
fn frame_with_a_bad_table_is_corrupt() {
    let bytes = vec![0, 0, 0, 3, 0, 0, 0, 0, 1, 1, 2, 1, 3, 1];
    assert_eq!(
        read_data_canonical(&bytes),
        Err(CodecError::CorruptInput("invalid code table"))
    );
    let bytes = vec![0, 0, 0, 1, 0, 0, 0, 1, 7, 2, 0x80];
    assert_eq!(read_data_canonical(&bytes), Err(CodecError::CorruptInput("invalid code")));
}

#[test]
fn huffman_decoder_checks_the_header() {
    let stream = huffman_encode(b"abc").unwrap();
    let mut other = stream.clone();
    other[4] = 0x01;
    assert_eq!(huffman_decode(&other), Err(CodecError::UnsupportedAlgorithm(1)));
    other[0] = 0;
    assert_eq!(huffman_decode(&other), Err(CodecError::CorruptInput("bad magic")));
    assert_eq!(huffman_decode(&stream[..3]), Err(CodecError::CorruptInput("missing header")));
    assert_eq!(huffman_decode(&stream[..5]), Err(CodecError::CorruptInput("truncated frame")));
}

#[test]
fn encoding_with_a_given_table() {
    let table = vec![(b'a', 1usize), (b'b', 2), (b'c', 2)];
    let stream = encode_with_table(b"abca", &table).unwrap();
    assert_eq!(huffman_decode(&stream), Ok(b"abca".to_vec()));
    assert_eq!(
        encode_with_table(b"abcd", &table),
        Err(CodecError::CorruptInput("byte without code"))
    );
    assert_eq!(
        encode_with_table(b"a", &[(b'a', 1), (b'b', 1), (b'c', 1)]),
        Err(CodecError::CorruptInput("invalid code table"))
    );
    assert_eq!(encode_with_table(b"", &[(b'a', 0)]), Ok(vec![]));
}

#[test]
fn codes_longer_than_a_machine_word_round_trip() {
    let mut table: Vec<(u8, usize)> = (1..=70usize).map(|l| (l as u8, l)).collect();
    table.push((0, 70));
    let data: Vec<u8> = vec![0, 70, 1, 69, 33, 64, 65, 0, 2, 70];
    let stream = encode_with_table(&data, &table).unwrap();
    let (read, bits) = read_frame(&stream[5..]).unwrap();
    assert_eq!(read, table);
    assert_eq!(bits.len(), 70 + 70 + 1 + 69 + 33 + 64 + 65 + 70 + 2 + 70);
    assert_eq!(huffman_decode(&stream), Ok(data));
}

#[test]
fn huffman_round_trip_of_text() {
    let text = b"it was the best of times, it was the worst of times, it was the age of \
                 wisdom, it was the age of foolishness"
        .to_vec();
    let stream = huffman_encode(&text).unwrap();
    assert!(stream.len() < text.len() + 5 + 8 + 2 * 20);
    assert_eq!(huffman_decode(&stream), Ok(text));
}

#[test]
fn code_bits_beyond_the_length_field_are_too_many() {
    let mut table: Vec<(u8, usize)> = (1..=254usize).map(|l| ((l - 1) as u8, l)).collect();
    table.push((254, 255));
    table.push((255, 255));
    let fits = vec![255u8; 1000];
    assert!(encode_with_table(&fits, &table).is_ok());
    let data = vec![255u8; 16_843_010];
    assert_eq!(encode_with_table(&data, &table), Err(CodecError::InputTooLarge));
}
