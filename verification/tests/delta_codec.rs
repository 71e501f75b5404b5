use purgepack::container::{read_and_validate_header, read_header, write_header, CodecError};
use purgepack::delta::{
    delta_decode, delta_encode, set_delta_seed, transform_data_chunk, Transform,
};

#[test]
fn delta_scenario_encodes_differences() {
    let input: Vec<u8> = vec![10, 15, 12, 16];
    let encoded = delta_encode(&input);
    assert_eq!(encoded, vec![0x50, 0x50, 0x43, 0x42, 0x01, 10, 5, 253, 4]);
}

#[test]
fn delta_scenario_decodes_back() {
    let stream: Vec<u8> = vec![0x50, 0x50, 0x43, 0x42, 0x01, 10, 5, 253, 4];
    assert_eq!(delta_decode(&stream), Ok(vec![10, 15, 12, 16]));
}

#[test]
fn delta_empty_in_empty_out() {
    assert_eq!(delta_encode(&[]), Vec::<u8>::new());
    assert_eq!(delta_decode(&[]), Ok(Vec::new()));
}

#[test]
fn delta_header_only_decodes_to_nothing() {
    assert_eq!(delta_decode(&[0x50, 0x50, 0x43, 0x42, 0x01]), Ok(Vec::new()));
}

#[test]
fn delta_round_trip_wraps_around() {
    let input: Vec<u8> = (0..=255u8).rev().chain([0, 255, 1, 254, 128, 127]).collect();
    let encoded = delta_encode(&input);
    assert_eq!(&encoded[..5], &[0x50, 0x50, 0x43, 0x42, 0x01]);
    assert_eq!(encoded[5], 255);
    assert_eq!(encoded[6], 255);
    assert_eq!(delta_decode(&encoded), Ok(input));
}

#[test]
fn delta_rejects_bad_magic() {
    let stream: Vec<u8> = vec![0x50, 0x50, 0x43, 0x43, 0x01, 10];
    assert_eq!(delta_decode(&stream), Err(CodecError::CorruptInput("bad magic")));
}

#[test]
fn delta_rejects_short_header() {
    assert_eq!(delta_decode(&[0x50, 0x50]), Err(CodecError::CorruptInput("missing header")));
}

#[test]
fn delta_rejects_other_algorithm() {
    let stream: Vec<u8> = vec![0x50, 0x50, 0x43, 0x42, 0x02, 10];
    assert_eq!(delta_decode(&stream), Err(CodecError::UnsupportedAlgorithm(2)));
}

#[test]
fn delta_chunk_encode_and_decode_carry_the_seed() {
    let mut out = Vec::new();
    let carry = transform_data_chunk(&[15, 12, 16], &mut out, 10, Transform::Encode);
    assert_eq!(out, vec![5, 253, 4]);
    assert_eq!(carry, 16);
    let mut back = Vec::new();
    let carry = transform_data_chunk(&out, &mut back, 10, Transform::Decode);
    assert_eq!(back, vec![15, 12, 16]);
    assert_eq!(carry, 16);
}

#[test]
fn delta_chunks_compose() {
    let data: Vec<u8> = vec![1, 200, 3, 77, 77, 0, 255];
    let mut whole = Vec::new();
    transform_data_chunk(&data, &mut whole, 9, Transform::Encode);
    let mut parts = Vec::new();
    let carry = transform_data_chunk(&data[..3], &mut parts, 9, Transform::Encode);
    transform_data_chunk(&data[3..], &mut parts, carry, Transform::Encode);
    assert_eq!(whole, parts);
}

#[test]
fn delta_seed_is_copied() {
    let mut out = vec![7];
    assert_eq!(set_delta_seed(&[42, 1], &mut out), Some(42));
    assert_eq!(out, vec![7, 42]);
    assert_eq!(set_delta_seed(&[], &mut out), None);
    assert_eq!(out, vec![7, 42]);
}

#[test]
fn header_is_magic_then_id() {
    let mut out = Vec::new();
    write_header(&mut out, 0x03);
    assert_eq!(out, b"PPCB\x03".to_vec());
    assert_eq!(read_header(&out), Ok(3));
    assert_eq!(read_and_validate_header(&out, 3), Ok(3));
    assert_eq!(read_and_validate_header(&out, 4), Err(CodecError::UnsupportedAlgorithm(3)));
}
