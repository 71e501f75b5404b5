use purgepack::container::CodecError;
use purgepack::rle::auto::{auto_choice_from_chunks, auto_select, read_multiple_random_chunks};
use purgepack::rle::cli_parse::Version;
use purgepack::rle::codec::{
    compress_v1, compress_v2, decompress_v1, decompress_v2, push_to_compressed_data,
};
use purgepack::rle::{compress_data, decompress_data};

#[test]
fn rle_v1_scenario() {
    let input: Vec<u8> = vec![65, 65, 65, 66, 66, 67];
    let payload = compress_v1(&input);
    assert_eq!(payload, vec![3, 65, 2, 66, 1, 67]);
    assert_eq!(decompress_v1(&payload), Ok(input));
}

#[test]
fn rle_v1_without_runs_doubles() {
    assert_eq!(compress_v1(&[1, 2, 3, 4, 5]), vec![1, 1, 1, 2, 1, 3, 1, 4, 1, 5]);
}

#[test]
fn rle_v1_splits_long_runs() {
    let input = vec![4u8; 268];
    let payload = compress_v1(&input);
    assert_eq!(payload, vec![255, 4, 13, 4]);
    assert_eq!(decompress_v1(&payload), Ok(input));
}

#[test]
fn rle_v1_length_is_even_and_bounded() {
    let inputs: Vec<Vec<u8>> = vec![
        vec![],
        vec![0],
        vec![9; 255],
        vec![9; 256],
        (0..200u8).collect(),
        vec![1, 1, 2, 2, 2, 3, 0, 0, 0, 0],
    ];
    for input in inputs {
        let payload = compress_v1(&input);
        assert_eq!(payload.len() % 2, 0);
        assert!(payload.len() <= 2 * input.len());
        assert_eq!(decompress_v1(&payload), Ok(input));
    }
}

#[test]
fn rle_v1_rejects_odd_length() {
    assert_eq!(decompress_v1(&[1, 2, 3]), Err(CodecError::CorruptInput("odd payload length")));
}

#[test]
fn rle_v1_zero_count_stands_for_nothing() {
    assert_eq!(decompress_v1(&[0, 7, 2, 8]), Ok(vec![8, 8]));
}

#[test]
fn rle_v2_long_run_scenario() {
    assert_eq!(compress_v2(&[1, 6, 6, 6, 6, 6, 7]), vec![1, 0x00, 5, 6, 7]);
    assert_eq!(decompress_v2(&[1, 0x00, 5, 6, 7]), Ok(vec![1, 6, 6, 6, 6, 6, 7]));
}

#[test]
fn rle_v2_escape_byte_scenario() {
    assert_eq!(compress_v2(&[0x00, 0x00]), vec![0x00, 2, 0x00]);
    assert_eq!(decompress_v2(&[0x00, 2, 0x00, 99]), Ok(vec![0, 0, 99]));
}

#[test]
fn rle_v2_short_runs_stay_literal() {
    let input: Vec<u8> = vec![1, 2, 3, 4, 4, 5, 5, 5];
    assert_eq!(compress_v2(&input), input);
}

#[test]
fn rle_v2_splits_long_runs() {
    let input = vec![4u8; 268];
    let payload = compress_v2(&input);
    assert_eq!(payload, vec![0, 255, 4, 0, 13, 4]);
    assert_eq!(decompress_v2(&payload), Ok(input));
}

#[test]
fn rle_v2_rejects_truncated_escape() {
    let err = Err(CodecError::CorruptInput("truncated escape sequence"));
    assert_eq!(decompress_v2(&[5, 0]), err);
    assert_eq!(decompress_v2(&[5, 0, 3]), err);
    assert_eq!(decompress_v2(&[0, 3, 9]), Ok(vec![9, 9, 9]));
}

#[test]
fn rle_v2_round_trip() {
    let inputs: Vec<Vec<u8>> = vec![
        vec![],
        vec![0],
        vec![0, 1, 0, 1],
        vec![7; 1000],
        (0..=255u8).collect(),
        vec![3, 3, 3, 3, 0, 0, 0, 0, 0, 5],
    ];
    for input in inputs {
        assert_eq!(decompress_v2(&compress_v2(&input)), Ok(input));
    }
}

#[test]
fn rle_v2_record_of_a_run() {
    let mut out = vec![9];
    push_to_compressed_data(&mut out, 3, 7);
    assert_eq!(out, vec![9, 7, 7, 7]);
    push_to_compressed_data(&mut out, 4, 7);
    assert_eq!(out, vec![9, 7, 7, 7, 0, 4, 7]);
    push_to_compressed_data(&mut out, 1, 0);
    assert_eq!(out, vec![9, 7, 7, 7, 0, 4, 7, 0, 1, 0]);
}

fn pseudo_random_without_zero_or_runs(len: usize) -> Vec<u8> {
    let mut state: u32 = 0x2545_f491;
    let mut out: Vec<u8> = Vec::with_capacity(len);
    while out.len() < len {
        state ^= state << 13;
        state ^= state >> 17;
        state ^= state << 5;
        let byte = (state % 255) as u8 + 1;
        if out.last() != Some(&byte) {
            out.push(byte);
        }
    }
    out
}

#[test]
fn rle_auto_picks_v2_for_noise() {
    let input = pseudo_random_without_zero_or_runs(2048);
    assert!(input.iter().all(|b| *b != 0));
    assert_eq!(auto_select(&input), Version::Two);
    let (stream, version) = compress_data(&input, Version::Auto);
    assert_eq!(version, Version::Two);
    assert_eq!(stream[4], 0x04);
    assert_eq!(&stream[5..], &input[..]);
    assert_eq!(decompress_data(&stream, Version::Auto), Ok(input));
}

#[test]
fn rle_auto_picks_v1_for_long_runs() {
    let mut input: Vec<u8> = Vec::new();
    while input.len() < 2048 {
        let byte = if (input.len() / 100) % 2 == 0 { 0xAA } else { 0xBB };
        input.push(byte);
    }
    assert_eq!(auto_select(&input), Version::One);
    let (stream, version) = compress_data(&input, Version::Auto);
    assert_eq!(version, Version::One);
    assert_eq!(&stream[..5], &[0x50, 0x50, 0x43, 0x42, 0x03]);
    assert_eq!(decompress_data(&stream, Version::Auto), Ok(input));
}

#[test]
fn rle_auto_choice_counts_strict_wins() {
    let v1_wins = vec![0xAAu8; 10];
    let v2_wins = vec![1u8, 2, 3];
    let tie: Vec<u8> = vec![];
    assert_eq!(auto_choice_from_chunks(&vec![v1_wins.clone(), v2_wins.clone()]), Version::One);
    assert_eq!(
        auto_choice_from_chunks(&vec![v1_wins.clone(), v2_wins.clone(), v2_wins.clone()]),
        Version::Two
    );
    assert_eq!(
        auto_choice_from_chunks(&vec![v1_wins.clone(), v1_wins, v2_wins, tie]),
        Version::One
    );
    assert_eq!(auto_choice_from_chunks(&vec![]), Version::One);
}

#[test]
fn rle_samples_of_small_and_large_data() {
    assert_eq!(read_multiple_random_chunks(&[]), Vec::<Vec<u8>>::new());
    let small: Vec<u8> = (0..100u8).collect();
    assert_eq!(read_multiple_random_chunks(&small), vec![small.clone()]);
    let exact = vec![5u8; 1024];
    assert_eq!(read_multiple_random_chunks(&exact), vec![exact.clone()]);
    let large: Vec<u8> = (0..5000u32).map(|i| (i % 251) as u8).collect();
    let chunks = read_multiple_random_chunks(&large);
    assert_eq!(chunks.len(), 5);
    for chunk in &chunks {
        assert_eq!(chunk.len(), 1024);
        assert!(large.windows(1024).any(|w| w == &chunk[..]));
    }
    assert_eq!(chunks, read_multiple_random_chunks(&large));
}

#[test]
fn rle_container_carries_the_version() {
    let input: Vec<u8> = vec![1, 1, 1, 1, 1, 2];
    let (one, chosen) = compress_data(&input, Version::One);
    assert_eq!(chosen, Version::One);
    assert_eq!(one, vec![0x50, 0x50, 0x43, 0x42, 0x03, 5, 1, 1, 2]);
    let (two, chosen) = compress_data(&input, Version::Two);
    assert_eq!(chosen, Version::Two);
    assert_eq!(two, vec![0x50, 0x50, 0x43, 0x42, 0x04, 0, 5, 1, 2]);
    assert_eq!(decompress_data(&one, Version::One), Ok(input.clone()));
    assert_eq!(decompress_data(&two, Version::Two), Ok(input.clone()));
    assert_eq!(decompress_data(&one, Version::Two), Err(CodecError::UnsupportedAlgorithm(3)));
    assert_eq!(decompress_data(&two, Version::One), Err(CodecError::UnsupportedAlgorithm(4)));
    assert_eq!(decompress_data(&two, Version::Auto), Ok(input));
}

#[test]
fn rle_container_of_nothing_is_nothing() {
    assert_eq!(compress_data(&[], Version::One), (vec![], Version::One));
    assert_eq!(compress_data(&[], Version::Two), (vec![], Version::Two));
    assert_eq!(decompress_data(&[], Version::Auto), Ok(vec![]));
}

#[test]
fn rle_container_rejects_foreign_streams() {
    assert_eq!(
        decompress_data(&[0x50, 0x50, 0x43, 0x42, 0x01, 1], Version::Auto),
        Err(CodecError::UnsupportedAlgorithm(1))
    );
    assert_eq!(
        decompress_data(&[1, 2, 3, 4, 5, 6], Version::Auto),
        Err(CodecError::CorruptInput("bad magic"))
    );
    assert_eq!(
        decompress_data(&[0x50, 0x50, 0x43, 0x42, 0x03, 1], Version::Auto),
        Err(CodecError::CorruptInput("odd payload length"))
    );
}

#[test]
fn rle_version_names() {
    assert_eq!(Version::One.name(), "1");
    assert_eq!(Version::Two.name(), "2");
    assert_eq!(Version::Auto.name(), "auto");
}

#[test]
fn rle_auto_select_takes_small_data_whole() {
    assert_eq!(auto_select(&[0xAA; 10]), Version::One);
    assert_eq!(auto_select(&[1, 2, 3]), Version::Two);
    assert_eq!(auto_select(&[1, 1, 1, 1]), Version::One);
    assert_eq!(auto_select(&[]), Version::One);
}
