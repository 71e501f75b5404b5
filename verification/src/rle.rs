//! Run-length coding in two payload formats, the rule that picks one of them
//! for a file, and their container.

pub mod auto;
pub mod cli_parse;
pub mod codec;

use crate::container::{
    header_bytes, lemma_header_round_trip, lemma_starts_with_header, parse_header, read_header,
    write_header, CodecError, HEADER_SIZE, RLE_V1_ID, RLE_V2_ID,
};
use crate::rle::auto::{auto_choice, auto_select, valid_samples};
use crate::rle::cli_parse::Version;
use crate::rle::codec::{
    compress_v1, compress_v2, decoded_v1, decoded_v2, decompress_v1, decompress_v2,
    lemma_rle_v1_len, lemma_rle_v1_round_trip, lemma_rle_v2_not_empty, lemma_rle_v2_round_trip,
    rle_v1, rle_v2,
};
use vstd::prelude::*;
use vstd::slice::slice_subrange;

verus! {

/// The payload of `data` in the format `version`, which is not `Auto`.
pub open spec fn rle_payload(data: Seq<u8>, version: Version) -> Seq<u8> {
    match version {
        Version::Two => rle_v2(data),
        _ => rle_v1(data),
    }
}

/// The algorithm id that the header of a payload in the format `version`
/// carries.
pub open spec fn algorithm_id(version: Version) -> u8 {
    match version {
        Version::Two => RLE_V2_ID,
        _ => RLE_V1_ID,
    }
}

/// The run-length container of `data` in the format `version`: empty for
/// empty data, else header and payload.
pub open spec fn rle_encoded(data: Seq<u8>, version: Version) -> Seq<u8> {
    if data.len() == 0 {
        Seq::empty()
    } else {
        header_bytes(algorithm_id(version)) + rle_payload(data, version)
    }
}

/// Whether a decoder asked for `expected` reads streams in the format
/// `found`: `Auto` reads both.
pub open spec fn accepts(expected: Version, found: Version) -> bool {
    expected == Version::Auto || expected == found
}

/// What decoding a run-length container for `version` yields. The header
/// names the format of the payload; it must be the one asked for.
pub open spec fn rle_decoded(input: Seq<u8>, version: Version) -> Result<Seq<u8>, CodecError> {
    if input.len() == 0 {
        Ok(Seq::empty())
    } else {
        match parse_header(input) {
            Err(e) => Err(e),
            Ok(id) => if id == RLE_V1_ID && accepts(version, Version::One) {
                decoded_v1(input.skip(HEADER_SIZE as int))
            } else if id == RLE_V2_ID && accepts(version, Version::Two) {
                decoded_v2(input.skip(HEADER_SIZE as int))
            } else {
                Err(CodecError::UnsupportedAlgorithm(id))
            },
        }
    }
}

/// Decoding a run-length container restores the bytes it was encoded from,
/// in either format, whether the decoder is asked for that format or left to
/// read it from the header.
pub proof fn lemma_rle_round_trip(data: Seq<u8>, written: Version, expected: Version)
    requires
        written != Version::Auto,
        accepts(expected, written),
    ensures
        rle_decoded(rle_encoded(data, written), expected) == Ok::<Seq<u8>, CodecError>(data),
{
    if data.len() == 0 {
        assert(data =~= Seq::empty());
    } else {
        let payload = rle_payload(data, written);
        let stream = rle_encoded(data, written);
        lemma_header_round_trip(algorithm_id(written), payload);
        assert(stream.skip(HEADER_SIZE as int) =~= payload);
        lemma_rle_v1_round_trip(data);
        lemma_rle_v2_round_trip(data);
    }
}

/// Nothing encodes to nothing and decodes to nothing, in either format.
pub proof fn lemma_rle_empty(version: Version)
    ensures
        rle_v1(Seq::empty()) == Seq::<u8>::empty(),
        rle_v2(Seq::empty()) == Seq::<u8>::empty(),
        decoded_v1(Seq::empty()) == Ok::<Seq<u8>, CodecError>(Seq::empty()),
        decoded_v2(Seq::empty()) == Ok::<Seq<u8>, CodecError>(Seq::empty()),
        rle_encoded(Seq::empty(), version) == Seq::<u8>::empty(),
        rle_decoded(Seq::empty(), version) == Ok::<Seq<u8>, CodecError>(Seq::empty()),
{
}

/// The run-length container of data that is not empty begins with the
/// magic bytes and the id of the format of its payload.
pub proof fn lemma_rle_starts_with_header(data: Seq<u8>, version: Version)
    requires
        data.len() >= 1,
    ensures
        rle_encoded(data, version).len() > HEADER_SIZE,
        rle_encoded(data, version).subrange(0, HEADER_SIZE as int) == seq![
            0x50u8,
            0x50u8,
            0x43u8,
            0x42u8,
            algorithm_id(version),
        ],
{
    lemma_starts_with_header(algorithm_id(version), rle_payload(data, version));
    lemma_rle_v1_len(data);
    lemma_rle_v2_not_empty(data);
}

/// Compresses `data` into a run-length container. With `Auto` the format is
/// chosen from samples of the data; the format that was used is returned
/// beside the container.
pub fn compress_data(data: &[u8], version: Version) -> (r: (Vec<u8>, Version))
    ensures
        r.1 != Version::Auto,
        version != Version::Auto ==> r.1 == version,
        version == Version::Auto ==> exists|chunks: Seq<Seq<u8>>|
            #[trigger] valid_samples(chunks, data@) && r.1 == auto_choice(chunks),
        r.0@ == rle_encoded(data@, r.1),
{
    let chosen = match version {
        Version::One => Version::One,
        Version::Two => Version::Two,
        Version::Auto => auto_select(data),
    };
    let mut out: Vec<u8> = Vec::new();
    if data.len() == 0 {
        return (out, chosen);
    }
    match chosen {
        Version::Two => {
            write_header(&mut out, RLE_V2_ID);
            let mut payload = compress_v2(data);
            out.append(&mut payload);
        },
        _ => {
            write_header(&mut out, RLE_V1_ID);
            let mut payload = compress_v1(data);
            out.append(&mut payload);
        },
    }
    (out, chosen)
}

/// Decompresses a run-length container. The empty stream decodes to the
/// empty stream; any other stream must start with a header that names the
/// format asked for, or either format if `version` is `Auto`.
pub fn decompress_data(input: &[u8], version: Version) -> (r: Result<Vec<u8>, CodecError>)
    ensures
        match rle_decoded(input@, version) {
            Ok(plain) => r.is_ok() && r.unwrap()@ == plain,
            Err(e) => r == Err::<Vec<u8>, CodecError>(e),
        },
{
    if input.len() == 0 {
        return Ok(Vec::new());
    }
    match read_header(input) {
        Err(e) => Err(e),
        Ok(id) => {
            let payload = slice_subrange(input, HEADER_SIZE, input.len());
            assert(payload@ =~= input@.skip(HEADER_SIZE as int));
            let first = match version {
                Version::Two => false,
                _ => true,
            };
            let second = match version {
                Version::One => false,
                _ => true,
            };
            if id == RLE_V1_ID && first {
                decompress_v1(payload)
            } else if id == RLE_V2_ID && second {
                decompress_v2(payload)
            } else {
                Err(CodecError::UnsupportedAlgorithm(id))
            }
        },
    }
}

} // verus!
