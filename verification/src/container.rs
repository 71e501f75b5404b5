//! The five-byte container header that tags every encoded stream.

use vstd::prelude::*;

verus! {

/// Length of the container header: four magic bytes and one algorithm id.
pub const HEADER_SIZE: usize = 5;

/// Algorithm id of the first-order delta transform.
pub const DELTA_ID: u8 = 0x01;

/// Algorithm id of the canonical Huffman codec.
pub const HUFFMAN_ID: u8 = 0x02;

/// Algorithm id of pair-encoded run-length coding.
pub const RLE_V1_ID: u8 = 0x03;

/// Algorithm id of hybrid run-length coding with an escape byte.
pub const RLE_V2_ID: u8 = 0x04;

/// Why a stream could not be decoded.
#[derive(Debug, Clone, PartialEq, Eq)]
pub enum CodecError {
    /// The stream is not a well-formed container or payload.
    CorruptInput(&'static str),
    /// The header is intact but names an algorithm the decoder does not handle.
    UnsupportedAlgorithm(u8),
    /// The data cannot be encoded: a length field of the format is too
    /// narrow for it.
    InputTooLarge,
}

/// The magic bytes `"PPCB"`.
pub open spec fn magic() -> Seq<u8> {
    seq![0x50u8, 0x50u8, 0x43u8, 0x42u8]
}

/// The header of a stream produced by algorithm `id`.
pub open spec fn header_bytes(id: u8) -> Seq<u8> {
    magic().push(id)
}

/// Whether `input` starts with the magic bytes.
pub open spec fn has_magic(input: Seq<u8>) -> bool {
    input.len() >= 4 && input.subrange(0, 4) == magic()
}

/// What reading a header from `input` yields: the algorithm id, or the reason
/// the header is unusable.
pub open spec fn parse_header(input: Seq<u8>) -> Result<u8, CodecError> {
    if input.len() < HEADER_SIZE {
        Err(CodecError::CorruptInput("missing header"))
    } else if !has_magic(input) {
        Err(CodecError::CorruptInput("bad magic"))
    } else {
        Ok(input[4])
    }
}

/// What a decoder for algorithm `expected` makes of the header of `input`.
pub open spec fn validate_header(input: Seq<u8>, expected: u8) -> Result<u8, CodecError> {
    match parse_header(input) {
        Ok(id) => if id == expected {
            Ok(id)
        } else {
            Err(CodecError::UnsupportedAlgorithm(id))
        },
        Err(e) => Err(e),
    }
}

/// Appends the container header for algorithm `id` to `out`.
pub fn write_header(out: &mut Vec<u8>, id: u8)
    ensures
        final(out)@ == old(out)@ + header_bytes(id),
{
    out.push(0x50);
    out.push(0x50);
    out.push(0x43);
    out.push(0x42);
    out.push(id);
}

/// Reads the header at the start of `input` and returns its algorithm id.
pub fn read_header(input: &[u8]) -> (r: Result<u8, CodecError>)
    ensures
        r == parse_header(input@),
{
    if input.len() < HEADER_SIZE {
        return Err(CodecError::CorruptInput("missing header"));
    }
    if input[0] != 0x50 || input[1] != 0x50 || input[2] != 0x43 || input[3] != 0x42 {
        assert(input@.subrange(0, 4)[0] == input@[0]);
        assert(input@.subrange(0, 4)[1] == input@[1]);
        assert(input@.subrange(0, 4)[2] == input@[2]);
        assert(input@.subrange(0, 4)[3] == input@[3]);
        return Err(CodecError::CorruptInput("bad magic"));
    }
    assert(input@.subrange(0, 4) =~= magic());
    Ok(input[4])
}

/// Reads the header at the start of `input` on behalf of the decoder for
/// algorithm `expected`; the payload starts at offset `HEADER_SIZE`.
pub fn read_and_validate_header(input: &[u8], expected: u8) -> (r: Result<u8, CodecError>)
    ensures
        r == validate_header(input@, expected),
{
    match read_header(input) {
        Ok(id) => {
            if id == expected {
                Ok(id)
            } else {
                Err(CodecError::UnsupportedAlgorithm(id))
            }
        },
        Err(e) => Err(e),
    }
}

/// A written header is read back as the id it was written with, whatever
/// follows it.
pub proof fn lemma_header_round_trip(id: u8, payload: Seq<u8>)
    ensures
        parse_header(header_bytes(id) + payload) == Ok::<u8, CodecError>(id),
        validate_header(header_bytes(id) + payload, id) == Ok::<u8, CodecError>(id),
        (header_bytes(id) + payload).skip(HEADER_SIZE as int) == payload,
{
    let stream = header_bytes(id) + payload;
    assert(stream.subrange(0, 4) =~= magic());
    assert(stream.skip(HEADER_SIZE as int) =~= payload);
}

/// A stream that is made of a header and a payload begins with the magic
/// bytes and the algorithm id.
pub proof fn lemma_starts_with_header(id: u8, payload: Seq<u8>)
    ensures
        (header_bytes(id) + payload).len() == HEADER_SIZE + payload.len(),
        (header_bytes(id) + payload).subrange(0, HEADER_SIZE as int) == seq![
            0x50u8,
            0x50u8,
            0x43u8,
            0x42u8,
            id,
        ],
{
    assert((header_bytes(id) + payload).subrange(0, HEADER_SIZE as int) =~= seq![
        0x50u8,
        0x50u8,
        0x43u8,
        0x42u8,
        id,
    ]);
}

} // verus!
