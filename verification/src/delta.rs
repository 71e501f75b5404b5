//! First-order delta coding of a byte stream with 8-bit wrap-around
//! arithmetic, framed by the container header.

pub mod cli_parse;

use crate::container::{
    header_bytes, read_and_validate_header, validate_header, write_header, CodecError, DELTA_ID,
    HEADER_SIZE, lemma_header_round_trip, lemma_starts_with_header,
};
use vstd::prelude::*;
use vstd::slice::slice_subrange;

verus! {

/// The direction of a delta transformation.
#[derive(Debug, Clone, Copy, PartialEq, Eq, Structural)]
pub enum Transform {
    /// Replace each byte by its difference to the byte before it.
    Encode,
    /// Rebuild each byte from its difference to the byte before it.
    Decode,
}

/// The byte that precedes position `i` of a chunk whose predecessor is `prev`.
pub open spec fn predecessor(chunk: Seq<u8>, prev: u8, i: int) -> u8 {
    if i == 0 {
        prev
    } else {
        chunk[i - 1]
    }
}

/// The differences of `data` to its predecessors, the first one taken to `prev`.
pub open spec fn encode_chunk(data: Seq<u8>, prev: u8) -> Seq<u8> {
    Seq::new(data.len(), |i: int| data[i].wrapping_sub(predecessor(data, prev, i)))
}

/// The bytes whose differences are `deltas`, the first one taken to `prev`.
pub open spec fn decode_chunk(deltas: Seq<u8>, prev: u8) -> Seq<u8>
    decreases deltas.len(),
{
    if deltas.len() == 0 {
        Seq::empty()
    } else {
        let head = decode_chunk(deltas.drop_last(), prev);
        head.push(deltas.last().wrapping_add(predecessor(head, prev, head.len() as int)))
    }
}

/// What `transform_data_chunk` appends for a chunk.
pub open spec fn transform_chunk(data: Seq<u8>, prev: u8, direction: Transform) -> Seq<u8> {
    match direction {
        Transform::Encode => encode_chunk(data, prev),
        Transform::Decode => decode_chunk(data, prev),
    }
}

/// The value that seeds the chunk after `data`: the last plaintext byte seen.
pub open spec fn chunk_carry(data: Seq<u8>, prev: u8, direction: Transform) -> u8 {
    if data.len() == 0 {
        prev
    } else {
        match direction {
            Transform::Encode => data.last(),
            Transform::Decode => decode_chunk(data, prev).last(),
        }
    }
}

/// The delta payload of `data`: its first byte, then the difference of each
/// byte to the one before it.
pub open spec fn delta_payload(data: Seq<u8>) -> Seq<u8> {
    Seq::new(
        data.len(),
        |i: int|
            if i == 0 {
                data[0]
            } else {
                data[i].wrapping_sub(data[i - 1])
            },
    )
}

/// The plaintext of a delta payload: its first byte, then running sums.
pub open spec fn plain_of_payload(payload: Seq<u8>) -> Seq<u8> {
    if payload.len() == 0 {
        Seq::empty()
    } else {
        seq![payload[0]] + decode_chunk(payload.skip(1), payload[0])
    }
}

/// The delta container of `data`: empty for empty data, else header and payload.
pub open spec fn delta_encoded(data: Seq<u8>) -> Seq<u8> {
    if data.len() == 0 {
        Seq::empty()
    } else {
        header_bytes(DELTA_ID) + delta_payload(data)
    }
}

/// What decoding a delta container yields.
pub open spec fn delta_decoded(input: Seq<u8>) -> Result<Seq<u8>, CodecError> {
    if input.len() == 0 {
        Ok(Seq::empty())
    } else {
        match validate_header(input, DELTA_ID) {
            Ok(_) => Ok(plain_of_payload(input.skip(HEADER_SIZE as int))),
            Err(e) => Err(e),
        }
    }
}

/// Decoding yields as many bytes as there are differences.
pub proof fn lemma_decode_chunk_len(deltas: Seq<u8>, prev: u8)
    ensures
        decode_chunk(deltas, prev).len() == deltas.len(),
    decreases deltas.len(),
{
    if deltas.len() > 0 {
        lemma_decode_chunk_len(deltas.drop_last(), prev);
    }
}

/// Decoding undoes encoding, chunk by chunk and for every seed.
pub proof fn lemma_chunk_round_trip(data: Seq<u8>, prev: u8)
    ensures
        decode_chunk(encode_chunk(data, prev), prev) == data,
    decreases data.len(),
{
    if data.len() > 0 {
        let front = data.drop_last();
        let deltas = encode_chunk(data, prev);
        lemma_chunk_round_trip(front, prev);
        assert(deltas.drop_last() =~= encode_chunk(front, prev));
        let last = data.last();
        let before = predecessor(data, prev, data.len() - 1);
        assert(predecessor(front, prev, front.len() as int) == before);
        assert(last.wrapping_sub(before).wrapping_add(before) == last) by (bit_vector);
        assert(decode_chunk(deltas, prev) =~= data);
    }
}

/// Encoding undoes decoding, chunk by chunk and for every seed.
pub proof fn lemma_chunk_round_trip_back(deltas: Seq<u8>, prev: u8)
    ensures
        encode_chunk(decode_chunk(deltas, prev), prev) == deltas,
    decreases deltas.len(),
{
    lemma_decode_chunk_len(deltas, prev);
    if deltas.len() > 0 {
        let front = deltas.drop_last();
        let head = decode_chunk(front, prev);
        let plain = decode_chunk(deltas, prev);
        lemma_chunk_round_trip_back(front, prev);
        lemma_decode_chunk_len(front, prev);
        let before = predecessor(head, prev, head.len() as int);
        let d = deltas.last();
        assert(d.wrapping_add(before).wrapping_sub(before) == d) by (bit_vector);
        assert(plain.drop_last() =~= head);
        assert(predecessor(plain, prev, plain.len() - 1) == before);
        assert forall|i: int| 0 <= i < deltas.len() implies encode_chunk(plain, prev)[i]
            == deltas[i] by {
            if i < front.len() {
                assert(encode_chunk(head, prev)[i] == front[i]);
                assert(predecessor(plain, prev, i) == predecessor(head, prev, i));
            }
        }
        assert(encode_chunk(plain, prev) =~= deltas);
    }
}

/// The payload is the seed byte followed by the encoded rest.
pub proof fn lemma_payload_is_seed_then_chunk(data: Seq<u8>)
    requires
        data.len() > 0,
    ensures
        delta_payload(data) == seq![data[0]] + encode_chunk(data.skip(1), data[0]),
{
    assert(delta_payload(data) =~= seq![data[0]] + encode_chunk(data.skip(1), data[0]));
}

/// Decoding a delta payload restores the plaintext it was made from.
pub proof fn lemma_payload_round_trip(data: Seq<u8>)
    ensures
        plain_of_payload(delta_payload(data)) == data,
{
    if data.len() > 0 {
        lemma_payload_is_seed_then_chunk(data);
        let rest = encode_chunk(data.skip(1), data[0]);
        let payload = delta_payload(data);
        assert(payload.skip(1) =~= rest);
        lemma_chunk_round_trip(data.skip(1), data[0]);
        assert(seq![data[0]] + data.skip(1) =~= data);
    } else {
        assert(data =~= Seq::empty());
    }
}

/// Decoding a delta container restores the bytes it was encoded from, the
/// empty stream included.
pub proof fn lemma_delta_round_trip(data: Seq<u8>)
    ensures
        delta_decoded(delta_encoded(data)) == Ok::<Seq<u8>, CodecError>(data),
{
    if data.len() == 0 {
        assert(data =~= Seq::empty());
    } else {
        let payload = delta_payload(data);
        lemma_header_round_trip(DELTA_ID, payload);
        lemma_payload_round_trip(data);
        let stream = delta_encoded(data);
        assert(stream.skip(HEADER_SIZE as int) =~= payload);
    }
}

/// Nothing encodes to nothing and decodes to nothing.
pub proof fn lemma_delta_empty()
    ensures
        delta_encoded(Seq::empty()) == Seq::<u8>::empty(),
        delta_decoded(Seq::empty()) == Ok::<Seq<u8>, CodecError>(Seq::empty()),
{
}

/// The delta container of data that is not empty begins with the magic
/// bytes and the id of the delta transform, and its payload is as long as
/// the data.
pub proof fn lemma_delta_starts_with_header(data: Seq<u8>)
    requires
        data.len() >= 1,
    ensures
        delta_encoded(data).len() == HEADER_SIZE + data.len(),
        delta_encoded(data).subrange(0, HEADER_SIZE as int) == seq![
            0x50u8,
            0x50u8,
            0x43u8,
            0x42u8,
            DELTA_ID,
        ],
{
    lemma_starts_with_header(DELTA_ID, delta_payload(data));
}

/// Transforms one chunk and appends the result to `out`. `previous_value` is
/// the plaintext byte that precedes the chunk; the result is the plaintext
/// byte that precedes the next one.
pub fn transform_data_chunk(
    data: &[u8],
    out: &mut Vec<u8>,
    previous_value: u8,
    transform_type: Transform,
) -> (carry: u8)
    ensures
        final(out)@ == old(out)@ + transform_chunk(data@, previous_value, transform_type),
        carry == chunk_carry(data@, previous_value, transform_type),
{
    let mut previous_value = previous_value;
    let ghost seed = previous_value;
    let mut i: usize = 0;
    while i < data.len()
        invariant
            0 <= i <= data.len(),
            out@ == old(out)@ + transform_chunk(data@.take(i as int), seed, transform_type),
            previous_value == chunk_carry(data@.take(i as int), seed, transform_type),
        decreases data.len() - i,
    {
        let current_byte = data[i];
        let ghost done = data@.take(i as int);
        let ghost next = data@.take(i + 1);
        proof {
            assert(next.drop_last() =~= done);
            assert(next.last() == current_byte);
            lemma_decode_chunk_len(done, seed);
        }
        let delta_change = match transform_type {
            Transform::Encode => current_byte.wrapping_sub(previous_value),
            Transform::Decode => current_byte.wrapping_add(previous_value),
        };
        out.push(delta_change);
        match transform_type {
            Transform::Encode => {
                previous_value = current_byte;
            },
            Transform::Decode => {
                previous_value = delta_change;
            },
        }
        proof {
            match transform_type {
                Transform::Encode => {
                    assert(encode_chunk(next, seed) =~= encode_chunk(done, seed).push(
                        delta_change,
                    ));
                },
                Transform::Decode => {
                    assert(decode_chunk(next, seed) =~= decode_chunk(done, seed).push(
                        delta_change,
                    ));
                },
            }
            assert(out@ =~= old(out)@ + transform_chunk(next, seed, transform_type));
        }
        i += 1;
    }
    proof {
        assert(data@.take(data.len() as int) =~= data@);
    }
    previous_value
}

/// Copies the seed byte, the first byte of `input`, to `out` and returns it;
/// `None` when `input` is empty.
pub fn set_delta_seed(input: &[u8], out: &mut Vec<u8>) -> (seed: Option<u8>)
    ensures
        input@.len() == 0 ==> seed.is_none() && final(out)@ == old(out)@,
        input@.len() > 0 ==> seed == Some(input@[0]) && final(out)@ == old(out)@.push(input@[0]),
{
    if input.len() == 0 {
        None
    } else {
        out.push(input[0]);
        Some(input[0])
    }
}

/// Encodes `data` as a delta container.
pub fn delta_encode(data: &[u8]) -> (out: Vec<u8>)
    ensures
        out@ == delta_encoded(data@),
{
    let mut out: Vec<u8> = Vec::new();
    if data.len() == 0 {
        return out;
    }
    write_header(&mut out, DELTA_ID);
    let rest = slice_subrange(data, 1, data.len());
    match set_delta_seed(data, &mut out) {
        Some(seed) => {
            transform_data_chunk(rest, &mut out, seed, Transform::Encode);
            proof {
                lemma_payload_is_seed_then_chunk(data@);
                assert(data@.skip(1) =~= rest@);
                assert(out@ =~= delta_encoded(data@));
            }
        },
        None => {},
    }
    out
}

/// Decodes a delta container. The empty stream decodes to the empty stream;
/// any other stream must start with the header of the delta transform.
pub fn delta_decode(input: &[u8]) -> (r: Result<Vec<u8>, CodecError>)
    ensures
        match delta_decoded(input@) {
            Ok(plain) => r.is_ok() && r.unwrap()@ == plain,
            Err(e) => r == Err::<Vec<u8>, CodecError>(e),
        },
{
    let mut out: Vec<u8> = Vec::new();
    if input.len() == 0 {
        return Ok(out);
    }
    match read_and_validate_header(input, DELTA_ID) {
        Err(e) => Err(e),
        Ok(_) => {
            let payload = slice_subrange(input, HEADER_SIZE, input.len());
            assert(payload@ =~= input@.skip(HEADER_SIZE as int));
            match set_delta_seed(payload, &mut out) {
                Some(seed) => {
                    let rest = slice_subrange(payload, 1, payload.len());
                    transform_data_chunk(rest, &mut out, seed, Transform::Decode);
                    proof {
                        assert(rest@ =~= payload@.skip(1));
                        assert(out@ =~= plain_of_payload(payload@));
                    }
                },
                None => {
                    assert(out@ =~= plain_of_payload(payload@));
                },
            }
            Ok(out)
        },
    }
}

/// Transforms the content of a file: encodes it as a delta container, or
/// decodes a delta container.
pub fn process_data(input: &[u8], transform_type: Transform) -> (r: Result<Vec<u8>, CodecError>)
    ensures
        match transform_type {
            Transform::Encode => r.is_ok() && r.unwrap()@ == delta_encoded(input@),
            Transform::Decode => match delta_decoded(input@) {
                Ok(plain) => r.is_ok() && r.unwrap()@ == plain,
                Err(e) => r == Err::<Vec<u8>, CodecError>(e),
            },
        },
{
    match transform_type {
        Transform::Encode => Ok(delta_encode(input)),
        Transform::Decode => delta_decode(input),
    }
}

} // verus!
