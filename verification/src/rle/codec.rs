//! The two run-length payload formats: pairs of count and byte, and literal
//! bytes mixed with escaped runs.

use crate::container::CodecError;
use vstd::prelude::*;

verus! {

/// The longest run one pair or triplet can record.
pub const MAX_RUN_LENGTH: u8 = 255;

/// The byte that introduces an escaped run in the hybrid format.
pub const ESCAPE_BYTE: u8 = 0;

/// `count` copies of `byte`.
pub open spec fn repeat(byte: u8, count: nat) -> Seq<u8> {
    Seq::new(count, |i: int| byte)
}

/// How many bytes at the start of `data` equal its first byte.
pub open spec fn run_length(data: Seq<u8>) -> nat
    decreases data.len(),
{
    if data.len() == 0 {
        0
    } else if data.len() >= 2 && data[1] == data[0] {
        1 + run_length(data.skip(1))
    } else {
        1
    }
}

/// The length of the first run that is recorded: the leading run, cut at
/// `MAX_RUN_LENGTH`.
pub open spec fn first_run(data: Seq<u8>) -> nat {
    if run_length(data) > MAX_RUN_LENGTH {
        MAX_RUN_LENGTH as nat
    } else {
        run_length(data)
    }
}

/// The pair-encoded payload of `data`: for each run, its count and its byte.
pub open spec fn rle_v1(data: Seq<u8>) -> Seq<u8>
    decreases data.len(),
    via rle_v1_decreases
{
    if data.len() == 0 {
        Seq::empty()
    } else {
        seq![first_run(data) as u8, data[0]] + rle_v1(data.skip(first_run(data) as int))
    }
}

/// The first run is not empty, so less data is left behind it.
#[via_fn]
proof fn rle_v1_decreases(data: Seq<u8>) {
    lemma_run_length_bounds(data);
}

/// The bytes a pair-encoded payload stands for. A trailing single byte, which
/// no encoder writes, stands for nothing.
pub open spec fn unrle_v1(pairs: Seq<u8>) -> Seq<u8>
    decreases pairs.len(),
{
    if pairs.len() < 2 {
        Seq::empty()
    } else {
        repeat(pairs[1], pairs[0] as nat) + unrle_v1(pairs.skip(2))
    }
}

/// What decoding a pair-encoded payload yields.
pub open spec fn decoded_v1(pairs: Seq<u8>) -> Result<Seq<u8>, CodecError> {
    if pairs.len() % 2 != 0 {
        Err(CodecError::CorruptInput("odd payload length"))
    } else {
        Ok(unrle_v1(pairs))
    }
}

/// How the hybrid format records a run of `count` copies of `byte`: escaped
/// when the run is longer than three or made of the escape byte, literal
/// otherwise.
pub open spec fn run_token(count: nat, byte: u8) -> Seq<u8> {
    if count > 3 || byte == ESCAPE_BYTE {
        seq![ESCAPE_BYTE, count as u8, byte]
    } else {
        repeat(byte, count)
    }
}

/// The hybrid payload of `data`.
pub open spec fn rle_v2(data: Seq<u8>) -> Seq<u8>
    decreases data.len(),
    via rle_v2_decreases
{
    if data.len() == 0 {
        Seq::empty()
    } else {
        run_token(first_run(data), data[0]) + rle_v2(data.skip(first_run(data) as int))
    }
}

/// The first run is not empty, so less data is left behind it.
#[via_fn]
proof fn rle_v2_decreases(data: Seq<u8>) {
    lemma_run_length_bounds(data);
}

/// What decoding a hybrid payload yields: literals stand for themselves, an
/// escape byte needs a count and a byte behind it.
pub open spec fn decoded_v2(payload: Seq<u8>) -> Result<Seq<u8>, CodecError>
    decreases payload.len(),
{
    if payload.len() == 0 {
        Ok(Seq::empty())
    } else if payload[0] != ESCAPE_BYTE {
        match decoded_v2(payload.skip(1)) {
            Ok(rest) => Ok(seq![payload[0]] + rest),
            Err(e) => Err(e),
        }
    } else if payload.len() < 3 {
        Err(CodecError::CorruptInput("truncated escape sequence"))
    } else {
        match decoded_v2(payload.skip(3)) {
            Ok(rest) => Ok(repeat(payload[2], payload[1] as nat) + rest),
            Err(e) => Err(e),
        }
    }
}

/// Whether the four bytes of `data` from position `i` on are equal.
pub open spec fn four_equal_at(data: Seq<u8>, i: int) -> bool {
    data[i] == data[i + 1] && data[i + 1] == data[i + 2] && data[i + 2] == data[i + 3]
}

/// Whether `data` holds no escape byte and no four equal bytes in a row.
pub open spec fn plain_for_v2(data: Seq<u8>) -> bool {
    &&& forall|i: int| 0 <= i < data.len() ==> data[i] != ESCAPE_BYTE
    &&& forall|i: int| 0 <= i && i + 3 < data.len() ==> !#[trigger] four_equal_at(data, i)
}

/// A leading run is at least one byte long, fits in the data, and all of its
/// bytes equal the first one.
pub proof fn lemma_run_length_bounds(data: Seq<u8>)
    ensures
        data.len() > 0 ==> 1 <= run_length(data) <= data.len(),
        data.len() == 0 ==> run_length(data) == 0,
        forall|i: int| 0 <= i < run_length(data) ==> #[trigger] data[i] == data[0],
        run_length(data) < data.len() ==> data[run_length(data) as int] != data[0],
    decreases data.len(),
{
    if data.len() >= 2 && data[1] == data[0] {
        let rest = data.skip(1);
        lemma_run_length_bounds(rest);
        assert forall|i: int| 0 <= i < run_length(data) implies #[trigger] data[i] == data[0] by {
            if i > 0 {
                assert(rest[i - 1] == rest[0]);
            }
        }
        if run_length(data) < data.len() {
            assert(rest[run_length(rest) as int] != rest[0]);
        }
    }
}

/// A stretch of `n` equal bytes at the start of `data` is part of its leading
/// run; it is the whole run if the data ends there or goes on differently.
pub proof fn lemma_run_length_of_stretch(data: Seq<u8>, n: int)
    requires
        1 <= n <= data.len(),
        forall|i: int| 0 <= i < n ==> #[trigger] data[i] == data[0],
    ensures
        run_length(data) >= n,
        (n == data.len() || data[n] != data[0]) ==> run_length(data) == n,
    decreases n,
{
    if n > 1 {
        let rest = data.skip(1);
        assert forall|i: int| 0 <= i < n - 1 implies #[trigger] rest[i] == rest[0] by {
            assert(rest[i] == data[i + 1]);
        }
        lemma_run_length_of_stretch(rest, n - 1);
    }
}

/// The first recorded run consists of copies of the first byte.
pub proof fn lemma_first_run_is_repeat(data: Seq<u8>)
    requires
        data.len() > 0,
    ensures
        1 <= first_run(data) <= data.len(),
        first_run(data) <= MAX_RUN_LENGTH,
        data.take(first_run(data) as int) == repeat(data[0], first_run(data)),
{
    lemma_run_length_bounds(data);
    assert(data.take(first_run(data) as int) =~= repeat(data[0], first_run(data)));
}

/// The pair-encoded payload has even length and at most twice the length of
/// the data.
pub proof fn lemma_rle_v1_len(data: Seq<u8>)
    ensures
        rle_v1(data).len() % 2 == 0,
        rle_v1(data).len() <= 2 * data.len(),
        data.len() == 0 <==> rle_v1(data).len() == 0,
    decreases data.len(),
{
    if data.len() > 0 {
        lemma_first_run_is_repeat(data);
        lemma_rle_v1_len(data.skip(first_run(data) as int));
    }
}

/// The hybrid payload of data that is not empty is not empty.
pub proof fn lemma_rle_v2_not_empty(data: Seq<u8>)
    requires
        data.len() > 0,
    ensures
        rle_v2(data).len() > 0,
{
    lemma_first_run_is_repeat(data);
}

/// Decoding a pair-encoded payload restores the data it was made from.
pub proof fn lemma_rle_v1_round_trip(data: Seq<u8>)
    ensures
        decoded_v1(rle_v1(data)) == Ok::<Seq<u8>, CodecError>(data),
    decreases data.len(),
{
    lemma_rle_v1_len(data);
    if data.len() > 0 {
        lemma_first_run_is_repeat(data);
        let n = first_run(data);
        let rest = data.skip(n as int);
        lemma_rle_v1_round_trip(rest);
        lemma_rle_v1_len(rest);
        let pairs = rle_v1(data);
        assert(pairs.skip(2) =~= rle_v1(rest));
        assert(pairs[0] == n as u8 && pairs[1] == data[0]);
        assert(data.take(n as int) + rest =~= data);
    } else {
        assert(unrle_v1(rle_v1(data)) =~= data);
    }
}

/// Literal bytes decode to themselves: a stretch without the escape byte in
/// front of a payload comes out unchanged in front of what the payload gives.
pub proof fn lemma_decoded_v2_literals(literals: Seq<u8>, payload: Seq<u8>)
    requires
        forall|i: int| 0 <= i < literals.len() ==> literals[i] != ESCAPE_BYTE,
    ensures
        decoded_v2(literals + payload) == match decoded_v2(payload) {
            Ok(rest) => Ok::<Seq<u8>, CodecError>(literals + rest),
            Err(e) => Err(e),
        },
    decreases literals.len(),
{
    if literals.len() == 0 {
        assert(literals + payload =~= payload);
        match decoded_v2(payload) {
            Ok(rest) => {
                assert(literals + rest =~= rest);
            },
            Err(e) => {},
        }
    } else {
        let tail = literals.skip(1);
        lemma_decoded_v2_literals(tail, payload);
        assert((literals + payload).skip(1) =~= tail + payload);
        match decoded_v2(payload) {
            Ok(rest) => {
                assert(seq![literals[0]] + (tail + rest) =~= literals + rest);
            },
            Err(e) => {},
        }
    }
}

/// Decoding a hybrid payload restores the data it was made from.
pub proof fn lemma_rle_v2_round_trip(data: Seq<u8>)
    ensures
        decoded_v2(rle_v2(data)) == Ok::<Seq<u8>, CodecError>(data),
    decreases data.len(),
{
    if data.len() > 0 {
        lemma_first_run_is_repeat(data);
        let n = first_run(data);
        let rest = data.skip(n as int);
        lemma_rle_v2_round_trip(rest);
        let token = run_token(n, data[0]);
        let payload = rle_v2(data);
        assert(data.take(n as int) + rest =~= data);
        if n > 3 || data[0] == ESCAPE_BYTE {
            assert(payload.skip(3) =~= rle_v2(rest));
            assert(payload[0] == ESCAPE_BYTE && payload[1] == n as u8 && payload[2] == data[0]);
            assert(decoded_v2(payload) == Ok::<Seq<u8>, CodecError>(
                repeat(data[0], n) + rest,
            ));
        } else {
            lemma_decoded_v2_literals(token, rle_v2(rest));
            assert(decoded_v2(payload) == Ok::<Seq<u8>, CodecError>(token + rest));
        }
    } else {
        assert(data =~= Seq::<u8>::empty());
    }
}

/// Data without the escape byte and without four equal bytes in a row is its
/// own hybrid payload.
pub proof fn lemma_rle_v2_plain(data: Seq<u8>)
    requires
        plain_for_v2(data),
    ensures
        rle_v2(data) == data,
    decreases data.len(),
{
    if data.len() > 0 {
        lemma_first_run_is_repeat(data);
        lemma_run_length_bounds(data);
        let n = first_run(data);
        let rest = data.skip(n as int);
        if n > 3 {
            assert(four_equal_at(data, 0));
        }
        assert(plain_for_v2(rest)) by {
            assert forall|i: int| 0 <= i < rest.len() implies rest[i] != ESCAPE_BYTE by {
                assert(rest[i] == data[i + n]);
            }
            assert forall|i: int| 0 <= i && i + 3 < rest.len() implies !#[trigger] four_equal_at(
                rest,
                i,
            ) by {
                assert(!four_equal_at(data, i + n));
            }
        }
        lemma_rle_v2_plain(rest);
        assert(data.take(n as int) + rest =~= data);
    } else {
        assert(rle_v2(data) =~= data);
    }
}

/// Appends `count` copies of `byte` to `out`.
fn push_run(out: &mut Vec<u8>, count: u8, byte: u8)
    ensures
        final(out)@ == old(out)@ + repeat(byte, count as nat),
{
    let mut i: u8 = 0;
    proof {
        assert(out@ =~= old(out)@ + repeat(byte, 0));
    }
    while i < count
        invariant
            0 <= i <= count,
            out@ == old(out)@ + repeat(byte, i as nat),
        decreases count - i,
    {
        out.push(byte);
        i += 1;
        proof {
            assert(out@ =~= old(out)@ + repeat(byte, i as nat));
        }
    }
}

/// Compresses `uncompressed_data` into pairs of count and byte. A run longer
/// than `MAX_RUN_LENGTH` is split into several pairs.
pub fn compress_v1(uncompressed_data: &[u8]) -> (compressed_data: Vec<u8>)
    ensures
        compressed_data@ == rle_v1(uncompressed_data@),
        compressed_data@.len() % 2 == 0,
        compressed_data@.len() <= 2 * uncompressed_data@.len(),
{
    let mut compressed_data: Vec<u8> = Vec::new();
    proof {
        lemma_rle_v1_len(uncompressed_data@);
    }
    if uncompressed_data.len() == 0 {
        return compressed_data;
    }
    let ghost data = uncompressed_data@;
    let mut current_byte = uncompressed_data[0];
    let mut count: u8 = 1;
    let mut i: usize = 1;
    proof {
        assert(data.skip(0) =~= data);
        assert(compressed_data@ + rle_v1(data) =~= rle_v1(data));
    }
    while i < uncompressed_data.len()
        invariant
            data == uncompressed_data@,
            1 <= count <= i <= data.len(),
            count <= MAX_RUN_LENGTH,
            current_byte == data[i - count],
            forall|k: int| i - count <= k < i ==> data[k] == current_byte,
            compressed_data@ + rle_v1(data.skip(i - count)) == rle_v1(data),
        decreases data.len() - i,
    {
        let byte = uncompressed_data[i];
        if byte == current_byte && count < MAX_RUN_LENGTH {
            count += 1;
        } else {
            proof {
                lemma_run_closed(data, i - count, i as int);
                assert(data.skip(i - count).skip(count as int) =~= data.skip(i as int));
                assert(compressed_data@.push(count).push(current_byte) + rle_v1(
                    data.skip(i as int),
                ) =~= compressed_data@ + rle_v1(data.skip(i - count)));
            }
            compressed_data.push(count);
            compressed_data.push(current_byte);
            current_byte = byte;
            count = 1;
        }
        i += 1;
    }
    proof {
        lemma_run_closed(data, i - count, i as int);
        assert(data.skip(i - count).skip(count as int) =~= data.skip(i as int));
        assert(rle_v1(data.skip(i as int)) =~= Seq::<u8>::empty());
        assert(compressed_data@.push(count).push(current_byte) =~= compressed_data@ + rle_v1(
            data.skip(i - count),
        ));
    }
    compressed_data.push(count);
    compressed_data.push(current_byte);
    compressed_data
}

/// The stretch `start..end` of equal bytes is the first recorded run of what
/// starts at `start`, if it has reached the maximum, the data ends at `end`,
/// or the byte at `end` differs.
proof fn lemma_run_closed(data: Seq<u8>, start: int, end: int)
    requires
        0 <= start < end <= data.len(),
        end - start <= MAX_RUN_LENGTH,
        forall|k: int| start <= k < end ==> #[trigger] data[k] == data[start],
        end == data.len() || data[end] != data[start] || end - start == MAX_RUN_LENGTH,
    ensures
        first_run(data.skip(start)) == end - start,
        data.skip(start)[0] == data[start],
{
    let tail = data.skip(start);
    assert forall|i: int| 0 <= i < end - start implies #[trigger] tail[i] == tail[0] by {
        assert(tail[i] == data[start + i]);
    }
    lemma_run_length_of_stretch(tail, end - start);
}

/// Decompresses a pair-encoded payload. A payload of odd length is corrupt.
pub fn decompress_v1(compressed_data: &[u8]) -> (r: Result<Vec<u8>, CodecError>)
    ensures
        match decoded_v1(compressed_data@) {
            Ok(plain) => r.is_ok() && r.unwrap()@ == plain,
            Err(e) => r == Err::<Vec<u8>, CodecError>(e),
        },
{
    if compressed_data.len() % 2 != 0 {
        return Err(CodecError::CorruptInput("odd payload length"));
    }
    let ghost pairs = compressed_data@;
    let mut uncompressed_data: Vec<u8> = Vec::new();
    let mut i: usize = 0;
    proof {
        assert(pairs.skip(0) =~= pairs);
        assert(uncompressed_data@ + unrle_v1(pairs) =~= unrle_v1(pairs));
    }
    while i < compressed_data.len()
        invariant
            pairs == compressed_data@,
            pairs.len() % 2 == 0,
            i % 2 == 0,
            0 <= i <= pairs.len(),
            uncompressed_data@ + unrle_v1(pairs.skip(i as int)) == unrle_v1(pairs),
        decreases pairs.len() - i,
    {
        let count = compressed_data[i];
        let byte = compressed_data[i + 1];
        proof {
            let tail = pairs.skip(i as int);
            assert(tail.skip(2) =~= pairs.skip(i + 2));
            assert(uncompressed_data@ + repeat(byte, count as nat) + unrle_v1(pairs.skip(i + 2))
                =~= uncompressed_data@ + unrle_v1(tail));
        }
        push_run(&mut uncompressed_data, count, byte);
        i += 2;
    }
    proof {
        assert(uncompressed_data@ + unrle_v1(pairs.skip(i as int)) =~= uncompressed_data@);
    }
    Ok(uncompressed_data)
}

/// Appends the hybrid record of a run of `count` copies of `current_byte`.
pub fn push_to_compressed_data(compressed_data: &mut Vec<u8>, count: u8, current_byte: u8)
    ensures
        final(compressed_data)@ == old(compressed_data)@ + run_token(count as nat, current_byte),
{
    if count > 3 || current_byte == ESCAPE_BYTE {
        compressed_data.push(ESCAPE_BYTE);
        compressed_data.push(count);
        compressed_data.push(current_byte);
        proof {
            assert(compressed_data@ =~= old(compressed_data)@ + run_token(
                count as nat,
                current_byte,
            ));
        }
    } else {
        push_run(compressed_data, count, current_byte);
    }
}

/// Compresses `uncompressed_data` into the hybrid format: runs of up to three
/// bytes other than the escape byte stay literal, every other run becomes an
/// escaped triplet.
pub fn compress_v2(uncompressed_data: &[u8]) -> (compressed_data: Vec<u8>)
    ensures
        compressed_data@ == rle_v2(uncompressed_data@),
        plain_for_v2(uncompressed_data@) ==> compressed_data@ == uncompressed_data@,
{
    let mut compressed_data: Vec<u8> = Vec::new();
    proof {
        if plain_for_v2(uncompressed_data@) {
            lemma_rle_v2_plain(uncompressed_data@);
        }
    }
    if uncompressed_data.len() == 0 {
        return compressed_data;
    }
    let ghost data = uncompressed_data@;
    let mut count: u8 = 1;
    let mut current_byte = uncompressed_data[0];
    let mut i: usize = 1;
    proof {
        assert(data.skip(0) =~= data);
        assert(compressed_data@ + rle_v2(data) =~= rle_v2(data));
    }
    while i < uncompressed_data.len()
        invariant
            data == uncompressed_data@,
            1 <= count <= i <= data.len(),
            count <= MAX_RUN_LENGTH,
            current_byte == data[i - count],
            forall|k: int| i - count <= k < i ==> data[k] == current_byte,
            compressed_data@ + rle_v2(data.skip(i - count)) == rle_v2(data),
        decreases data.len() - i,
    {
        let byte = uncompressed_data[i];
        if byte == current_byte && count < MAX_RUN_LENGTH {
            count += 1;
        } else {
            proof {
                lemma_run_closed(data, i - count, i as int);
                assert(data.skip(i - count).skip(count as int) =~= data.skip(i as int));
                assert(compressed_data@ + run_token(count as nat, current_byte) + rle_v2(
                    data.skip(i as int),
                ) =~= compressed_data@ + rle_v2(data.skip(i - count)));
            }
            push_to_compressed_data(&mut compressed_data, count, current_byte);
            current_byte = byte;
            count = 1;
        }
        i += 1;
    }
    proof {
        lemma_run_closed(data, i - count, i as int);
        assert(data.skip(i - count).skip(count as int) =~= data.skip(i as int));
        assert(rle_v2(data.skip(i as int)) =~= Seq::<u8>::empty());
        assert(compressed_data@ + run_token(count as nat, current_byte) =~= compressed_data@
            + rle_v2(data.skip(i - count)));
    }
    push_to_compressed_data(&mut compressed_data, count, current_byte);
    compressed_data
}

/// Decompresses a hybrid payload. An escape byte with fewer than two bytes
/// behind it is corrupt.
pub fn decompress_v2(compressed_data: &[u8]) -> (r: Result<Vec<u8>, CodecError>)
    ensures
        match decoded_v2(compressed_data@) {
            Ok(plain) => r.is_ok() && r.unwrap()@ == plain,
            Err(e) => r == Err::<Vec<u8>, CodecError>(e),
        },
{
    let ghost payload = compressed_data@;
    let mut uncompressed_data: Vec<u8> = Vec::new();
    let mut i: usize = 0;
    proof {
        assert(payload.skip(0) =~= payload);
        match decoded_v2(payload) {
            Ok(rest) => {
                assert(uncompressed_data@ + rest =~= rest);
            },
            Err(e) => {},
        }
    }
    while i < compressed_data.len()
        invariant
            payload == compressed_data@,
            0 <= i <= payload.len(),
            decoded_v2(payload) == match decoded_v2(payload.skip(i as int)) {
                Ok(rest) => Ok::<Seq<u8>, CodecError>(uncompressed_data@ + rest),
                Err(e) => Err(e),
            },
        decreases payload.len() - i,
    {
        let ghost tail = payload.skip(i as int);
        let ghost done = uncompressed_data@;
        if compressed_data[i] == ESCAPE_BYTE {
            if compressed_data.len() - i < 3 {
                return Err(CodecError::CorruptInput("truncated escape sequence"));
            }
            let count = compressed_data[i + 1];
            let byte = compressed_data[i + 2];
            push_run(&mut uncompressed_data, count, byte);
            proof {
                assert(tail.skip(3) =~= payload.skip(i + 3));
                match decoded_v2(payload.skip(i + 3)) {
                    Ok(rest) => {
                        assert(done + (repeat(byte, count as nat) + rest) =~= uncompressed_data@
                            + rest);
                    },
                    Err(e) => {},
                }
            }
            i += 3;
        } else {
            uncompressed_data.push(compressed_data[i]);
            proof {
                assert(tail.skip(1) =~= payload.skip(i + 1));
                match decoded_v2(payload.skip(i + 1)) {
                    Ok(rest) => {
                        assert(done + (seq![tail[0]] + rest) =~= uncompressed_data@ + rest);
                    },
                    Err(e) => {},
                }
            }
            i += 1;
        }
    }
    proof {
        assert(uncompressed_data@ + Seq::<u8>::empty() =~= uncompressed_data@);
    }
    Ok(uncompressed_data)
}

} // verus!
