//! The canonical Huffman codec: code lengths from a tree over the byte
//! frequencies, codes from the lengths alone, and a framed payload that
//! records the lengths beside the code bits.

pub mod canonical;
pub mod frame;
pub mod kraft;
pub mod paths;
pub mod stream;
pub mod tree;
pub mod trie;
pub mod unique;

use crate::bits::{as_bits, bits_of_bytes, lemma_bits_of_packed};
use crate::container::{
    header_bytes, lemma_header_round_trip, lemma_starts_with_header, read_and_validate_header,
    validate_header, write_header, CodecError, HEADER_SIZE, HUFFMAN_ID,
};
use crate::huffman::canonical::{
    generate_canonical_codes, lengths_in_range, lengths_of, valid_table,
};
use crate::huffman::frame::{
    be_bits, field, fits_frame, frame_bits, framed, lemma_be_bits_len, lemma_be_round_trip,
    lemma_frame_round_trip, lemma_two_to_values, parsed_frame, read_frame, write_data_canonical,
    MAX_FIELD_VALUE,
};
use crate::huffman::kraft::{
    canonical_code, is_length_table, is_prefix, kraft, lemma_canonical_code_exists,
    lemma_codes_prefix_free, MAX_CODE_LENGTH, SYMBOLS,
};
use crate::huffman::paths::{
    code_lengths, generate_byte_codes, is_table_of, lemma_table_records_lengths, lemma_tree_code,
    lemma_tree_lengths_kraft, tree_lengths,
};
use crate::huffman::stream::{
    all_coded, build_decoding_tree, code_views, compress_canonical, decode_canonical,
    decoded_bits, encode_bits, lemma_decode_encoded, lemma_encode_bits_len,
    lemma_trie_decodes_as_table, prefix_free, total_code_length,
};
use crate::huffman::tree::{
    calculate_byte_frequencies, generate_huffman_tree, is_tree_for, lemma_occurrences, occurrences,
    HuffmanNode,
};
use crate::huffman::unique::{lemma_table_unique, lemma_tree_unique};
use vstd::prelude::*;
use vstd::slice::slice_subrange;

verus! {

/// The canonical codes of a table of code lengths: a code for each byte
/// with a length, none for the others.
pub open spec fn canonical_codes(lengths: Seq<usize>) -> Seq<Option<Seq<bool>>> {
    Seq::new(
        SYMBOLS as nat,
        |b: int|
            if lengths[b] >= 1 {
                Some(canonical_code(lengths, b))
            } else {
                None
            },
    )
}

/// The codes that go with a list of pairs of byte and code length.
pub open spec fn table_codes(table: Seq<(u8, usize)>) -> Seq<Option<Seq<bool>>> {
    canonical_codes(lengths_of(table))
}

/// What decoding a framed payload yields: the frame must be whole, its
/// table must be a code table, and its code bits must spell codes.
pub open spec fn payload_decoded(payload: Seq<u8>) -> Result<Seq<u8>, CodecError> {
    match parsed_frame(payload) {
        Err(e) => Err(e),
        Ok((table, code_bits)) => if !valid_table(table) {
            Err(CodecError::CorruptInput("invalid code table"))
        } else {
            decoded_bits(table_codes(table), code_bits)
        },
    }
}

/// What decoding a Huffman container yields.
pub open spec fn huffman_decoded(input: Seq<u8>) -> Result<Seq<u8>, CodecError> {
    if input.len() == 0 {
        Ok(Seq::empty())
    } else {
        match validate_header(input, HUFFMAN_ID) {
            Err(e) => Err(e),
            Ok(_) => payload_decoded(input.skip(HEADER_SIZE as int)),
        }
    }
}

/// The Huffman container of `data` for a given code table: empty for empty
/// data; else the table must be a code table with a code for every byte of
/// the data, and table and code bits must fit the length fields.
pub open spec fn encoded_with(table: Seq<(u8, usize)>, data: Seq<u8>) -> Result<
    Seq<u8>,
    CodecError,
> {
    if data.len() == 0 {
        Ok(Seq::empty())
    } else if !valid_table(table) {
        Err(CodecError::CorruptInput("invalid code table"))
    } else if !all_coded(table_codes(table), data) {
        Err(CodecError::CorruptInput("byte without code"))
    } else if table.len() > MAX_FIELD_VALUE || total_code_length(lengths_of(table), data)
        > MAX_FIELD_VALUE {
        Err(CodecError::InputTooLarge)
    } else {
        Ok(header_bytes(HUFFMAN_ID) + framed(table, encode_bits(table_codes(table), data)))
    }
}

/// The table of frequencies of `data`.
pub open spec fn frequencies_of(data: Seq<u8>) -> Seq<usize> {
    Seq::new(SYMBOLS as nat, |b: int| occurrences(data, b as u8) as usize)
}

/// Whether `table` lists the code lengths that a Huffman tree of `data`
/// gives: the depth of each byte's leaf, or `1` for the only byte.
pub open spec fn is_huffman_table(table: Seq<(u8, usize)>, data: Seq<u8>) -> bool {
    exists|nodes: Seq<HuffmanNode>| #[trigger]
        is_tree_for(nodes, frequencies_of(data)) && is_table_of(table, tree_lengths(nodes))
}

/// The code table of `data`: the one list that holds the code lengths of
/// the Huffman tree of the data.
pub open spec fn huffman_table_of(data: Seq<u8>) -> Seq<(u8, usize)> {
    choose|table: Seq<(u8, usize)>| is_huffman_table(table, data)
}

/// The Huffman container of `data`, if the data is not too large for one.
pub open spec fn huffman_encoded(data: Seq<u8>) -> Result<Seq<u8>, CodecError> {
    encoded_with(huffman_table_of(data), data)
}

/// Data has one code table only.
pub proof fn lemma_huffman_table_unique(a: Seq<(u8, usize)>, b: Seq<(u8, usize)>, data: Seq<u8>)
    requires
        is_huffman_table(a, data),
        is_huffman_table(b, data),
    ensures
        a == b,
        a == huffman_table_of(data),
{
    let frequencies = frequencies_of(data);
    let tree_a = choose|nodes: Seq<HuffmanNode>| #[trigger]
        is_tree_for(nodes, frequencies) && is_table_of(a, tree_lengths(nodes));
    let tree_b = choose|nodes: Seq<HuffmanNode>| #[trigger]
        is_tree_for(nodes, frequencies) && is_table_of(b, tree_lengths(nodes));
    lemma_tree_unique(tree_a, tree_b, frequencies);
    lemma_table_unique(a, b, tree_lengths(tree_a));
    let chosen = huffman_table_of(data);
    let tree_c = choose|nodes: Seq<HuffmanNode>| #[trigger]
        is_tree_for(nodes, frequencies) && is_table_of(chosen, tree_lengths(nodes));
    lemma_tree_unique(tree_a, tree_c, frequencies);
    lemma_table_unique(a, chosen, tree_lengths(tree_a));
}

/// The canonical codes of a code table are prefix-free.
pub proof fn lemma_canonical_codes_prefix_free(lengths: Seq<usize>)
    requires
        is_length_table(lengths),
        kraft(lengths),
    ensures
        prefix_free(canonical_codes(lengths)),
        forall|b: int|
            0 <= b < SYMBOLS && lengths[b] >= 1 ==> #[trigger] canonical_code(lengths, b).len()
                == lengths[b],
{
    let codes = canonical_codes(lengths);
    assert forall|b: int| 0 <= b < SYMBOLS && lengths[b] >= 1 implies #[trigger] canonical_code(
        lengths,
        b,
    ).len() == lengths[b] by {
        lemma_canonical_code_exists(lengths, b);
    }
    assert forall|a: int, b: int|
        0 <= a < SYMBOLS && 0 <= b < SYMBOLS && a != b && (#[trigger] codes[a]).is_some() && (
        #[trigger] codes[b]).is_some() implies !is_prefix(codes[a].unwrap(), codes[b].unwrap()) by {
        lemma_canonical_code_exists(lengths, a);
        lemma_canonical_code_exists(lengths, b);
        lemma_codes_prefix_free(lengths, a, b, codes[a].unwrap(), codes[b].unwrap());
    }
    assert forall|b: int|
        0 <= b < SYMBOLS && (#[trigger] codes[b]).is_some() implies codes[b].unwrap().len() > 0 by {
        lemma_canonical_code_exists(lengths, b);
    }
}

/// A code table records lengths that satisfy Kraft's inequality.
pub proof fn lemma_valid_table_lengths(table: Seq<(u8, usize)>)
    requires
        valid_table(table),
    ensures
        is_length_table(lengths_of(table)),
        kraft(lengths_of(table)),
{
    lemma_lengths_in_range(table);
}

/// Pairs with lengths in range record a table of code lengths.
proof fn lemma_lengths_in_range(table: Seq<(u8, usize)>)
    requires
        lengths_in_range(table),
    ensures
        is_length_table(lengths_of(table)),
    decreases table.len(),
{
    if table.len() > 0 {
        let front = table.drop_last();
        assert(lengths_in_range(front)) by {
            assert forall|i: int| 0 <= i < front.len() implies 1 <= (#[trigger] front[i]).1
                <= MAX_CODE_LENGTH by {
                assert(front[i] == table[i]);
            }
        }
        lemma_lengths_in_range(front);
        assert(table[table.len() - 1].1 <= MAX_CODE_LENGTH);
    }
}

/// Decoding a Huffman container restores the data it was encoded from,
/// whatever code table it was encoded with.
pub proof fn lemma_huffman_round_trip(table: Seq<(u8, usize)>, data: Seq<u8>)
    requires
        encoded_with(table, data).is_ok(),
    ensures
        huffman_decoded(encoded_with(table, data).unwrap()) == Ok::<Seq<u8>, CodecError>(data),
{
    if data.len() == 0 {
        assert(data =~= Seq::<u8>::empty());
    } else {
        let lengths = lengths_of(table);
        let codes = table_codes(table);
        let code_bits = encode_bits(codes, data);
        let payload = framed(table, code_bits);
        let stream = encoded_with(table, data).unwrap();
        lemma_valid_table_lengths(table);
        lemma_canonical_codes_prefix_free(lengths);
        lemma_encode_bits_len(codes, lengths, data);
        lemma_header_round_trip(HUFFMAN_ID, payload);
        assert(stream.skip(HEADER_SIZE as int) =~= payload);
        lemma_frame_round_trip(table, code_bits);
        lemma_decode_encoded(codes, data);
    }
}

/// Nothing encodes to nothing and decodes to nothing.
pub proof fn lemma_huffman_empty(table: Seq<(u8, usize)>)
    ensures
        encoded_with(table, Seq::empty()) == Ok::<Seq<u8>, CodecError>(Seq::empty()),
        huffman_decoded(Seq::empty()) == Ok::<Seq<u8>, CodecError>(Seq::empty()),
{
}

/// The Huffman container of data that is not empty begins with the magic
/// bytes and the id of the Huffman codec.
pub proof fn lemma_huffman_starts_with_header(table: Seq<(u8, usize)>, data: Seq<u8>)
    requires
        data.len() >= 1,
        encoded_with(table, data).is_ok(),
    ensures
        encoded_with(table, data).unwrap().len() >= HEADER_SIZE + 8,
        encoded_with(table, data).unwrap().subrange(0, HEADER_SIZE as int) == seq![
            0x50u8,
            0x50u8,
            0x43u8,
            0x42u8,
            HUFFMAN_ID,
        ],
{
    let code_bits = encode_bits(table_codes(table), data);
    lemma_starts_with_header(HUFFMAN_ID, framed(table, code_bits));
    lemma_be_bits_len(table.len(), 32);
    lemma_be_bits_len(code_bits.len(), 32);
}

/// The codes that a decoder assigns from the table of a frame are the
/// codes that the encoder assigned from the table it framed.
pub proof fn lemma_codes_reconstructed(table: Seq<(u8, usize)>, code_bits: Seq<bool>)
    requires
        fits_frame(table, code_bits.len()),
    ensures
        parsed_frame(framed(table, code_bits)).is_ok(),
        parsed_frame(framed(table, code_bits)).unwrap().0 == table,
        table_codes(parsed_frame(framed(table, code_bits)).unwrap().0) == table_codes(table),
{
    lemma_frame_round_trip(table, code_bits);
}

/// The second length field of the frame of a container records the sum,
/// over the bytes of the data, of the lengths of their codes.
pub proof fn lemma_length_field_counts_code_bits(table: Seq<(u8, usize)>, data: Seq<u8>)
    requires
        data.len() >= 1,
        encoded_with(table, data).is_ok(),
    ensures
        field(
            bits_of_bytes(encoded_with(table, data).unwrap().skip(HEADER_SIZE as int)),
            32,
            32,
        ) == total_code_length(lengths_of(table), data),
{
    let codes = table_codes(table);
    let code_bits = encode_bits(codes, data);
    let payload = framed(table, code_bits);
    let bits = bits_of_bytes(payload);
    lemma_code_bits_counted(table, data);
    lemma_valid_table_lengths(table);
    assert(encoded_with(table, data).unwrap().skip(HEADER_SIZE as int) =~= payload);
    lemma_bits_of_packed(frame_bits(table, code_bits));
    lemma_be_bits_len(table.len(), 32);
    lemma_be_bits_len(code_bits.len(), 32);
    assert(bits.subrange(32, 64) =~= be_bits(code_bits.len(), 32));
    lemma_two_to_values();
    lemma_be_round_trip(code_bits.len(), 32);
}

/// The code bits of data are as many as the lengths of the codes of its
/// bytes add up to.
pub proof fn lemma_code_bits_counted(table: Seq<(u8, usize)>, data: Seq<u8>)
    requires
        valid_table(table),
        all_coded(table_codes(table), data),
    ensures
        encode_bits(table_codes(table), data).len() == total_code_length(lengths_of(table), data),
{
    lemma_valid_table_lengths(table);
    lemma_canonical_codes_prefix_free(lengths_of(table));
    lemma_encode_bits_len(table_codes(table), lengths_of(table), data);
}

/// No code is longer than `MAX_CODE_LENGTH`, so the code bits are at most
/// that many times the data.
pub proof fn lemma_total_code_length_bound(lengths: Seq<usize>, data: Seq<u8>)
    requires
        is_length_table(lengths),
    ensures
        total_code_length(lengths, data) <= MAX_CODE_LENGTH * data.len(),
    decreases data.len(),
{
    if data.len() > 0 {
        lemma_total_code_length_bound(lengths, data.drop_last());
    }
}

/// Reads a framed payload and decodes it: the table is read, the canonical
/// codes are assigned from it, the decoding trie is built from the codes,
/// and the code bits are read off the trie.
pub fn read_data_canonical(payload: &[u8]) -> (r: Result<Vec<u8>, CodecError>)
    ensures
        match payload_decoded(payload@) {
            Ok(data) => r.is_ok() && r.unwrap()@ == data,
            Err(e) => r == Err::<Vec<u8>, CodecError>(e),
        },
{
    let (table, compressed_bits) = match read_frame(payload) {
        Ok(frame) => frame,
        Err(e) => {
            return Err(e);
        },
    };
    let codes = match generate_canonical_codes(table.as_slice()) {
        Some(codes) => codes,
        None => {
            return Err(CodecError::CorruptInput("invalid code table"));
        },
    };
    proof {
        lemma_valid_table_lengths(table@);
        lemma_canonical_codes_prefix_free(lengths_of(table@));
        assert(code_views(codes@) =~= table_codes(table@));
    }
    let decoding_root = build_decoding_tree(&codes);
    proof {
        lemma_trie_decodes_as_table(
            decoding_root,
            table_codes(table@),
            as_bits(compressed_bits@),
            Seq::empty(),
        );
    }
    decode_canonical(compressed_bits.as_slice(), &decoding_root)
}

/// Whether every byte of `data` has a code.
fn covers_data(buffer: &[u8], codes: &Vec<Option<Vec<u8>>>) -> (covered: bool)
    requires
        codes@.len() == SYMBOLS,
    ensures
        covered == all_coded(code_views(codes@), buffer@),
{
    let mut i: usize = 0;
    while i < buffer.len()
        invariant
            0 <= i <= buffer@.len(),
            codes@.len() == SYMBOLS,
            forall|k: int|
                0 <= k < i ==> code_views(codes@)[#[trigger] buffer@[k] as int].is_some(),
        decreases buffer@.len() - i,
    {
        if codes[buffer[i] as usize].is_none() {
            proof {
                assert(code_views(codes@)[buffer@[i as int] as int].is_none());
            }
            return false;
        }
        i += 1;
    }
    true
}

/// Counts the code bits that the bytes of `buffer` need.
fn count_code_bits(buffer: &[u8], codes: &Vec<Option<Vec<u8>>>) -> (total: u128)
    requires
        codes@.len() == SYMBOLS,
        all_coded(code_views(codes@), buffer@),
        forall|b: int|
            0 <= b < SYMBOLS && (#[trigger] codes@[b]).is_some() ==> codes@[b].unwrap()@.len()
                <= MAX_CODE_LENGTH,
    ensures
        total == encode_bits(code_views(codes@), buffer@).len(),
{
    let mut total: u128 = 0;
    let mut i: usize = 0;
    while i < buffer.len()
        invariant
            0 <= i <= buffer@.len(),
            codes@.len() == SYMBOLS,
            all_coded(code_views(codes@), buffer@),
            forall|b: int|
                0 <= b < SYMBOLS && (#[trigger] codes@[b]).is_some()
                    ==> codes@[b].unwrap()@.len() <= MAX_CODE_LENGTH,
            total == encode_bits(code_views(codes@), buffer@.take(i as int)).len(),
            total <= MAX_CODE_LENGTH * i,
        decreases buffer@.len() - i,
    {
        proof {
            assert(buffer@.take(i + 1).drop_last() =~= buffer@.take(i as int));
            assert(code_views(codes@)[buffer@[i as int] as int].is_some());
        }
        match &codes[buffer[i] as usize] {
            Some(code) => {
                total = total + code.len() as u128;
            },
            None => {},
        }
        i += 1;
    }
    proof {
        assert(buffer@.take(buffer@.len() as int) =~= buffer@);
    }
    total
}

/// Encodes `data` as a Huffman container with the code table
/// `byte_lengths`. Nothing is encoded if the code bits would outnumber what
/// the frame can record.
pub fn encode_with_table(data: &[u8], byte_lengths: &[(u8, usize)]) -> (r: Result<
    Vec<u8>,
    CodecError,
>)
    ensures
        match encoded_with(byte_lengths@, data@) {
            Ok(stream) => r.is_ok() && r.unwrap()@ == stream,
            Err(e) => r == Err::<Vec<u8>, CodecError>(e),
        },
{
    let mut out: Vec<u8> = Vec::new();
    if data.len() == 0 {
        return Ok(out);
    }
    let codes = match generate_canonical_codes(byte_lengths) {
        Some(codes) => codes,
        None => {
            return Err(CodecError::CorruptInput("invalid code table"));
        },
    };
    proof {
        assert(code_views(codes@) =~= table_codes(byte_lengths@));
    }
    if !covers_data(data, &codes) {
        return Err(CodecError::CorruptInput("byte without code"));
    }
    proof {
        lemma_code_bits_counted(byte_lengths@, data@);
        lemma_valid_table_lengths(byte_lengths@);
        lemma_canonical_codes_prefix_free(lengths_of(byte_lengths@));
        assert forall|b: int|
            0 <= b < SYMBOLS && (#[trigger] codes@[b]).is_some() implies codes@[b].unwrap()@.len()
            <= MAX_CODE_LENGTH by {
            assert(code_views(codes@)[b] == Some(as_bits(codes@[b].unwrap()@)));
        }
    }
    let needed = count_code_bits(data, &codes);
    if byte_lengths.len() > MAX_FIELD_VALUE || needed > MAX_FIELD_VALUE as u128 {
        return Err(CodecError::InputTooLarge);
    }
    let compressed_bits = compress_canonical(data, &codes);
    write_header(&mut out, HUFFMAN_ID);
    let mut payload = write_data_canonical(byte_lengths, compressed_bits.as_slice());
    out.append(&mut payload);
    Ok(out)
}

/// The table of the code lengths of a Huffman tree of `data` is a code
/// table with a code for each byte of the data, and for no other byte.
pub proof fn lemma_table_of_tree(nodes: Seq<HuffmanNode>, table: Seq<(u8, usize)>, data: Seq<u8>)
    requires
        data.len() <= usize::MAX,
        is_tree_for(nodes, frequencies_of(data)),
        is_table_of(table, tree_lengths(nodes)),
    ensures
        valid_table(table),
        lengths_of(table) == tree_lengths(nodes),
        all_coded(table_codes(table), data),
        table.len() <= SYMBOLS,
        forall|i: int| 0 <= i < table.len() ==> occurrences(data, (#[trigger] table[i]).0) > 0,
{
    let lengths = tree_lengths(nodes);
    lemma_tree_lengths_kraft(nodes);
    lemma_table_records_lengths(table, lengths);
    assert forall|i: int| 0 <= i < data.len() implies table_codes(
        table,
    )[#[trigger] data[i] as int].is_some() by {
        let byte = data[i];
        lemma_occurrences(data, byte);
        assert(frequencies_of(data)[byte as int] > 0);
        lemma_tree_code(nodes, byte);
    }
    assert forall|i: int| 0 <= i < table.len() implies occurrences(data, (#[trigger] table[i]).0)
        > 0 by {
        let byte = table[i].0;
        lemma_tree_code(nodes, byte);
        lemma_occurrences(data, byte);
        assert(frequencies_of(data)[byte as int] > 0);
    }
}

/// Works out the code table of `data`: the frequencies of its bytes, the
/// Huffman tree over them, and the length of each byte's code in the tree.
pub fn huffman_table(data: &[u8]) -> (table: Vec<(u8, usize)>)
    ensures
        table@ == huffman_table_of(data@),
        is_huffman_table(table@, data@),
        valid_table(table@),
        all_coded(table_codes(table@), data@),
        table@.len() <= SYMBOLS,
        forall|i: int|
            0 <= i < table@.len() ==> occurrences(data@, (#[trigger] table@[i]).0) > 0,
{
    let length = data.len();
    let frequencies = calculate_byte_frequencies(data);
    assert(data@.len() == length);
    let tree = generate_huffman_tree(&frequencies);
    let byte_codes = generate_byte_codes(&tree);
    let table = code_lengths(&byte_codes);
    proof {
        let nodes = tree.nodes@;
        assert(frequencies@ =~= frequencies_of(data@));
        assert(Seq::new(SYMBOLS as nat, |b: int| byte_codes@[b]@.len() as usize) =~= tree_lengths(
            nodes,
        )) by {
            assert forall|b: int| 0 <= b < SYMBOLS implies byte_codes@[b]@.len() as usize
                == #[trigger] tree_lengths(nodes)[b] by {
                assert(as_bits(byte_codes@[b]@).len() == byte_codes@[b]@.len());
            }
        }
        lemma_table_of_tree(nodes, table@, data@);
        assert(is_huffman_table(table@, data@));
        lemma_huffman_table_unique(table@, table@, data@);
    }
    table
}

/// Encodes `data` as a Huffman container: empty for empty data, else the
/// header, the code table of the data and its code bits. Data whose code
/// bits outnumber what the length field of the frame can record is too
/// large; data of up to `MAX_FIELD_VALUE / MAX_CODE_LENGTH` bytes never is.
pub fn huffman_encode(data: &[u8]) -> (r: Result<Vec<u8>, CodecError>)
    ensures
        match huffman_encoded(data@) {
            Ok(stream) => r.is_ok() && r.unwrap()@ == stream,
            Err(e) => r == Err::<Vec<u8>, CodecError>(e),
        },
        match r {
            Ok(stream) => {
                &&& huffman_decoded(stream@) == Ok::<Seq<u8>, CodecError>(data@)
                &&& data@.len() == 0 ==> stream@.len() == 0
                &&& data@.len() > 0 ==> stream@.len() > HEADER_SIZE && stream@.subrange(
                    0,
                    HEADER_SIZE as int,
                ) == header_bytes(HUFFMAN_ID)
            },
            Err(e) => e == CodecError::InputTooLarge && MAX_CODE_LENGTH * data@.len()
                > MAX_FIELD_VALUE,
        },
{
    let table = huffman_table(data);
    proof {
        lemma_valid_table_lengths(table@);
        lemma_total_code_length_bound(lengths_of(table@), data@);
        if encoded_with(table@, data@).is_ok() {
            lemma_huffman_round_trip(table@, data@);
        }
    }
    let r = encode_with_table(data, table.as_slice());
    proof {
        if r.is_ok() && data@.len() > 0 {
            assert(r.unwrap()@.subrange(0, HEADER_SIZE as int) =~= header_bytes(HUFFMAN_ID));
        }
    }
    r
}

/// Decodes a Huffman container. The empty stream decodes to the empty
/// stream; any other stream must start with the header of the Huffman
/// codec and go on with a whole frame.
pub fn huffman_decode(input: &[u8]) -> (r: Result<Vec<u8>, CodecError>)
    ensures
        match huffman_decoded(input@) {
            Ok(data) => r.is_ok() && r.unwrap()@ == data,
            Err(e) => r == Err::<Vec<u8>, CodecError>(e),
        },
{
    if input.len() == 0 {
        return Ok(Vec::new());
    }
    match read_and_validate_header(input, HUFFMAN_ID) {
        Err(e) => Err(e),
        Ok(_) => {
            let payload = slice_subrange(input, HEADER_SIZE, input.len());
            assert(payload@ =~= input@.skip(HEADER_SIZE as int));
            read_data_canonical(payload)
        },
    }
}

} // verus!
