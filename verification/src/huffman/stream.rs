//! The stream of code bits: how data is spelled out in codes, and how the
//! decoding trie reads the bytes back from it.

use crate::bits::as_bits;
use crate::container::CodecError;
use crate::huffman::kraft::{is_prefix, SYMBOLS};
use crate::huffman::trie::{
    is_proper_prefix, label_after_insert, DecodeNode,
};
use vstd::prelude::*;

verus! {

/// The bit strings of a table of codes that are held as flags.
pub open spec fn code_views(codes: Seq<Option<Vec<u8>>>) -> Seq<Option<Seq<bool>>> {
    Seq::new(
        codes.len(),
        |b: int|
            match codes[b] {
                Some(code) => Some(as_bits(code@)),
                None => None,
            },
    )
}

/// Whether `codes` is a prefix-free table: a code or none for each byte
/// value, no code empty, and no code the beginning of another byte's code.
pub open spec fn prefix_free(codes: Seq<Option<Seq<bool>>>) -> bool {
    &&& codes.len() == SYMBOLS
    &&& forall|b: int|
        0 <= b < SYMBOLS && (#[trigger] codes[b]).is_some() ==> codes[b].unwrap().len() > 0
    &&& forall|a: int, b: int|
        0 <= a < SYMBOLS && 0 <= b < SYMBOLS && a != b && (#[trigger] codes[a]).is_some() && (
        #[trigger] codes[b]).is_some() ==> !is_prefix(codes[a].unwrap(), codes[b].unwrap())
}

/// Whether `byte` has the code `path`.
pub open spec fn has_code(codes: Seq<Option<Seq<bool>>>, byte: int, path: Seq<bool>) -> bool {
    0 <= byte < SYMBOLS && codes[byte] == Some(path)
}

/// Whether the code of `byte` begins with `path` and goes on.
pub open spec fn code_goes_on(codes: Seq<Option<Seq<bool>>>, byte: int, path: Seq<bool>) -> bool {
    0 <= byte < SYMBOLS && codes[byte].is_some() && is_proper_prefix(path, codes[byte].unwrap())
}

/// What the decoder finds at the end of `path`: a byte whose code `path`
/// is; else nothing yet, if a code begins with `path`; else no way on.
pub open spec fn expected_label(codes: Seq<Option<Seq<bool>>>, path: Seq<bool>) -> Option<
    Option<u8>,
> {
    if exists|byte: int| has_code(codes, byte, path) {
        Some(Some((choose|byte: int| has_code(codes, byte, path)) as u8))
    } else if path.len() == 0 || exists|byte: int| code_goes_on(codes, byte, path) {
        Some(None)
    } else {
        None
    }
}

/// Whether a trie holds just the codes of a table.
pub open spec fn trie_matches(root: DecodeNode, codes: Seq<Option<Seq<bool>>>) -> bool {
    forall|path: Seq<bool>| #[trigger] root.label_at(path) == expected_label(codes, path)
}

/// `byte` in front of what decoding the rest gives.
pub open spec fn emit(byte: u8, rest: Result<Seq<u8>, CodecError>) -> Result<Seq<u8>, CodecError> {
    match rest {
        Ok(bytes) => Ok(seq![byte] + bytes),
        Err(e) => Err(e),
    }
}

/// The bytes that a table of codes reads from `bits`, when the bits in
/// `pending` have been read since the last byte. Bits that spell no code
/// are an error; bits at the end that stop short of a code are left over.
pub open spec fn decode_from(
    codes: Seq<Option<Seq<bool>>>,
    bits: Seq<bool>,
    pending: Seq<bool>,
) -> Result<Seq<u8>, CodecError>
    decreases bits.len(),
{
    if bits.len() == 0 {
        Ok(Seq::empty())
    } else {
        let path = pending.push(bits[0]);
        match expected_label(codes, path) {
            None => Err(CodecError::CorruptInput("invalid code")),
            Some(Some(byte)) => emit(byte, decode_from(codes, bits.skip(1), Seq::empty())),
            Some(None) => decode_from(codes, bits.skip(1), path),
        }
    }
}

/// The bytes that a table of codes reads from `bits`.
pub open spec fn decoded_bits(codes: Seq<Option<Seq<bool>>>, bits: Seq<bool>) -> Result<
    Seq<u8>,
    CodecError,
> {
    decode_from(codes, bits, Seq::empty())
}

/// The bytes that a walk of a trie reads from `bits`, when the bits in
/// `pending` have been read since the last byte.
pub open spec fn trie_decode(root: DecodeNode, bits: Seq<bool>, pending: Seq<bool>) -> Result<
    Seq<u8>,
    CodecError,
>
    decreases bits.len(),
{
    if bits.len() == 0 {
        Ok(Seq::empty())
    } else {
        let path = pending.push(bits[0]);
        match root.label_at(path) {
            None => Err(CodecError::CorruptInput("invalid code")),
            Some(Some(byte)) => emit(byte, trie_decode(root, bits.skip(1), Seq::empty())),
            Some(None) => trie_decode(root, bits.skip(1), path),
        }
    }
}

/// The codes of the bytes of `data`, one after the other.
pub open spec fn encode_bits(codes: Seq<Option<Seq<bool>>>, data: Seq<u8>) -> Seq<bool>
    decreases data.len(),
{
    if data.len() == 0 {
        Seq::empty()
    } else {
        encode_bits(codes, data.drop_last()) + codes[data.last() as int].unwrap()
    }
}

/// The flags of the codes of the bytes of `data`, one after the other.
pub open spec fn encoded_flags(codes: Seq<Option<Vec<u8>>>, data: Seq<u8>) -> Seq<u8>
    decreases data.len(),
{
    if data.len() == 0 {
        Seq::empty()
    } else {
        encoded_flags(codes, data.drop_last()) + codes[data.last() as int].unwrap()@
    }
}

/// The sum of the code lengths of the bytes of `data`.
pub open spec fn total_code_length(lengths: Seq<usize>, data: Seq<u8>) -> nat
    decreases data.len(),
{
    if data.len() == 0 {
        0
    } else {
        total_code_length(lengths, data.drop_last()) + lengths[data.last() as int] as nat
    }
}

/// Whether every byte of `data` has a code.
pub open spec fn all_coded(codes: Seq<Option<Seq<bool>>>, data: Seq<u8>) -> bool {
    forall|i: int| 0 <= i < data.len() ==> codes[#[trigger] data[i] as int].is_some()
}

/// A trie that holds the codes of a table reads what the table reads.
pub proof fn lemma_trie_decodes_as_table(
    root: DecodeNode,
    codes: Seq<Option<Seq<bool>>>,
    bits: Seq<bool>,
    pending: Seq<bool>,
)
    requires
        trie_matches(root, codes),
    ensures
        trie_decode(root, bits, pending) == decode_from(codes, bits, pending),
    decreases bits.len(),
{
    if bits.len() > 0 {
        let path = pending.push(bits[0]);
        assert(root.label_at(path) == expected_label(codes, path));
        lemma_trie_decodes_as_table(root, codes, bits.skip(1), Seq::empty());
        lemma_trie_decodes_as_table(root, codes, bits.skip(1), path);
    }
}

/// In a prefix-free table a code belongs to one byte only.
pub proof fn lemma_code_owner(codes: Seq<Option<Seq<bool>>>, byte: int)
    requires
        prefix_free(codes),
        0 <= byte < SYMBOLS,
        codes[byte].is_some(),
    ensures
        expected_label(codes, codes[byte].unwrap()) == Some(Some(byte as u8)),
{
    let code = codes[byte].unwrap();
    assert(has_code(codes, byte, code));
    let found = choose|b: int| has_code(codes, b, code);
    if found != byte {
        assert(code.take(code.len() as int) =~= code);
        assert(is_prefix(codes[found].unwrap(), codes[byte].unwrap()));
    }
}

/// In a prefix-free table nothing is found on the way to a code.
pub proof fn lemma_on_the_way(codes: Seq<Option<Seq<bool>>>, byte: int, path: Seq<bool>)
    requires
        prefix_free(codes),
        code_goes_on(codes, byte, path),
        path.len() > 0,
    ensures
        expected_label(codes, path) == Some(None::<u8>),
{
    if exists|b: int| has_code(codes, b, path) {
        let found = choose|b: int| has_code(codes, b, path);
        assert(is_prefix(codes[found].unwrap(), codes[byte].unwrap()));
        assert(found != byte);
    }
}

/// The decoder reads the byte from its code, wherever it stands in the
/// code, and goes on with what follows the code.
pub proof fn lemma_decode_one(
    codes: Seq<Option<Seq<bool>>>,
    byte: u8,
    read: int,
    rest: Seq<bool>,
)
    requires
        prefix_free(codes),
        codes[byte as int].is_some(),
        0 <= read < codes[byte as int].unwrap().len(),
    ensures
        decode_from(
            codes,
            codes[byte as int].unwrap().skip(read) + rest,
            codes[byte as int].unwrap().take(read),
        ) == emit(byte, decode_from(codes, rest, Seq::empty())),
    decreases codes[byte as int].unwrap().len() - read,
{
    let code = codes[byte as int].unwrap();
    let bits = code.skip(read) + rest;
    let path = code.take(read).push(bits[0]);
    assert(path =~= code.take(read + 1));
    assert(bits.skip(1) =~= code.skip(read + 1) + rest);
    if read + 1 == code.len() {
        assert(path =~= code);
        lemma_code_owner(codes, byte as int);
        assert(bits.skip(1) =~= rest);
    } else {
        assert(code.take(path.len() as int) =~= path);
        lemma_on_the_way(codes, byte as int, path);
        lemma_decode_one(codes, byte, read + 1, rest);
    }
}

/// The code bits of data begin with the code of its first byte.
pub proof fn lemma_encode_bits_front(codes: Seq<Option<Seq<bool>>>, data: Seq<u8>)
    requires
        data.len() > 0,
    ensures
        encode_bits(codes, data) == codes[data[0] as int].unwrap() + encode_bits(
            codes,
            data.skip(1),
        ),
    decreases data.len(),
{
    if data.len() == 1 {
        assert(data.drop_last() =~= Seq::<u8>::empty());
        assert(data.skip(1) =~= Seq::<u8>::empty());
        assert(encode_bits(codes, Seq::<u8>::empty()) =~= Seq::<bool>::empty());
        assert(encode_bits(codes, data) =~= codes[data[0] as int].unwrap() + encode_bits(
            codes,
            data.skip(1),
        ));
    } else {
        let front = data.drop_last();
        lemma_encode_bits_front(codes, front);
        assert(data.skip(1).drop_last() =~= front.skip(1));
        assert(encode_bits(codes, data.skip(1)) == encode_bits(codes, front.skip(1))
            + codes[data.last() as int].unwrap());
        assert(encode_bits(codes, data) =~= codes[data[0] as int].unwrap() + encode_bits(
            codes,
            data.skip(1),
        ));
    }
}

/// Reading the code bits of data with the table they were written with
/// gives the data back.
pub proof fn lemma_decode_encoded(codes: Seq<Option<Seq<bool>>>, data: Seq<u8>)
    requires
        prefix_free(codes),
        all_coded(codes, data),
    ensures
        decoded_bits(codes, encode_bits(codes, data)) == Ok::<Seq<u8>, CodecError>(data),
    decreases data.len(),
{
    if data.len() == 0 {
        assert(data =~= Seq::<u8>::empty());
    } else {
        let rest = data.skip(1);
        assert(all_coded(codes, rest)) by {
            assert forall|i: int|
                0 <= i < rest.len() implies codes[#[trigger] rest[i] as int].is_some() by {
                assert(rest[i] == data[i + 1]);
            }
        }
        lemma_decode_encoded(codes, rest);
        lemma_encode_bits_front(codes, data);
        let code = codes[data[0] as int].unwrap();
        lemma_decode_one(codes, data[0], 0, encode_bits(codes, rest));
        assert(code.skip(0) =~= code);
        assert(code.take(0) =~= Seq::<bool>::empty());
        assert(seq![data[0]] + rest =~= data);
    }
}

/// The code bits of data are as many as the code lengths of its bytes add
/// up to.
pub proof fn lemma_encode_bits_len(
    codes: Seq<Option<Seq<bool>>>,
    lengths: Seq<usize>,
    data: Seq<u8>,
)
    requires
        all_coded(codes, data),
        forall|b: int|
            0 <= b < SYMBOLS && (#[trigger] codes[b]).is_some() ==> codes[b].unwrap().len()
                == lengths[b],
    ensures
        encode_bits(codes, data).len() == total_code_length(lengths, data),
    decreases data.len(),
{
    if data.len() > 0 {
        let front = data.drop_last();
        assert(all_coded(codes, front)) by {
            assert forall|i: int|
                0 <= i < front.len() implies codes[#[trigger] front[i] as int].is_some() by {
                assert(front[i] == data[i]);
            }
        }
        lemma_encode_bits_len(codes, lengths, front);
        assert(codes[data[data.len() - 1] as int].is_some());
    }
}

/// The flags of the codes of data stand for its code bits.
pub proof fn lemma_encoded_flags_bits(codes: Seq<Option<Vec<u8>>>, data: Seq<u8>)
    requires
        codes.len() == SYMBOLS,
        all_coded(code_views(codes), data),
    ensures
        as_bits(encoded_flags(codes, data)) == encode_bits(code_views(codes), data),
    decreases data.len(),
{
    if data.len() > 0 {
        let front = data.drop_last();
        assert(all_coded(code_views(codes), front)) by {
            assert forall|i: int| 0 <= i < front.len() implies code_views(
                codes,
            )[#[trigger] front[i] as int].is_some() by {
                assert(front[i] == data[i]);
            }
        }
        lemma_encoded_flags_bits(codes, front);
        assert(code_views(codes)[data[data.len() - 1] as int].is_some());
        assert(as_bits(encoded_flags(codes, data)) =~= encode_bits(code_views(codes), data));
    } else {
        assert(as_bits(encoded_flags(codes, data)) =~= encode_bits(code_views(codes), data));
    }
}

/// The table that holds the codes of the bytes below `n` only.
pub open spec fn first_codes(codes: Seq<Option<Seq<bool>>>, n: int) -> Seq<Option<Seq<bool>>> {
    Seq::new(codes.len(), |b: int| if b < n { codes[b] } else { None })
}

/// Putting the code of one more byte into a trie that holds the codes of
/// the bytes before it gives a trie that holds these codes and the new one.
proof fn lemma_insert_keeps_match(
    before: DecodeNode,
    after: DecodeNode,
    codes: Seq<Option<Seq<bool>>>,
    n: int,
)
    requires
        prefix_free(codes),
        0 <= n < SYMBOLS,
        trie_matches(before, first_codes(codes, n)),
        match codes[n] {
            Some(code) => forall|path: Seq<bool>| #[trigger]
                after.label_at(path) == label_after_insert(before, code, n as u8, path),
            None => after == before,
        },
    ensures
        trie_matches(after, first_codes(codes, n + 1)),
{
    let old_codes = first_codes(codes, n);
    let new_codes = first_codes(codes, n + 1);
    assert forall|path: Seq<bool>| #[trigger]
        after.label_at(path) == expected_label(new_codes, path) by {
        assert(before.label_at(path) == expected_label(old_codes, path));
        assert forall|b: int| b != n implies (has_code(new_codes, b, path) == has_code(
            old_codes,
            b,
            path,
        )) && (code_goes_on(new_codes, b, path) == code_goes_on(old_codes, b, path)) by {}
        assert(!has_code(old_codes, n, path) && !code_goes_on(old_codes, n, path));
        match codes[n] {
            None => {
                assert(!has_code(new_codes, n, path) && !code_goes_on(new_codes, n, path));
                assert((exists|b: int| has_code(new_codes, b, path)) == (exists|b: int|
                    has_code(old_codes, b, path)));
                if exists|b: int| has_code(new_codes, b, path) {
                    let b1 = choose|b: int| has_code(new_codes, b, path);
                    let b2 = choose|b: int| has_code(old_codes, b, path);
                    if b1 != b2 {
                        assert(has_code(codes, b1, path) && has_code(codes, b2, path));
                        assert(path.take(path.len() as int) =~= path);
                        assert(is_prefix(codes[b1].unwrap(), codes[b2].unwrap()));
                    }
                }
                assert((exists|b: int| code_goes_on(new_codes, b, path)) == (exists|b: int|
                    code_goes_on(old_codes, b, path)));
            },
            Some(code) => {
                assert(has_code(new_codes, n, path) == (path == code));
                assert(code_goes_on(new_codes, n, path) == is_proper_prefix(path, code));
                if path == code {
                    assert(has_code(new_codes, n, path));
                    let b1 = choose|b: int| has_code(new_codes, b, path);
                    if b1 != n {
                        assert(path.take(path.len() as int) =~= path);
                        assert(is_prefix(codes[b1].unwrap(), codes[n].unwrap()));
                    }
                } else if is_proper_prefix(path, code) {
                    assert(code_goes_on(new_codes, n, path));
                    if exists|b: int| has_code(old_codes, b, path) {
                        let b2 = choose|b: int| has_code(old_codes, b, path);
                        assert(is_prefix(codes[b2].unwrap(), codes[n].unwrap()));
                    }
                    if exists|b: int| has_code(new_codes, b, path) {
                        let b1 = choose|b: int| has_code(new_codes, b, path);
                        assert(has_code(old_codes, b1, path));
                    }
                } else {
                    assert((exists|b: int| has_code(new_codes, b, path)) == (exists|b: int|
                        has_code(old_codes, b, path)));
                    if exists|b: int| has_code(new_codes, b, path) {
                        let b1 = choose|b: int| has_code(new_codes, b, path);
                        let b2 = choose|b: int| has_code(old_codes, b, path);
                        if b1 != b2 {
                            assert(has_code(codes, b1, path) && has_code(codes, b2, path));
                            assert(path.take(path.len() as int) =~= path);
                            assert(is_prefix(codes[b1].unwrap(), codes[b2].unwrap()));
                        }
                    }
                    assert((exists|b: int| code_goes_on(new_codes, b, path)) == (exists|b: int|
                        code_goes_on(old_codes, b, path)));
                }
            },
        }
    }
}

/// Builds the decoding trie of a table of codes: each byte that has a code
/// stands at the end of the path that its code spells.
pub fn build_decoding_tree(codes: &Vec<Option<Vec<u8>>>) -> (root: DecodeNode)
    requires
        prefix_free(code_views(codes@)),
    ensures
        trie_matches(root, code_views(codes@)),
{
    let mut root = DecodeNode::new();
    let ghost table = code_views(codes@);
    proof {
        assert forall|path: Seq<bool>| #[trigger]
            root.label_at(path) == expected_label(first_codes(table, 0), path) by {
            assert forall|b: int| !has_code(first_codes(table, 0), b, path) && !code_goes_on(
                first_codes(table, 0),
                b,
                path,
            ) by {}
            if path.len() > 0 {
                assert(root.child(path[0]).is_none());
            }
        }
    }
    let mut byte: usize = 0;
    while byte < SYMBOLS
        invariant
            0 <= byte <= SYMBOLS,
            table == code_views(codes@),
            prefix_free(table),
            trie_matches(root, first_codes(table, byte as int)),
        decreases SYMBOLS - byte,
    {
        let ghost before = root;
        match &codes[byte] {
            Some(code) => {
                root.insert(code.as_slice(), byte as u8);
            },
            None => {},
        }
        proof {
            lemma_insert_keeps_match(before, root, table, byte as int);
        }
        byte += 1;
    }
    proof {
        assert(first_codes(table, SYMBOLS as int) =~= table);
    }
    root
}

/// Reads bytes from a stream of code bits, given as flags, by walking the
/// trie: a step to the left for `0`, to the right for any other flag; a
/// node with a byte yields the byte and sends the walk back to the root.
/// Flags that lead out of the trie are an error, and flags at the end that
/// stop short of a byte are left over.
pub fn decode_canonical(bits: &[u8], root: &DecodeNode) -> (r: Result<Vec<u8>, CodecError>)
    ensures
        match trie_decode(*root, as_bits(bits@), Seq::empty()) {
            Ok(bytes) => r.is_ok() && r.unwrap()@ == bytes,
            Err(e) => r == Err::<Vec<u8>, CodecError>(e),
        },
{
    let mut result: Vec<u8> = Vec::new();
    let mut node = root;
    let ghost all = as_bits(bits@);
    let ghost mut pending = Seq::<bool>::empty();
    let mut i: usize = 0;
    proof {
        assert(all.skip(0) =~= all);
        match trie_decode(*root, all, Seq::empty()) {
            Ok(rest) => {
                assert(result@ + rest =~= rest);
            },
            Err(e) => {},
        }
    }
    while i < bits.len()
        invariant
            0 <= i <= bits@.len(),
            all == as_bits(bits@),
            root.node_at(pending) == Some(*node),
            trie_decode(*root, all, Seq::empty()) == match trie_decode(
                *root,
                all.skip(i as int),
                pending,
            ) {
                Ok(rest) => Ok::<Seq<u8>, CodecError>(result@ + rest),
                Err(e) => Err(e),
            },
        decreases bits@.len() - i,
    {
        let ghost path = pending.push(all[i as int]);
        let ghost done = result@;
        proof {
            lemma_node_at_push(*root, pending, all[i as int]);
            assert(all.skip(i as int)[0] == all[i as int]);
            assert(all.skip(i as int).skip(1) =~= all.skip(i + 1));
        }
        let next = if bits[i] == 0 {
            &node.left
        } else {
            &node.right
        };
        match next {
            None => {
                return Err(CodecError::CorruptInput("invalid code"));
            },
            Some(child) => {
                node = &**child;
                match node.byte {
                    Some(b) => {
                        result.push(b);
                        node = root;
                        proof {
                            pending = Seq::empty();
                            match trie_decode(*root, all.skip(i + 1), Seq::empty()) {
                                Ok(rest) => {
                                    assert(done + (seq![b] + rest) =~= result@ + rest);
                                },
                                Err(e) => {},
                            }
                        }
                    },
                    None => {
                        proof {
                            pending = path;
                        }
                    },
                }
            },
        }
        i += 1;
    }
    proof {
        assert(result@ + Seq::<u8>::empty() =~= result@);
    }
    Ok(result)
}

/// One step further down: the node at the end of a longer path is the
/// child of the node at the end of the path.
pub proof fn lemma_node_at_push(root: DecodeNode, path: Seq<bool>, bit: bool)
    ensures
        root.node_at(path.push(bit)) == match root.node_at(path) {
            Some(node) => node.child(bit),
            None => None,
        },
    decreases path.len(),
{
    let longer = path.push(bit);
    if path.len() == 0 {
        assert(longer.skip(1) =~= Seq::<bool>::empty());
        match root.child(bit) {
            Some(node) => {
                assert(node.node_at(Seq::<bool>::empty()) == Some(node));
            },
            None => {},
        }
    } else {
        assert(longer[0] == path[0]);
        assert(longer.skip(1) =~= path.skip(1).push(bit));
        match root.child(path[0]) {
            Some(node) => {
                lemma_node_at_push(node, path.skip(1), bit);
            },
            None => {},
        }
    }
}

/// Spells data out in codes: the flags of the code of each byte, one after
/// the other.
pub fn compress_canonical(buffer: &[u8], byte_codes: &Vec<Option<Vec<u8>>>) -> (compressed_bits:
    Vec<u8>)
    requires
        byte_codes@.len() == SYMBOLS,
        all_coded(code_views(byte_codes@), buffer@),
    ensures
        compressed_bits@ == encoded_flags(byte_codes@, buffer@),
        as_bits(compressed_bits@) == encode_bits(code_views(byte_codes@), buffer@),
{
    let mut compressed_bits: Vec<u8> = Vec::new();
    let mut i: usize = 0;
    while i < buffer.len()
        invariant
            0 <= i <= buffer@.len(),
            byte_codes@.len() == SYMBOLS,
            all_coded(code_views(byte_codes@), buffer@),
            compressed_bits@ == encoded_flags(byte_codes@, buffer@.take(i as int)),
        decreases buffer@.len() - i,
    {
        let byte = buffer[i];
        proof {
            assert(buffer@.take(i + 1).drop_last() =~= buffer@.take(i as int));
            assert(code_views(byte_codes@)[buffer@[i as int] as int].is_some());
        }
        match &byte_codes[byte as usize] {
            Some(code) => {
                compressed_bits.extend_from_slice(code.as_slice());
            },
            None => {},
        }
        i += 1;
    }
    proof {
        assert(buffer@.take(buffer@.len() as int) =~= buffer@);
        lemma_encoded_flags_bits(byte_codes@, buffer@);
    }
    compressed_bits
}

} // verus!
