//! Canonical code assignment: from a table of pairs of byte and code length
//! to the code of each byte.

use crate::bits::as_bits;
use crate::huffman::kraft::{
    canonical_code, is_code_of, is_length_table, kraft, lemma_code_is_canonical,
    lemma_scaled_bound, lemma_scaled_push, lemma_two_to_positive, lemma_weight_before_at_most_sum,
    lemma_weight_before_first, lemma_weight_before_next_byte, lemma_weight_before_next_length,
    precedes, scaled, two_to, weight_before, MAX_CODE_LENGTH, SYMBOLS,
};
use vstd::prelude::*;

verus! {

/// The table of code lengths that a list of pairs records: each pair sets
/// the length of its byte; a byte without a pair has length `0`.
pub open spec fn lengths_of(table: Seq<(u8, usize)>) -> Seq<usize>
    decreases table.len(),
{
    if table.len() == 0 {
        Seq::new(SYMBOLS as nat, |b: int| 0usize)
    } else {
        lengths_of(table.drop_last()).update(table.last().0 as int, table.last().1)
    }
}

/// Whether every pair records a length that a code can have.
pub open spec fn lengths_in_range(table: Seq<(u8, usize)>) -> bool {
    forall|i: int| 0 <= i < table.len() ==> 1 <= (#[trigger] table[i]).1 <= MAX_CODE_LENGTH
}

/// Whether no byte has two pairs.
pub open spec fn bytes_distinct(table: Seq<(u8, usize)>) -> bool {
    forall|i: int, j: int|
        0 <= i < j < table.len() ==> (#[trigger] table[i]).0 != (#[trigger] table[j]).0
}

/// Whether a list of pairs is a code table: every length is between 1 and
/// `MAX_CODE_LENGTH`, no byte occurs twice, and the lengths satisfy Kraft's
/// inequality.
pub open spec fn valid_table(table: Seq<(u8, usize)>) -> bool {
    &&& lengths_in_range(table)
    &&& bytes_distinct(table)
    &&& kraft(lengths_of(table))
}

/// Whether every flag is `0` or `1`.
pub open spec fn is_flags(flags: Seq<u8>) -> bool {
    forall|i: int| 0 <= i < flags.len() ==> #[trigger] flags[i] <= 1
}

/// Whether `codes` holds the canonical code of every byte that has one, as
/// flags, and nothing for the others.
pub open spec fn codes_match(codes: Seq<Option<Vec<u8>>>, lengths: Seq<usize>) -> bool {
    &&& codes.len() == SYMBOLS
    &&& forall|b: int|
        0 <= b < SYMBOLS ==> match #[trigger] codes[b] {
            Some(code) => {
                &&& lengths[b] >= 1
                &&& is_flags(code@)
                &&& as_bits(code@) == canonical_code(lengths, b)
            },
            None => lengths[b] == 0,
        }
}

/// A table of lengths has an entry for every byte; the byte of a pair has
/// the length of the last pair with that byte, and any other byte none.
pub proof fn lemma_lengths_of(table: Seq<(u8, usize)>)
    ensures
        lengths_of(table).len() == SYMBOLS,
        forall|b: int|
            0 <= b < SYMBOLS && (forall|i: int| 0 <= i < table.len() ==> (#[trigger] table[i]).0
                != b) ==> #[trigger] lengths_of(table)[b] == 0,
        bytes_distinct(table) ==> forall|i: int|
            0 <= i < table.len() ==> lengths_of(table)[(#[trigger] table[i]).0 as int]
                == table[i].1,
    decreases table.len(),
{
    if table.len() > 0 {
        let front = table.drop_last();
        lemma_lengths_of(front);
        assert forall|b: int|
            0 <= b < SYMBOLS && (forall|i: int| 0 <= i < table.len() ==> (#[trigger] table[i]).0
                != b) implies #[trigger] lengths_of(table)[b] == 0 by {
            assert(table.last().0 != b);
            assert forall|i: int| 0 <= i < front.len() implies (#[trigger] front[i]).0 != b by {
                assert(front[i] == table[i]);
            }
        }
        if bytes_distinct(table) {
            assert(bytes_distinct(front)) by {
                assert forall|i: int, j: int| 0 <= i < j < front.len() implies (
                #[trigger] front[i]).0 != (#[trigger] front[j]).0 by {
                    assert(front[i] == table[i] && front[j] == table[j]);
                }
            }
            assert forall|i: int| 0 <= i < table.len() implies lengths_of(table)[(
            #[trigger] table[i]).0 as int] == table[i].1 by {
                if i < front.len() {
                    assert(front[i] == table[i]);
                    assert(table[i].0 != table[table.len() - 1].0);
                }
            }
        }
    }
}

/// Reads the pairs into a table of code lengths. Nothing comes back if a
/// length is out of range or a byte occurs twice.
pub fn length_table(byte_length_pairs: &[(u8, usize)]) -> (r: Option<Vec<usize>>)
    ensures
        match r {
            Some(lengths) => {
                &&& lengths_in_range(byte_length_pairs@)
                &&& bytes_distinct(byte_length_pairs@)
                &&& lengths@ == lengths_of(byte_length_pairs@)
                &&& is_length_table(lengths@)
            },
            None => !(lengths_in_range(byte_length_pairs@) && bytes_distinct(byte_length_pairs@)),
        },
{
    let ghost table = byte_length_pairs@;
    let mut lengths: Vec<usize> = Vec::new();
    let mut b: usize = 0;
    while b < SYMBOLS
        invariant
            0 <= b <= SYMBOLS,
            lengths@.len() == b,
            forall|k: int| 0 <= k < b ==> #[trigger] lengths@[k] == 0,
        decreases SYMBOLS - b,
    {
        lengths.push(0);
        b += 1;
    }
    assert(lengths@ =~= lengths_of(table.take(0)));
    let mut i: usize = 0;
    while i < byte_length_pairs.len()
        invariant
            table == byte_length_pairs@,
            0 <= i <= table.len(),
            lengths@ == lengths_of(table.take(i as int)),
            lengths@.len() == SYMBOLS,
            lengths_in_range(table.take(i as int)),
            bytes_distinct(table.take(i as int)),
            forall|k: int| 0 <= k < SYMBOLS ==> #[trigger] lengths@[k] <= MAX_CODE_LENGTH,
        decreases table.len() - i,
    {
        let (byte, length) = byte_length_pairs[i];
        let ghost done = table.take(i as int);
        let ghost next = table.take(i + 1);
        proof {
            assert(next.drop_last() =~= done);
            assert(next.last() == table[i as int]);
            lemma_lengths_of(done);
        }
        if length < 1 || length > MAX_CODE_LENGTH {
            return None;
        }
        if lengths[byte as usize] != 0 {
            proof {
                if forall|j: int| 0 <= j < done.len() ==> (#[trigger] done[j]).0 != byte {
                    assert(lengths_of(done)[byte as int] == 0);
                }
                let j = choose|j: int| 0 <= j < done.len() && (#[trigger] done[j]).0 == byte;
                assert(table[j].0 == table[i as int].0);
            }
            return None;
        }
        lengths[byte as usize] = length;
        proof {
            assert(lengths_in_range(next)) by {
                assert forall|k: int| 0 <= k < next.len() implies 1 <= (#[trigger] next[k]).1
                    <= MAX_CODE_LENGTH by {
                    if k < done.len() {
                        assert(done[k] == next[k]);
                    }
                }
            }
            assert(bytes_distinct(next)) by {
                assert forall|k: int, j: int| 0 <= k < j < next.len() implies (
                #[trigger] next[k]).0 != (#[trigger] next[j]).0 by {
                    assert(done[k] == next[k]);
                    if j < done.len() {
                        assert(done[j] == next[j]);
                    } else {
                        if done[k].0 == byte {
                            assert(lengths_of(done)[done[k].0 as int] == done[k].1);
                        }
                    }
                }
            }
        }
        i += 1;
    }
    proof {
        assert(table.take(table.len() as int) =~= table);
    }
    Some(lengths)
}

/// `count` set bits.
pub open spec fn ones(count: nat) -> Seq<bool> {
    Seq::new(count, |i: int| true)
}

/// `count` cleared bits.
pub open spec fn cleared(count: nat) -> Seq<bool> {
    Seq::new(count, |i: int| false)
}

/// Cleared bits behind a bit string do not change its value.
proof fn lemma_scaled_cleared_tail(code: Seq<bool>, count: nat)
    ensures
        scaled(code + cleared(count)) == scaled(code),
    decreases count,
{
    if count == 0 {
        assert(code + cleared(0) =~= code);
    } else {
        lemma_scaled_cleared_tail(code, (count - 1) as nat);
        assert((code + cleared((count - 1) as nat)).push(false) =~= code + cleared(count));
        lemma_scaled_push(code + cleared((count - 1) as nat), 0, false);
    }
}

/// Set bits behind a bit string bring it to the end of what begins with it.
proof fn lemma_scaled_ones_tail(code: Seq<bool>, count: nat)
    requires
        code.len() + count <= MAX_CODE_LENGTH,
    ensures
        scaled(code + ones(count)) + two_to((MAX_CODE_LENGTH - code.len() - count) as nat)
            == scaled(code) + two_to((MAX_CODE_LENGTH - code.len()) as nat),
    decreases count,
{
    if count == 0 {
        assert(code + ones(0) =~= code);
    } else {
        lemma_scaled_ones_tail(code, (count - 1) as nat);
        assert((code + ones((count - 1) as nat)).push(true) =~= code + ones(count));
        lemma_scaled_push(code + ones((count - 1) as nat), 0, true);
    }
}

/// Steps a counter of flags to the next bit string of its length. The
/// result tells whether it wrapped around: from all bits set to all cleared.
fn increment(code: &mut Vec<u8>) -> (wrapped: bool)
    requires
        is_flags(old(code)@),
        old(code)@.len() <= MAX_CODE_LENGTH,
    ensures
        is_flags(final(code)@),
        final(code)@.len() == old(code)@.len(),
        !wrapped ==> scaled(as_bits(final(code)@)) == scaled(as_bits(old(code)@)) + two_to(
            (MAX_CODE_LENGTH - old(code)@.len()) as nat,
        ),
        wrapped ==> scaled(as_bits(old(code)@)) + two_to(
            (MAX_CODE_LENGTH - old(code)@.len()) as nat,
        ) == two_to(MAX_CODE_LENGTH as nat),
{
    let ghost before = as_bits(code@);
    let ghost length = code@.len();
    let mut i: usize = code.len();
    proof {
        assert(as_bits(code@) =~= before.take(i as int) + cleared(0));
        assert(before =~= before.take(i as int) + ones(0));
    }
    while i > 0 && code[i - 1] != 0
        invariant
            0 <= i <= length,
            code@.len() == length,
            length <= MAX_CODE_LENGTH,
            is_flags(code@),
            before.len() == length,
            as_bits(code@) == before.take(i as int) + cleared((length - i) as nat),
            before == before.take(i as int) + ones((length - i) as nat),
        decreases i,
    {
        let ghost previous = code@;
        proof {
            assert(as_bits(previous)[i - 1] == before.take(i as int)[i - 1]);
            assert(before[i - 1]);
        }
        code[i - 1] = 0;
        i -= 1;
        proof {
            assert forall|k: int| 0 <= k < length implies #[trigger] as_bits(code@)[k] == (
            before.take(i as int) + cleared((length - i) as nat))[k] by {
                if k != i {
                    assert(as_bits(code@)[k] == as_bits(previous)[k]);
                    assert(as_bits(previous)[k] == (before.take(i + 1) + cleared(
                        (length - i - 1) as nat,
                    ))[k]);
                }
            }
            assert(as_bits(code@) =~= before.take(i as int) + cleared((length - i) as nat));
            assert forall|k: int| 0 <= k < length implies #[trigger] before[k] == (before.take(
                i as int,
            ) + ones((length - i) as nat))[k] by {
                if k > i {
                    assert(before[k] == (before.take(i + 1) + ones((length - i - 1) as nat))[k]);
                }
            }
            assert(before =~= before.take(i as int) + ones((length - i) as nat));
        }
    }
    let ghost stem = before.take(i as int);
    proof {
        lemma_scaled_cleared_tail(stem, (length - i) as nat);
        lemma_scaled_ones_tail(stem, (length - i) as nat);
    }
    if i == 0 {
        proof {
            assert(stem =~= Seq::<bool>::empty());
        }
        true
    } else {
        let ghost previous = code@;
        proof {
            assert(as_bits(previous)[i - 1] == stem[i - 1]);
            assert(!stem[i - 1]);
        }
        code[i - 1] = 1;
        proof {
            let head = before.take(i - 1);
            assert(stem =~= head.push(false));
            assert forall|k: int| 0 <= k < length implies #[trigger] as_bits(code@)[k] == (
            head.push(true) + cleared((length - i) as nat))[k] by {
                if k != i - 1 {
                    assert(as_bits(code@)[k] == as_bits(previous)[k]);
                    assert(as_bits(previous)[k] == (stem + cleared((length - i) as nat))[k]);
                }
            }
            assert(as_bits(code@) =~= head.push(true) + cleared((length - i) as nat));
            lemma_scaled_cleared_tail(head.push(true), (length - i) as nat);
            lemma_scaled_push(head, 0, true);
            lemma_scaled_push(head, 0, false);
        }
        false
    }
}

/// Copies a counter of flags.
fn copy_flags(code: &Vec<u8>) -> (copy: Vec<u8>)
    ensures
        copy@ == code@,
{
    let mut copy: Vec<u8> = Vec::new();
    copy.extend_from_slice(code.as_slice());
    copy
}

/// Whether the codes of the bytes that come before the place
/// `(length, byte)` are assigned, and no others.
pub open spec fn assigned_up_to(
    codes: Seq<Option<Vec<u8>>>,
    lengths: Seq<usize>,
    length: int,
    byte: int,
) -> bool {
    &&& codes.len() == SYMBOLS
    &&& forall|s: int|
        0 <= s < SYMBOLS ==> match #[trigger] codes[s] {
            Some(code) => {
                &&& precedes(lengths, s, length, byte)
                &&& is_flags(code@)
                &&& is_code_of(lengths, s, as_bits(code@))
            },
            None => !precedes(lengths, s, length, byte),
        }
}

/// Assigns the canonical codes for a table of pairs of byte and code
/// length: the pairs are taken by length, then by byte value, and each gets
/// the next bit string of its length. The code of a byte stands at the
/// byte's place, as flags. Nothing comes back for a list of pairs that is
/// no code table.
pub fn generate_canonical_codes(byte_length_pairs: &[(u8, usize)]) -> (r: Option<
    Vec<Option<Vec<u8>>>,
>)
    ensures
        match r {
            Some(codes) => valid_table(byte_length_pairs@) && codes_match(
                codes@,
                lengths_of(byte_length_pairs@),
            ),
            None => !valid_table(byte_length_pairs@),
        },
{
    let lengths = match length_table(byte_length_pairs) {
        Some(lengths) => lengths,
        None => {
            return None;
        },
    };
    let mut codes: Vec<Option<Vec<u8>>> = Vec::new();
    let mut b: usize = 0;
    while b < SYMBOLS
        invariant
            0 <= b <= SYMBOLS,
            codes@.len() == b,
            forall|k: int| 0 <= k < b ==> (#[trigger] codes@[k]).is_none(),
        decreases SYMBOLS - b,
    {
        codes.push(None);
        b += 1;
    }
    let mut code: Vec<u8> = Vec::new();
    let mut full = false;
    let mut length: usize = 1;
    proof {
        lemma_weight_before_first(lengths@, SYMBOLS as nat);
        assert(as_bits(code@) =~= Seq::<bool>::empty());
    }
    while length <= MAX_CODE_LENGTH
        invariant
            1 <= length <= MAX_CODE_LENGTH + 1,
            is_length_table(lengths@),
            lengths@ == lengths_of(byte_length_pairs@),
            lengths_in_range(byte_length_pairs@),
            bytes_distinct(byte_length_pairs@),
            code@.len() == length - 1,
            is_flags(code@),
            assigned_up_to(codes@, lengths@, length as int, 0),
            !full ==> scaled(as_bits(code@)) == weight_before(
                lengths@,
                length as int,
                0,
                SYMBOLS as nat,
            ),
            full ==> weight_before(lengths@, length as int, 0, SYMBOLS as nat) == two_to(
                MAX_CODE_LENGTH as nat,
            ),
            full ==> length > 1,
        decreases MAX_CODE_LENGTH + 1 - length,
    {
        proof {
            lemma_scaled_push(as_bits(code@), 0, false);
            assert(as_bits(code@.push(0u8)) =~= as_bits(code@).push(false));
        }
        code.push(0);
        let mut byte: usize = 0;
        while byte < SYMBOLS
            invariant
                1 <= length <= MAX_CODE_LENGTH,
                0 <= byte <= SYMBOLS,
                is_length_table(lengths@),
                lengths@ == lengths_of(byte_length_pairs@),
                code@.len() == length,
                is_flags(code@),
                assigned_up_to(codes@, lengths@, length as int, byte as int),
                !full ==> scaled(as_bits(code@)) == weight_before(
                    lengths@,
                    length as int,
                    byte as int,
                    SYMBOLS as nat,
                ),
                full ==> weight_before(lengths@, length as int, byte as int, SYMBOLS as nat)
                    == two_to(MAX_CODE_LENGTH as nat),
            decreases SYMBOLS - byte,
        {
            proof {
                lemma_weight_before_next_byte(
                    lengths@,
                    length as int,
                    byte as int,
                    SYMBOLS as nat,
                );
            }
            if lengths[byte] == length {
                if full {
                    proof {
                        lemma_weight_before_at_most_sum(
                            lengths@,
                            length as int,
                            byte + 1,
                            SYMBOLS as nat,
                        );
                        lemma_two_to_positive((MAX_CODE_LENGTH - length) as nat);
                    }
                    return None;
                }
                let ghost before = codes@;
                codes[byte] = Some(copy_flags(&code));
                full = increment(&mut code);
                proof {
                    assert forall|s: int| 0 <= s < SYMBOLS implies match #[trigger] codes@[s] {
                        Some(c) => {
                            &&& precedes(lengths@, s, length as int, byte + 1)
                            &&& is_flags(c@)
                            &&& is_code_of(lengths@, s, as_bits(c@))
                        },
                        None => !precedes(lengths@, s, length as int, byte + 1),
                    } by {
                        if s != byte {
                            assert(codes@[s] == before[s]);
                        }
                    }
                }
            } else {
                proof {
                    assert forall|s: int| 0 <= s < SYMBOLS implies match #[trigger] codes@[s] {
                        Some(c) => {
                            &&& precedes(lengths@, s, length as int, byte + 1)
                            &&& is_flags(c@)
                            &&& is_code_of(lengths@, s, as_bits(c@))
                        },
                        None => !precedes(lengths@, s, length as int, byte + 1),
                    } by {}
                }
            }
            byte += 1;
        }
        proof {
            lemma_weight_before_next_length(lengths@, length as int, SYMBOLS as nat);
            assert forall|s: int| 0 <= s < SYMBOLS implies match #[trigger] codes@[s] {
                Some(c) => {
                    &&& precedes(lengths@, s, length + 1, 0)
                    &&& is_flags(c@)
                    &&& is_code_of(lengths@, s, as_bits(c@))
                },
                None => !precedes(lengths@, s, length + 1, 0),
            } by {}
        }
        length += 1;
    }
    proof {
        lemma_scaled_bound(as_bits(code@), 0);
        lemma_two_to_positive(0);
        assert(kraft(lengths@));
        assert forall|s: int| 0 <= s < SYMBOLS implies match #[trigger] codes@[s] {
            Some(c) => {
                &&& lengths@[s] >= 1
                &&& is_flags(c@)
                &&& as_bits(c@) == canonical_code(lengths@, s)
            },
            None => lengths@[s] == 0,
        } by {
            match codes@[s] {
                Some(c) => {
                    lemma_code_is_canonical(lengths@, s, as_bits(c@));
                },
                None => {},
            }
        }
    }
    Some(codes)
}

} // verus!
