//! Code lengths and the canonical codes they determine.
//!
//! A table gives each byte value a code length, `0` for a byte without a
//! code. Lengths are weighed on a common scale: a code of length `l` weighs
//! `2^(255 - l)`, the number of 255-bit strings that begin with it. Kraft's
//! inequality then says that the weights sum to at most `2^255`, and the
//! canonical code of a byte is the bit string that begins where the codes of
//! all bytes before it (shorter ones first, then smaller byte values) end.

use vstd::prelude::*;

verus! {

/// The longest code that the framed table can record.
pub const MAX_CODE_LENGTH: usize = 255;

/// The number of byte values.
pub const SYMBOLS: usize = 256;

/// Two to the power of `n`.
pub open spec fn two_to(n: nat) -> nat
    decreases n,
{
    if n == 0 {
        1
    } else {
        2 * two_to((n - 1) as nat)
    }
}

/// The weight of a code of length `length`; a length that no code can have
/// weighs nothing.
pub open spec fn weight(length: usize) -> nat {
    if 1 <= length <= MAX_CODE_LENGTH {
        two_to((MAX_CODE_LENGTH - length) as nat)
    } else {
        0
    }
}

/// Whether the byte `s` has a code that is assigned before the place of a
/// code of length `length` for the byte value `byte`.
pub open spec fn precedes(lengths: Seq<usize>, s: int, length: int, byte: int) -> bool {
    1 <= lengths[s] && (lengths[s] < length || (lengths[s] == length && s < byte))
}

/// The weight of the codes of the bytes below `n` that are assigned before
/// the place `(length, byte)`.
pub open spec fn weight_before(lengths: Seq<usize>, length: int, byte: int, n: nat) -> nat
    decreases n,
{
    if n == 0 {
        0
    } else {
        weight_before(lengths, length, byte, (n - 1) as nat) + if precedes(
            lengths,
            n - 1,
            length,
            byte,
        ) {
            weight(lengths[n - 1])
        } else {
            0
        }
    }
}

/// Where the code of `byte` begins: the weight of all codes before it.
pub open spec fn rank(lengths: Seq<usize>, byte: int) -> nat {
    weight_before(lengths, lengths[byte] as int, byte, SYMBOLS as nat)
}

/// The weight of all codes of the table.
pub open spec fn kraft_sum(lengths: Seq<usize>) -> nat {
    weight_before(lengths, MAX_CODE_LENGTH + 1, 0, SYMBOLS as nat)
}

/// Whether `lengths` is a table of code lengths: one entry per byte value,
/// none longer than `MAX_CODE_LENGTH`.
pub open spec fn is_length_table(lengths: Seq<usize>) -> bool {
    &&& lengths.len() == SYMBOLS
    &&& forall|b: int| 0 <= b < SYMBOLS ==> #[trigger] lengths[b] <= MAX_CODE_LENGTH
}

/// Kraft's inequality: the sum of `2^(-length)` over the codes is at most
/// one, scaled by `2^255`.
pub open spec fn kraft(lengths: Seq<usize>) -> bool {
    kraft_sum(lengths) <= two_to(MAX_CODE_LENGTH as nat)
}

/// The value of a bit string on the common scale, its first bit weighing
/// `2^(254 - offset)`: the number of the first 255-bit string that begins
/// with `offset` cleared bits and then `code`.
pub open spec fn scaled_at(code: Seq<bool>, offset: nat) -> nat
    decreases code.len(),
{
    if code.len() == 0 {
        0
    } else {
        scaled_at(code.drop_last(), offset) + if code.last() {
            two_to((MAX_CODE_LENGTH - offset - code.len()) as nat)
        } else {
            0
        }
    }
}

/// The value of a code on the common scale.
pub open spec fn scaled(code: Seq<bool>) -> nat {
    scaled_at(code, 0)
}

/// The `length` bits that a value on the common scale begins with, from the
/// bit that weighs `2^(254 - offset)` on.
pub open spec fn bits_from(value: nat, length: nat, offset: nat) -> Seq<bool>
    decreases length,
{
    if length == 0 {
        Seq::empty()
    } else {
        let top = two_to((MAX_CODE_LENGTH - offset - 1) as nat);
        if value >= top {
            seq![true] + bits_from((value - top) as nat, (length - 1) as nat, offset + 1)
        } else {
            seq![false] + bits_from(value, (length - 1) as nat, offset + 1)
        }
    }
}

/// The canonical code of `byte`: as many bits as its length says, beginning
/// where the codes before it end.
pub open spec fn canonical_code(lengths: Seq<usize>, byte: int) -> Seq<bool> {
    bits_from(rank(lengths, byte), lengths[byte] as nat, 0)
}

/// Whether `code` is a bit string of the length of `byte`'s code that begins
/// where the codes before it end.
pub open spec fn is_code_of(lengths: Seq<usize>, byte: int, code: Seq<bool>) -> bool {
    code.len() == lengths[byte] && scaled(code) == rank(lengths, byte)
}

/// Whether `prefix` is the beginning of `whole`.
pub open spec fn is_prefix(prefix: Seq<bool>, whole: Seq<bool>) -> bool {
    prefix.len() <= whole.len() && whole.take(prefix.len() as int) == prefix
}

/// A power of two is at least one.
pub proof fn lemma_two_to_positive(n: nat)
    ensures
        two_to(n) >= 1,
    decreases n,
{
    if n > 0 {
        lemma_two_to_positive((n - 1) as nat);
    }
}

/// A larger exponent gives a power of two that is no smaller.
pub proof fn lemma_two_to_monotonic(n: nat, m: nat)
    requires
        n <= m,
    ensures
        two_to(n) <= two_to(m),
    decreases m,
{
    if n < m {
        lemma_two_to_monotonic(n, (m - 1) as nat);
    }
}

/// Appending a bit adds its weight.
pub proof fn lemma_scaled_push(code: Seq<bool>, offset: nat, bit: bool)
    ensures
        scaled_at(code.push(bit), offset) == scaled_at(code, offset) + if bit {
            two_to((MAX_CODE_LENGTH - offset - code.len() - 1) as nat)
        } else {
            0
        },
{
    assert(code.push(bit).drop_last() =~= code);
}

/// The value of a bit string is its first bit's weight, if set, and the
/// value of the rest one place further on.
pub proof fn lemma_scaled_front(code: Seq<bool>, offset: nat)
    requires
        code.len() > 0,
    ensures
        scaled_at(code, offset) == scaled_at(code.skip(1), offset + 1) + if code[0] {
            two_to((MAX_CODE_LENGTH - offset - 1) as nat)
        } else {
            0
        },
    decreases code.len(),
{
    if code.len() == 1 {
        assert(code.drop_last() =~= Seq::<bool>::empty());
        assert(code.skip(1) =~= Seq::<bool>::empty());
        assert(scaled_at(Seq::<bool>::empty(), offset) == 0);
        assert(scaled_at(Seq::<bool>::empty(), offset + 1) == 0);
    } else {
        let front = code.drop_last();
        let rest = code.skip(1);
        lemma_scaled_front(front, offset);
        assert(rest.drop_last() =~= front.skip(1));
        assert(rest.last() == code.last());
        assert(front[0] == code[0]);
        assert(scaled_at(rest, offset + 1) == scaled_at(rest.drop_last(), offset + 1)
            + if rest.last() {
            two_to((MAX_CODE_LENGTH - (offset + 1) - rest.len()) as nat)
        } else {
            0
        });
    }
}

/// A bit string and everything that begins with it stay below the next bit
/// string of its length.
pub proof fn lemma_scaled_bound(code: Seq<bool>, offset: nat)
    requires
        offset + code.len() <= MAX_CODE_LENGTH,
    ensures
        scaled_at(code, offset) + two_to((MAX_CODE_LENGTH - offset - code.len()) as nat) <= two_to(
            (MAX_CODE_LENGTH - offset) as nat,
        ),
    decreases code.len(),
{
    if code.len() > 0 {
        lemma_scaled_bound(code.drop_last(), offset);
    }
}

/// The bits read off a value are the bit string it is the value of.
pub proof fn lemma_bits_from_scaled(code: Seq<bool>, offset: nat)
    requires
        offset + code.len() <= MAX_CODE_LENGTH,
    ensures
        bits_from(scaled_at(code, offset), code.len(), offset) == code,
    decreases code.len(),
{
    if code.len() > 0 {
        let rest = code.skip(1);
        lemma_scaled_front(code, offset);
        lemma_scaled_bound(rest, offset + 1);
        lemma_bits_from_scaled(rest, offset + 1);
        lemma_two_to_positive((MAX_CODE_LENGTH - offset - code.len()) as nat);
        assert(seq![code[0]] + rest =~= code);
    } else {
        assert(code =~= Seq::<bool>::empty());
    }
}

/// A code that satisfies `is_code_of` is the canonical code.
pub proof fn lemma_code_is_canonical(lengths: Seq<usize>, byte: int, code: Seq<bool>)
    requires
        is_code_of(lengths, byte, code),
        lengths[byte] <= MAX_CODE_LENGTH,
    ensures
        code == canonical_code(lengths, byte),
{
    lemma_bits_from_scaled(code, 0);
}

/// What begins with a bit string lies between it and the next bit string of
/// its length.
pub proof fn lemma_prefix_nests(prefix: Seq<bool>, whole: Seq<bool>)
    requires
        is_prefix(prefix, whole),
        whole.len() <= MAX_CODE_LENGTH,
    ensures
        scaled(prefix) <= scaled(whole),
        scaled(whole) + two_to((MAX_CODE_LENGTH - whole.len()) as nat) <= scaled(prefix) + two_to(
            (MAX_CODE_LENGTH - prefix.len()) as nat,
        ),
    decreases whole.len(),
{
    if prefix.len() == whole.len() {
        assert(whole.take(prefix.len() as int) =~= whole);
    } else {
        let front = whole.drop_last();
        assert(front.take(prefix.len() as int) =~= whole.take(prefix.len() as int));
        lemma_prefix_nests(prefix, front);
    }
}

/// Moving the place one byte further on adds the weight of that byte's code
/// if it is assigned at that place.
pub proof fn lemma_weight_before_next_byte(lengths: Seq<usize>, length: int, byte: int, n: nat)
    requires
        0 <= byte,
    ensures
        weight_before(lengths, length, byte + 1, n) == weight_before(lengths, length, byte, n)
            + if byte < n && lengths[byte] == length && 1 <= length {
            weight(lengths[byte])
        } else {
            0
        },
    decreases n,
{
    if n > 0 {
        lemma_weight_before_next_byte(lengths, length, byte, (n - 1) as nat);
    }
}

/// The place behind the last byte of one length is the place before the
/// first byte of the next length.
pub proof fn lemma_weight_before_next_length(lengths: Seq<usize>, length: int, n: nat)
    requires
        n <= SYMBOLS,
    ensures
        weight_before(lengths, length, SYMBOLS as int, n) == weight_before(
            lengths,
            length + 1,
            0,
            n,
        ),
    decreases n,
{
    if n > 0 {
        lemma_weight_before_next_length(lengths, length, (n - 1) as nat);
    }
}

/// No place has more before it than the table weighs.
pub proof fn lemma_weight_before_at_most_sum(lengths: Seq<usize>, length: int, byte: int, n: nat)
    requires
        is_length_table(lengths),
        n <= SYMBOLS,
    ensures
        weight_before(lengths, length, byte, n) <= weight_before(
            lengths,
            MAX_CODE_LENGTH + 1,
            0,
            n,
        ),
    decreases n,
{
    if n > 0 {
        lemma_weight_before_at_most_sum(lengths, length, byte, (n - 1) as nat);
    }
}

/// The code of a byte that comes first ends before the code of a byte that
/// comes later begins.
pub proof fn lemma_ranks_in_order(lengths: Seq<usize>, first: int, later: int, n: nat)
    requires
        0 <= first < SYMBOLS,
        0 <= later < SYMBOLS,
        lengths.len() == SYMBOLS,
        precedes(lengths, first, lengths[later] as int, later),
    ensures
        weight_before(lengths, lengths[first] as int, first, n) + (if first < n {
            weight(lengths[first])
        } else {
            0
        }) <= weight_before(lengths, lengths[later] as int, later, n),
    decreases n,
{
    if n > 0 {
        lemma_ranks_in_order(lengths, first, later, (n - 1) as nat);
    }
}

/// The canonical codes of two different bytes are prefix-free: neither
/// begins with the other.
pub proof fn lemma_codes_prefix_free(
    lengths: Seq<usize>,
    a: int,
    b: int,
    code_a: Seq<bool>,
    code_b: Seq<bool>,
)
    requires
        is_length_table(lengths),
        0 <= a < SYMBOLS,
        0 <= b < SYMBOLS,
        a != b,
        lengths[a] >= 1,
        lengths[b] >= 1,
        is_code_of(lengths, a, code_a),
        is_code_of(lengths, b, code_b),
    ensures
        !is_prefix(code_a, code_b),
{
    if is_prefix(code_a, code_b) {
        lemma_prefix_nests(code_a, code_b);
        lemma_two_to_positive((MAX_CODE_LENGTH - code_b.len()) as nat);
        if precedes(lengths, a, lengths[b] as int, b) {
            lemma_ranks_in_order(lengths, a, b, SYMBOLS as nat);
        } else {
            assert(precedes(lengths, b, lengths[a] as int, a));
            lemma_ranks_in_order(lengths, b, a, SYMBOLS as nat);
        }
    }
}

/// The bit string that follows `code` among those of its length; all bits
/// set are followed by all bits cleared.
pub open spec fn successor(code: Seq<bool>) -> Seq<bool>
    decreases code.len(),
{
    if code.len() == 0 {
        code
    } else if !code.last() {
        code.drop_last().push(true)
    } else {
        successor(code.drop_last()).push(false)
    }
}

/// A bit string with all bits set is the last of its length.
pub proof fn lemma_scaled_all_set(code: Seq<bool>)
    requires
        code.len() <= MAX_CODE_LENGTH,
        forall|i: int| 0 <= i < code.len() ==> #[trigger] code[i],
    ensures
        scaled(code) + two_to((MAX_CODE_LENGTH - code.len()) as nat) == two_to(
            MAX_CODE_LENGTH as nat,
        ),
    decreases code.len(),
{
    if code.len() > 0 {
        let front = code.drop_last();
        assert forall|i: int| 0 <= i < front.len() implies #[trigger] front[i] by {
            assert(front[i] == code[i]);
        }
        lemma_scaled_all_set(front);
    }
}

/// The successor of a bit string that is not the last of its length is
/// worth one more at that length.
pub proof fn lemma_successor(code: Seq<bool>)
    requires
        code.len() <= MAX_CODE_LENGTH,
        exists|i: int| 0 <= i < code.len() && !#[trigger] code[i],
    ensures
        successor(code).len() == code.len(),
        scaled(successor(code)) == scaled(code) + two_to((MAX_CODE_LENGTH - code.len()) as nat),
    decreases code.len(),
{
    let front = code.drop_last();
    if !code.last() {
        lemma_scaled_push(front, 0, true);
    } else {
        let i = choose|i: int| 0 <= i < code.len() && !#[trigger] code[i];
        assert(!front[i]);
        lemma_successor(front);
        lemma_scaled_push(successor(front), 0, false);
    }
}

/// Nothing is assigned before the first place.
pub proof fn lemma_weight_before_first(lengths: Seq<usize>, n: nat)
    ensures
        weight_before(lengths, 1, 0, n) == 0,
    decreases n,
{
    if n > 0 {
        lemma_weight_before_first(lengths, (n - 1) as nat);
    }
}

/// At every place that the codes before it have not filled up, there is a
/// bit string of the length of the place that begins where they end.
pub proof fn lemma_place_has_code(lengths: Seq<usize>, length: int, byte: int) -> (code: Seq<bool>)
    requires
        is_length_table(lengths),
        1 <= length <= MAX_CODE_LENGTH,
        0 <= byte <= SYMBOLS,
        weight_before(lengths, length, byte, SYMBOLS as nat) < two_to(MAX_CODE_LENGTH as nat),
    ensures
        code.len() == length,
        scaled(code) == weight_before(lengths, length, byte, SYMBOLS as nat),
    decreases length, byte,
{
    if byte == 0 {
        if length == 1 {
            lemma_weight_before_first(lengths, SYMBOLS as nat);
            let code = seq![false];
            assert(code.drop_last() =~= Seq::<bool>::empty());
            assert(scaled_at(Seq::<bool>::empty(), 0) == 0);
            code
        } else {
            lemma_weight_before_next_length(lengths, length - 1, SYMBOLS as nat);
            let shorter = lemma_place_has_code(lengths, length - 1, SYMBOLS as int);
            lemma_scaled_push(shorter, 0, false);
            shorter.push(false)
        }
    } else {
        lemma_weight_before_next_byte(lengths, length, byte - 1, SYMBOLS as nat);
        let before = lemma_place_has_code(lengths, length, byte - 1);
        if lengths[byte - 1] == length {
            if forall|i: int| 0 <= i < before.len() ==> #[trigger] before[i] {
                lemma_scaled_all_set(before);
            }
            lemma_successor(before);
            successor(before)
        } else {
            before
        }
    }
}

/// Every byte of a table that satisfies Kraft's inequality has a canonical
/// code: a bit string of its length that begins where the codes before it
/// end.
pub proof fn lemma_canonical_code_exists(lengths: Seq<usize>, byte: int)
    requires
        is_length_table(lengths),
        kraft(lengths),
        0 <= byte < SYMBOLS,
        lengths[byte] >= 1,
    ensures
        is_code_of(lengths, byte, canonical_code(lengths, byte)),
{
    let length = lengths[byte] as int;
    lemma_weight_before_next_byte(lengths, length, byte, SYMBOLS as nat);
    lemma_weight_before_at_most_sum(lengths, length, byte + 1, SYMBOLS as nat);
    lemma_two_to_positive((MAX_CODE_LENGTH - length) as nat);
    let code = lemma_place_has_code(lengths, length, byte);
    lemma_code_is_canonical(lengths, byte, code);
}

} // verus!
