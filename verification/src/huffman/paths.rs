//! The codes that a Huffman tree gives to the bytes, and their lengths.

use crate::bits::as_bits;
use crate::huffman::canonical::{bytes_distinct, is_flags, lengths_in_range, lengths_of};
use crate::huffman::kraft::{
    is_length_table, kraft, lemma_two_to_monotonic, lemma_two_to_positive, two_to, weight,
    weight_before, MAX_CODE_LENGTH, SYMBOLS,
};
use crate::huffman::tree::{
    holds, lemma_proper_holds_some, path_to, proper, HuffmanNode, HuffmanTree,
};
use vstd::prelude::*;

verus! {

impl HuffmanTree {
    /// Whether the nodes form a tree with the root last, or there are none.
    pub open spec fn wf(self) -> bool {
        self.nodes@.len() == 0 || proper(self.nodes@, self.nodes@.len() - 1)
    }
}

/// The code that a tree gives to `byte`: the path from the root to its
/// leaf. A tree of a single leaf gives its byte a single cleared bit, and a
/// byte without a leaf has no code.
pub open spec fn tree_code(nodes: Seq<HuffmanNode>, byte: u8) -> Seq<bool> {
    if nodes.len() == 0 || !holds(nodes, nodes.len() - 1, byte) {
        Seq::empty()
    } else if nodes.last() is Leaf {
        seq![false]
    } else {
        path_to(nodes, nodes.len() - 1, byte)
    }
}

/// The table of the lengths of the codes that a tree gives.
pub open spec fn tree_lengths(nodes: Seq<HuffmanNode>) -> Seq<usize> {
    Seq::new(SYMBOLS as nat, |b: int| tree_code(nodes, b as u8).len() as usize)
}

/// The number of leaves of the subtree at position `i` for bytes below `n`.
pub open spec fn leaf_count(nodes: Seq<HuffmanNode>, i: int, n: nat) -> nat
    decreases n,
{
    if n == 0 {
        0
    } else {
        leaf_count(nodes, i, (n - 1) as nat) + if holds(nodes, i, (n - 1) as u8) {
            1nat
        } else {
            0nat
        }
    }
}

/// The weight of the paths to the leaves of the subtree at position `i`
/// for bytes below `n`, when the subtree hangs `depth` steps below a root.
pub open spec fn tree_sum(nodes: Seq<HuffmanNode>, i: int, depth: nat, n: nat) -> nat
    decreases n,
{
    if n == 0 {
        0
    } else {
        tree_sum(nodes, i, depth, (n - 1) as nat) + if holds(nodes, i, (n - 1) as u8) {
            two_to((MAX_CODE_LENGTH - depth - path_to(nodes, i, (n - 1) as u8).len()) as nat)
        } else {
            0
        }
    }
}

/// A subtree has at most one leaf per byte value, and at least one if it
/// holds a byte.
proof fn lemma_leaf_count_bounds(nodes: Seq<HuffmanNode>, i: int, n: nat)
    requires
        n <= SYMBOLS,
    ensures
        leaf_count(nodes, i, n) <= n,
        forall|byte: u8| byte < n && holds(nodes, i, byte) ==> leaf_count(nodes, i, n) >= 1,
    decreases n,
{
    if n > 0 {
        lemma_leaf_count_bounds(nodes, i, (n - 1) as nat);
        assert forall|byte: u8| byte < n && holds(nodes, i, byte) implies leaf_count(nodes, i, n)
            >= 1 by {
            if byte == n - 1 {
                assert(byte == (n - 1) as u8);
            }
        }
    }
}

/// A leaf counts once and weighs what its place weighs.
proof fn lemma_leaf_sums(nodes: Seq<HuffmanNode>, i: int, depth: nat, n: nat)
    requires
        0 <= i < nodes.len(),
        nodes[i] is Leaf,
        n <= SYMBOLS,
    ensures
        leaf_count(nodes, i, n) == if nodes[i]->Leaf_byte < n {
            1nat
        } else {
            0nat
        },
        tree_sum(nodes, i, depth, n) == if nodes[i]->Leaf_byte < n {
            two_to((MAX_CODE_LENGTH - depth) as nat)
        } else {
            0
        },
    decreases n,
{
    if n > 0 {
        lemma_leaf_sums(nodes, i, depth, (n - 1) as nat);
    }
}

/// An inner node has the leaves of both subtrees, each one step deeper.
proof fn lemma_inner_sums(nodes: Seq<HuffmanNode>, i: int, depth: nat, n: nat)
    requires
        proper(nodes, i),
        nodes[i] is Internal,
        n <= SYMBOLS,
    ensures
        leaf_count(nodes, i, n) == leaf_count(nodes, nodes[i]->left as int, n) + leaf_count(
            nodes,
            nodes[i]->right as int,
            n,
        ),
        tree_sum(nodes, i, depth, n) == tree_sum(nodes, nodes[i]->left as int, depth + 1, n)
            + tree_sum(nodes, nodes[i]->right as int, depth + 1, n),
    decreases n,
{
    if n > 0 {
        lemma_inner_sums(nodes, i, depth, (n - 1) as nat);
        let byte = (n - 1) as u8;
        let left = nodes[i]->left as int;
        let right = nodes[i]->right as int;
        assert(!(holds(nodes, left, byte) && holds(nodes, right, byte)));
        if holds(nodes, left, byte) {
            assert(path_to(nodes, i, byte).len() == 1 + path_to(nodes, left, byte).len());
        } else if holds(nodes, right, byte) {
            assert(path_to(nodes, i, byte).len() == 1 + path_to(nodes, right, byte).len());
        }
    }
}

/// A tree with `k` leaves has no path longer than `k - 1`, and the weights
/// of its paths make up the weight of the place where it hangs.
pub proof fn lemma_tree_sum(nodes: Seq<HuffmanNode>, i: int, depth: nat)
    requires
        proper(nodes, i),
        depth + leaf_count(nodes, i, SYMBOLS as nat) <= MAX_CODE_LENGTH + 1,
    ensures
        leaf_count(nodes, i, SYMBOLS as nat) >= 1,
        tree_sum(nodes, i, depth, SYMBOLS as nat) == two_to((MAX_CODE_LENGTH - depth) as nat),
        forall|byte: u8| #[trigger]
            holds(nodes, i, byte) ==> depth + path_to(nodes, i, byte).len() + 1 <= depth
                + leaf_count(nodes, i, SYMBOLS as nat),
    decreases i,
{
    lemma_proper_holds_some(nodes, i);
    lemma_leaf_count_bounds(nodes, i, SYMBOLS as nat);
    match nodes[i] {
        HuffmanNode::Leaf { weight, byte } => {
            lemma_leaf_sums(nodes, i, depth, SYMBOLS as nat);
        },
        HuffmanNode::Internal { weight, left, right } => {
            lemma_inner_sums(nodes, i, depth, SYMBOLS as nat);
            lemma_proper_holds_some(nodes, left as int);
            lemma_proper_holds_some(nodes, right as int);
            lemma_leaf_count_bounds(nodes, left as int, SYMBOLS as nat);
            lemma_leaf_count_bounds(nodes, right as int, SYMBOLS as nat);
            lemma_tree_sum(nodes, left as int, depth + 1);
            lemma_tree_sum(nodes, right as int, depth + 1);
            assert forall|byte: u8| #[trigger] holds(nodes, i, byte) implies depth + path_to(
                nodes,
                i,
                byte,
            ).len() + 1 <= depth + leaf_count(nodes, i, SYMBOLS as nat) by {
                if holds(nodes, left as int, byte) {
                    assert(path_to(nodes, i, byte).len() == 1 + path_to(
                        nodes,
                        left as int,
                        byte,
                    ).len());
                } else {
                    assert(holds(nodes, right as int, byte));
                    assert(path_to(nodes, i, byte).len() == 1 + path_to(
                        nodes,
                        right as int,
                        byte,
                    ).len());
                }
            }
        },
    }
}

/// The lengths of the codes of a tree with an inner root weigh what the
/// paths of the tree weigh.
proof fn lemma_kraft_sum_of_tree(nodes: Seq<HuffmanNode>, n: nat)
    requires
        nodes.len() > 0,
        proper(nodes, nodes.len() - 1),
        nodes.last() is Internal,
        n <= SYMBOLS,
        forall|byte: u8| #[trigger]
            holds(nodes, nodes.len() - 1, byte) ==> path_to(nodes, nodes.len() - 1, byte).len()
                <= MAX_CODE_LENGTH,
    ensures
        weight_before(tree_lengths(nodes), MAX_CODE_LENGTH + 1, 0, n) == tree_sum(
            nodes,
            nodes.len() - 1,
            0,
            n,
        ),
    decreases n,
{
    if n > 0 {
        lemma_kraft_sum_of_tree(nodes, (n - 1) as nat);
        let byte = (n - 1) as u8;
        let root = nodes.len() - 1;
        assert(tree_lengths(nodes)[n - 1] == tree_code(nodes, byte).len());
        if holds(nodes, root, byte) {
            assert(path_to(nodes, root, byte).len() >= 1);
        }
    }
}

/// The single code of a tree of one leaf weighs half of the scale.
proof fn lemma_kraft_sum_of_leaf(nodes: Seq<HuffmanNode>, n: nat)
    requires
        nodes.len() > 0,
        nodes.last() is Leaf,
        n <= SYMBOLS,
    ensures
        weight_before(tree_lengths(nodes), MAX_CODE_LENGTH + 1, 0, n) == if nodes.last()->Leaf_byte
            < n {
            two_to((MAX_CODE_LENGTH - 1) as nat)
        } else {
            0
        },
    decreases n,
{
    if n > 0 {
        lemma_kraft_sum_of_leaf(nodes, (n - 1) as nat);
        let byte = (n - 1) as u8;
        assert(tree_lengths(nodes)[n - 1] == tree_code(nodes, byte).len());
    }
}

/// The lengths of the codes of a tree satisfy Kraft's inequality, and none
/// is longer than `MAX_CODE_LENGTH`.
pub proof fn lemma_tree_lengths_kraft(nodes: Seq<HuffmanNode>)
    requires
        nodes.len() == 0 || proper(nodes, nodes.len() - 1),
    ensures
        is_length_table(tree_lengths(nodes)),
        kraft(tree_lengths(nodes)),
{
    let lengths = tree_lengths(nodes);
    if nodes.len() == 0 {
        lemma_kraft_sum_of_nothing(lengths, SYMBOLS as nat);
        lemma_two_to_positive(MAX_CODE_LENGTH as nat);
    } else {
        let root = nodes.len() - 1;
        lemma_leaf_count_bounds(nodes, root, SYMBOLS as nat);
        lemma_tree_sum(nodes, root, 0);
        if nodes.last() is Leaf {
            lemma_kraft_sum_of_leaf(nodes, SYMBOLS as nat);
            lemma_two_to_monotonic((MAX_CODE_LENGTH - 1) as nat, MAX_CODE_LENGTH as nat);
        } else {
            lemma_kraft_sum_of_tree(nodes, SYMBOLS as nat);
        }
        assert forall|b: int| 0 <= b < SYMBOLS implies #[trigger] lengths[b] <= MAX_CODE_LENGTH by {
            let byte = b as u8;
            if holds(nodes, root, byte) {
                assert(path_to(nodes, root, byte).len() + 1 <= leaf_count(
                    nodes,
                    root,
                    SYMBOLS as nat,
                ));
            }
        }
    }
}

/// The code that a tree gives to a byte is at most `MAX_CODE_LENGTH` bits
/// long, and it is empty just for the bytes without a leaf.
pub proof fn lemma_tree_code(nodes: Seq<HuffmanNode>, byte: u8)
    requires
        nodes.len() == 0 || proper(nodes, nodes.len() - 1),
    ensures
        tree_code(nodes, byte).len() <= MAX_CODE_LENGTH,
        tree_lengths(nodes)[byte as int] == tree_code(nodes, byte).len(),
        tree_code(nodes, byte).len() >= 1 <==> nodes.len() > 0 && holds(
            nodes,
            nodes.len() - 1,
            byte,
        ),
{
    if nodes.len() > 0 {
        let root = nodes.len() - 1;
        lemma_leaf_count_bounds(nodes, root, SYMBOLS as nat);
        lemma_tree_sum(nodes, root, 0);
        if holds(nodes, root, byte) {
            assert(path_to(nodes, root, byte).len() + 1 <= leaf_count(nodes, root, SYMBOLS as nat));
            if nodes.last() is Internal {
                assert(path_to(nodes, root, byte).len() >= 1);
            }
        }
    }
    let place = byte as int;
    assert(tree_lengths(nodes)[place] == tree_code(nodes, place as u8).len() as usize);
}

/// A table without codes weighs nothing.
proof fn lemma_kraft_sum_of_nothing(lengths: Seq<usize>, n: nat)
    requires
        lengths.len() == SYMBOLS,
        n <= SYMBOLS,
        forall|b: int| 0 <= b < SYMBOLS ==> #[trigger] lengths[b] == 0,
    ensures
        weight_before(lengths, MAX_CODE_LENGTH + 1, 0, n) == 0,
    decreases n,
{
    if n > 0 {
        lemma_kraft_sum_of_nothing(lengths, (n - 1) as nat);
    }
}

/// Walks the subtree at position `i` and records, for each of its leaves,
/// the path `current` followed by the path from `i` to the leaf.
fn traverse(nodes: &Vec<HuffmanNode>, i: usize, current: Vec<u8>, codes: &mut Vec<Vec<u8>>)
    requires
        proper(nodes@, i as int),
        old(codes)@.len() == SYMBOLS,
        is_flags(current@),
    ensures
        final(codes)@.len() == SYMBOLS,
        forall|byte: u8| #[trigger]
            holds(nodes@, i as int, byte) ==> is_flags(final(codes)@[byte as int]@) && as_bits(
                final(codes)@[byte as int]@,
            ) == as_bits(current@) + path_to(nodes@, i as int, byte),
        forall|byte: u8|
            !holds(nodes@, i as int, byte) ==> #[trigger] final(codes)@[byte as int] == old(
                codes,
            )@[byte as int],
    decreases i,
{
    match nodes[i] {
        HuffmanNode::Leaf { weight, byte } => {
            proof {
                assert(as_bits(current@) + Seq::<bool>::empty() =~= as_bits(current@));
            }
            codes[byte as usize] = current;
        },
        HuffmanNode::Internal { weight, left, right } => {
            let mut left_code = current.clone();
            left_code.push(0);
            let mut right_code = current;
            right_code.push(1);
            proof {
                assert(as_bits(left_code@) =~= as_bits(current@).push(false));
                assert(as_bits(right_code@) =~= as_bits(current@).push(true));
            }
            traverse(nodes, left, left_code, codes);
            let ghost halfway = codes@;
            traverse(nodes, right, right_code, codes);
            proof {
                assert forall|byte: u8| #[trigger] holds(nodes@, i as int, byte) implies is_flags(
                    codes@[byte as int]@,
                ) && as_bits(codes@[byte as int]@) == as_bits(current@) + path_to(
                    nodes@,
                    i as int,
                    byte,
                ) by {
                    assert(!(holds(nodes@, left as int, byte) && holds(
                        nodes@,
                        right as int,
                        byte,
                    )));
                    if holds(nodes@, left as int, byte) {
                        assert(codes@[byte as int] == halfway[byte as int]);
                        assert(as_bits(current@).push(false) + path_to(nodes@, left as int, byte)
                            =~= as_bits(current@) + (seq![false] + path_to(
                            nodes@,
                            left as int,
                            byte,
                        )));
                    } else {
                        assert(holds(nodes@, right as int, byte));
                        assert(as_bits(current@).push(true) + path_to(nodes@, right as int, byte)
                            =~= as_bits(current@) + (seq![true] + path_to(
                            nodes@,
                            right as int,
                            byte,
                        )));
                    }
                }
                assert forall|byte: u8|
                    !holds(nodes@, i as int, byte) implies #[trigger] codes@[byte as int] == old(
                    codes,
                )@[byte as int] by {
                    assert(codes@[byte as int] == halfway[byte as int]);
                }
            }
        },
    }
}

/// Reads the code of every byte off a tree, as flags: the path from the
/// root to the byte's leaf, `0` for a step to the left and `1` for a step to
/// the right. A tree of a single leaf gives its byte the code `0`; a byte
/// without a leaf gets the empty code.
pub fn generate_byte_codes(tree: &HuffmanTree) -> (codes: Vec<Vec<u8>>)
    requires
        tree.wf(),
    ensures
        codes@.len() == SYMBOLS,
        forall|b: int|
            0 <= b < SYMBOLS ==> is_flags((#[trigger] codes@[b])@) && as_bits(codes@[b]@)
                == tree_code(tree.nodes@, b as u8),
{
    let mut codes: Vec<Vec<u8>> = Vec::new();
    let mut b: usize = 0;
    while b < SYMBOLS
        invariant
            0 <= b <= SYMBOLS,
            codes@.len() == b,
            forall|k: int| 0 <= k < b ==> (#[trigger] codes@[k])@.len() == 0,
        decreases SYMBOLS - b,
    {
        codes.push(Vec::new());
        b += 1;
    }
    if tree.nodes.len() == 0 {
        proof {
            assert forall|b: int| 0 <= b < SYMBOLS implies is_flags((#[trigger] codes@[b])@)
                && as_bits(codes@[b]@) == tree_code(tree.nodes@, b as u8) by {
                assert(as_bits(codes@[b]@) =~= Seq::<bool>::empty());
            }
        }
        return codes;
    }
    let root = tree.nodes.len() - 1;
    let ghost blank = codes@;
    match tree.nodes[root] {
        HuffmanNode::Leaf { weight, byte } => {
            let mut code: Vec<u8> = Vec::new();
            code.push(0);
            codes[byte as usize] = code;
            proof {
                assert forall|b: int| 0 <= b < SYMBOLS implies is_flags((#[trigger] codes@[b])@)
                    && as_bits(codes@[b]@) == tree_code(tree.nodes@, b as u8) by {
                    if b == byte {
                        assert(as_bits(codes@[b]@) =~= seq![false]);
                    } else {
                        assert(codes@[b] == blank[b]);
                        assert(as_bits(codes@[b]@) =~= Seq::<bool>::empty());
                    }
                }
            }
        },
        HuffmanNode::Internal { weight, left, right } => {
            let start: Vec<u8> = Vec::new();
            traverse(&tree.nodes, root, start, &mut codes);
            proof {
                assert forall|b: int| 0 <= b < SYMBOLS implies is_flags((#[trigger] codes@[b])@)
                    && as_bits(codes@[b]@) == tree_code(tree.nodes@, b as u8) by {
                    let byte = b as u8;
                    if holds(tree.nodes@, root as int, byte) {
                        assert(as_bits(start@) + path_to(tree.nodes@, root as int, byte)
                            =~= path_to(tree.nodes@, root as int, byte));
                    } else {
                        assert(codes@[byte as int] == blank[byte as int]);
                        assert(as_bits(codes@[b]@) =~= Seq::<bool>::empty());
                    }
                }
            }
        },
    }
    codes
}

/// Whether `table` lists the bytes that have a code in `lengths`, in
/// ascending order, each with its length.
pub open spec fn is_table_of(table: Seq<(u8, usize)>, lengths: Seq<usize>) -> bool {
    &&& forall|i: int, j: int|
        0 <= i < j < table.len() ==> (#[trigger] table[i]).0 < (#[trigger] table[j]).0
    &&& forall|i: int|
        0 <= i < table.len() ==> (#[trigger] table[i]).1 == lengths[table[i].0 as int] && table[i].1
            >= 1
    &&& forall|b: int|
        0 <= b < SYMBOLS && #[trigger] lengths[b] >= 1 ==> exists|i: int|
            0 <= i < table.len() && (#[trigger] table[i]).0 == b
}

/// The table of a table of lengths records just these lengths.
pub proof fn lemma_table_records_lengths(table: Seq<(u8, usize)>, lengths: Seq<usize>)
    requires
        is_length_table(lengths),
        is_table_of(table, lengths),
    ensures
        lengths_in_range(table),
        bytes_distinct(table),
        lengths_of(table) == lengths,
        table.len() <= SYMBOLS,
{
    crate::huffman::canonical::lemma_lengths_of(table);
    assert forall|b: int| 0 <= b < SYMBOLS implies #[trigger] lengths_of(table)[b]
        == lengths[b] by {
        if lengths[b] >= 1 {
            let i = choose|i: int| 0 <= i < table.len() && (#[trigger] table[i]).0 == b;
            assert(lengths_of(table)[table[i].0 as int] == table[i].1);
        } else {
            assert forall|i: int| 0 <= i < table.len() implies (#[trigger] table[i]).0 != b by {
                if table[i].0 == b {
                    assert(table[i].1 == lengths[b]);
                }
            }
        }
    }
    assert(lengths_of(table) =~= lengths);
    lemma_ascending_is_short(table, table.len() as int);
}

/// A list of pairs with ascending bytes has no more entries than there are
/// byte values.
proof fn lemma_ascending_is_short(table: Seq<(u8, usize)>, n: int)
    requires
        0 <= n <= table.len(),
        forall|i: int, j: int|
            0 <= i < j < table.len() ==> (#[trigger] table[i]).0 < (#[trigger] table[j]).0,
    ensures
        n > 0 ==> table[n - 1].0 >= n - 1,
        n <= SYMBOLS,
    decreases n,
{
    if n > 1 {
        lemma_ascending_is_short(table, n - 1);
        assert(table[n - 2].0 < table[n - 1].0);
    }
}

/// Lists the bytes that have a code, in ascending order, each with the
/// length of its code.
pub fn code_lengths(byte_codes: &Vec<Vec<u8>>) -> (table: Vec<(u8, usize)>)
    requires
        byte_codes@.len() == SYMBOLS,
    ensures
        is_table_of(table@, Seq::new(SYMBOLS as nat, |b: int| byte_codes@[b]@.len() as usize)),
{
    let ghost lengths = Seq::new(SYMBOLS as nat, |b: int| byte_codes@[b]@.len() as usize);
    let mut table: Vec<(u8, usize)> = Vec::new();
    let mut b: usize = 0;
    while b < SYMBOLS
        invariant
            0 <= b <= SYMBOLS,
            byte_codes@.len() == SYMBOLS,
            lengths == Seq::new(SYMBOLS as nat, |b: int| byte_codes@[b]@.len() as usize),
            forall|i: int| 0 <= i < table@.len() ==> (#[trigger] table@[i]).0 < b,
            forall|i: int, j: int|
                0 <= i < j < table@.len() ==> (#[trigger] table@[i]).0 < (#[trigger] table@[j]).0,
            forall|i: int|
                0 <= i < table@.len() ==> (#[trigger] table@[i]).1 == lengths[table@[i].0 as int]
                    && table@[i].1 >= 1,
            forall|k: int|
                0 <= k < b && #[trigger] lengths[k] >= 1 ==> exists|i: int|
                    0 <= i < table@.len() && (#[trigger] table@[i]).0 == k,
        decreases SYMBOLS - b,
    {
        let length = byte_codes[b].len();
        if length > 0 {
            let ghost before = table@;
            table.push((b as u8, length));
            proof {
                assert forall|k: int| 0 <= k < b + 1 && #[trigger] lengths[k] >= 1 implies exists|
                    i: int,
                | 0 <= i < table@.len() && (#[trigger] table@[i]).0 == k by {
                    if k < b {
                        let i = choose|i: int|
                            0 <= i < before.len() && (#[trigger] before[i]).0 == k;
                        assert(table@[i] == before[i]);
                    } else {
                        assert(table@[table@.len() - 1].0 == k);
                    }
                }
            }
        }
        b += 1;
    }
    table
}

} // verus!
