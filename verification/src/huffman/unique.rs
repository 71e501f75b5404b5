//! There is one Huffman tree for a table of frequencies, and one table of
//! its code lengths: what the builder makes is a function of the
//! frequencies alone.

use crate::huffman::kraft::SYMBOLS;
use crate::huffman::paths::is_table_of;
use crate::huffman::tree::{
    has_child, holds, is_lightest_waiting, is_tree_for, lemma_proper_holds_some, merged_before,
    merges_lightest, proper, waits_at, weight_of, HuffmanNode,
};
use vstd::prelude::*;

verus! {

/// Whether `nodes` is the Huffman tree of a full table of frequencies.
#[verifier::opaque]
spec fn grown_from(nodes: Seq<HuffmanNode>, frequencies: Seq<usize>) -> bool {
    is_tree_for(nodes, frequencies) && frequencies.len() == SYMBOLS
}

/// A leaf weighs as often as its byte occurs, and stands behind the leaves
/// of smaller bytes only.
proof fn lemma_about_leaf(nodes: Seq<HuffmanNode>, frequencies: Seq<usize>, i: int, j: int)
    requires
        grown_from(nodes, frequencies),
        0 <= j <= i < nodes.len(),
        nodes[i] is Leaf,
    ensures
        nodes[i]->Leaf_weight == frequencies[nodes[i]->Leaf_byte as int],
        nodes[j] is Leaf,
        j < i ==> nodes[j]->Leaf_byte < nodes[i]->Leaf_byte,
{
    reveal(grown_from);
}

/// An inner node stands behind its subtrees, weighs what they weigh
/// together, and merges the two lightest trees that wait when it is made.
proof fn lemma_about_inner(nodes: Seq<HuffmanNode>, frequencies: Seq<usize>, i: int)
    requires
        grown_from(nodes, frequencies),
        0 <= i < nodes.len(),
        nodes[i] is Internal,
    ensures
        0 <= nodes[i]->left < i,
        0 <= nodes[i]->right < i,
        nodes[i]->Internal_weight == weight_of(nodes[nodes[i]->left as int]) + weight_of(
            nodes[nodes[i]->right as int],
        ),
        is_lightest_waiting(nodes, nodes[i]->left as int, i, -1),
        is_lightest_waiting(nodes, nodes[i]->right as int, i, nodes[i]->left as int),
{
    reveal(grown_from);
    assert(merges_lightest(nodes, i));
}

/// The root holds the bytes that occur, and every other node is a child of
/// a later node.
proof fn lemma_about_root(nodes: Seq<HuffmanNode>, frequencies: Seq<usize>, j: int, byte: u8)
    requires
        grown_from(nodes, frequencies),
    ensures
        frequencies.len() == SYMBOLS,
        nodes.len() == 0 ==> frequencies[byte as int] == 0,
        nodes.len() > 0 ==> proper(nodes, nodes.len() - 1),
        nodes.len() > 0 ==> (holds(nodes, nodes.len() - 1, byte) <==> frequencies[byte as int] > 0),
        0 <= j < nodes.len() - 1 ==> merged_before(nodes, j, nodes.len() as int),
{
    reveal(grown_from);
}

/// What a subtree holds, the whole tree holds.
proof fn lemma_held_by_root(nodes: Seq<HuffmanNode>, frequencies: Seq<usize>, j: int, byte: u8)
    requires
        grown_from(nodes, frequencies),
        0 <= j < nodes.len(),
        holds(nodes, j, byte),
    ensures
        holds(nodes, nodes.len() - 1, byte),
    decreases nodes.len() - j,
{
    if j < nodes.len() - 1 {
        lemma_about_root(nodes, frequencies, j, byte);
        let k = choose|k: int|
            0 <= k < nodes.len() && k < nodes.len() && has_child(#[trigger] nodes[k], j);
        lemma_about_inner(nodes, frequencies, k);
        assert(holds(nodes, k, byte));
        lemma_held_by_root(nodes, frequencies, k, byte);
    }
}

/// A byte that a subtree holds has a leaf in it.
proof fn lemma_held_has_leaf(nodes: Seq<HuffmanNode>, i: int, byte: u8) -> (j: int)
    requires
        holds(nodes, i, byte),
    ensures
        0 <= j <= i,
        j < nodes.len(),
        nodes[j] is Leaf,
        nodes[j]->Leaf_byte == byte,
    decreases i,
{
    match nodes[i] {
        HuffmanNode::Leaf { weight, byte: leaf } => i,
        HuffmanNode::Internal { weight, left, right } => {
            if holds(nodes, left as int, byte) {
                lemma_held_has_leaf(nodes, left as int, byte)
            } else {
                lemma_held_has_leaf(nodes, right as int, byte)
            }
        },
    }
}

/// The byte of a leaf occurs.
proof fn lemma_leaf_occurs(nodes: Seq<HuffmanNode>, frequencies: Seq<usize>, i: int)
    requires
        grown_from(nodes, frequencies),
        0 <= i < nodes.len(),
        nodes[i] is Leaf,
    ensures
        frequencies[nodes[i]->Leaf_byte as int] > 0,
{
    let byte = nodes[i]->Leaf_byte;
    assert(holds(nodes, i, byte));
    lemma_held_by_root(nodes, frequencies, i, byte);
    lemma_about_root(nodes, frequencies, 0, byte);
}

/// A byte that occurs has a leaf.
proof fn lemma_occurring_has_leaf(nodes: Seq<HuffmanNode>, frequencies: Seq<usize>, byte: u8) -> (j:
    int)
    requires
        grown_from(nodes, frequencies),
        frequencies[byte as int] > 0,
    ensures
        0 <= j < nodes.len(),
        nodes[j] is Leaf,
        nodes[j]->Leaf_byte == byte,
{
    lemma_about_root(nodes, frequencies, 0, byte);
    lemma_held_has_leaf(nodes, nodes.len() - 1, byte)
}

/// Two Huffman trees of one table of frequencies have the same leaves at
/// the same places.
proof fn lemma_leaves_agree(
    a: Seq<HuffmanNode>,
    b: Seq<HuffmanNode>,
    frequencies: Seq<usize>,
    i: int,
)
    requires
        grown_from(a, frequencies),
        grown_from(b, frequencies),
        0 <= i < a.len(),
        a[i] is Leaf,
    ensures
        i < b.len(),
        b[i] == a[i],
    decreases i,
{
    let byte = a[i]->Leaf_byte;
    lemma_leaf_occurs(a, frequencies, i);
    lemma_about_leaf(a, frequencies, i, i);
    let found = lemma_occurring_has_leaf(b, frequencies, byte);
    lemma_about_leaf(b, frequencies, found, found);
    if found < i {
        lemma_leaves_agree(b, a, frequencies, found);
        lemma_about_leaf(a, frequencies, i, found);
    } else if found > i {
        lemma_about_leaf(b, frequencies, found, i);
        let other = b[i]->Leaf_byte;
        lemma_leaf_occurs(b, frequencies, i);
        let back = lemma_occurring_has_leaf(a, frequencies, other);
        if back > i {
            lemma_about_leaf(a, frequencies, back, i);
        } else if back < i {
            lemma_leaves_agree(a, b, frequencies, back);
            lemma_about_leaf(b, frequencies, i, back);
        }
    }
}

/// Trees that agree on their first `n` nodes agree on what waits when the
/// node at position `n` is made.
proof fn lemma_same_waiting(a: Seq<HuffmanNode>, b: Seq<HuffmanNode>, n: int, j: int)
    requires
        0 <= n <= a.len(),
        n <= b.len(),
        a.take(n) == b.take(n),
    ensures
        0 <= j < n ==> a[j] == b[j],
        merged_before(a, j, n) == merged_before(b, j, n),
        waits_at(a, j, n) == waits_at(b, j, n),
{
    if 0 <= j < n {
        assert(a.take(n)[j] == a[j]);
        assert(b.take(n)[j] == b[j]);
    }
    if merged_before(a, j, n) {
        let k = choose|k: int| 0 <= k < n && k < a.len() && has_child(#[trigger] a[k], j);
        assert(a.take(n)[k] == a[k]);
        assert(b.take(n)[k] == b[k]);
        assert(has_child(b[k], j));
    }
    if merged_before(b, j, n) {
        let k = choose|k: int| 0 <= k < n && k < b.len() && has_child(#[trigger] b[k], j);
        assert(a.take(n)[k] == a[k]);
        assert(b.take(n)[k] == b[k]);
        assert(has_child(a[k], j));
    }
}

/// Only one tree is the lightest of those that wait.
proof fn lemma_one_lightest(
    a: Seq<HuffmanNode>,
    b: Seq<HuffmanNode>,
    n: int,
    taken: int,
    x: int,
    y: int,
)
    requires
        0 <= n <= a.len(),
        n <= b.len(),
        a.take(n) == b.take(n),
        is_lightest_waiting(a, x, n, taken),
        is_lightest_waiting(b, y, n, taken),
    ensures
        x == y,
{
    lemma_same_waiting(a, b, n, x);
    lemma_same_waiting(a, b, n, y);
    assert(waits_at(a, y, n));
    assert(waits_at(b, x, n));
}

/// Two Huffman trees of one table of frequencies agree on a node if they
/// agree on the nodes before it.
proof fn lemma_next_agrees(
    a: Seq<HuffmanNode>,
    b: Seq<HuffmanNode>,
    frequencies: Seq<usize>,
    n: int,
)
    requires
        grown_from(a, frequencies),
        grown_from(b, frequencies),
        0 <= n < a.len(),
        n < b.len(),
        a.take(n) == b.take(n),
    ensures
        a[n] == b[n],
{
    if a[n] is Leaf {
        lemma_leaves_agree(a, b, frequencies, n);
    } else if b[n] is Leaf {
        lemma_leaves_agree(b, a, frequencies, n);
    } else {
        lemma_about_inner(a, frequencies, n);
        lemma_about_inner(b, frequencies, n);
        let left = a[n]->left as int;
        let right = a[n]->right as int;
        lemma_one_lightest(a, b, n, -1, left, b[n]->left as int);
        lemma_one_lightest(a, b, n, left, right, b[n]->right as int);
        lemma_same_waiting(a, b, n, left);
        lemma_same_waiting(a, b, n, right);
    }
}

/// Two Huffman trees of one table of frequencies agree as far as both go.
proof fn lemma_prefix_agrees(
    a: Seq<HuffmanNode>,
    b: Seq<HuffmanNode>,
    frequencies: Seq<usize>,
    n: int,
)
    requires
        grown_from(a, frequencies),
        grown_from(b, frequencies),
        0 <= n <= a.len(),
        n <= b.len(),
    ensures
        a.take(n) == b.take(n),
    decreases n,
{
    if n == 0 {
        assert(a.take(0) =~= b.take(0));
    } else {
        lemma_prefix_agrees(a, b, frequencies, n - 1);
        lemma_next_agrees(a, b, frequencies, n - 1);
        assert forall|j: int| 0 <= j < n implies a.take(n)[j] == b.take(n)[j] by {
            if j < n - 1 {
                assert(a.take(n - 1)[j] == a[j]);
                assert(b.take(n - 1)[j] == b[j]);
            }
        }
        assert(a.take(n) =~= b.take(n));
    }
}

/// A Huffman tree of a table of frequencies is no shorter than another.
proof fn lemma_no_shorter(a: Seq<HuffmanNode>, b: Seq<HuffmanNode>, frequencies: Seq<usize>)
    requires
        grown_from(a, frequencies),
        grown_from(b, frequencies),
    ensures
        a.len() >= b.len(),
{
    let n = a.len() as int;
    if n < b.len() {
        lemma_prefix_agrees(a, b, frequencies, n);
        if n == 0 {
            lemma_about_root(b, frequencies, 0, 0);
            let some = lemma_proper_holds_some(b, b.len() - 1);
            lemma_about_root(b, frequencies, 0, some);
            lemma_about_root(a, frequencies, 0, some);
        } else if b[n] is Leaf {
            lemma_leaves_agree(b, a, frequencies, n);
        } else {
            lemma_about_inner(b, frequencies, n);
            let left = b[n]->left as int;
            let right = b[n]->right as int;
            lemma_same_waiting(a, b, n, left);
            lemma_same_waiting(a, b, n, right);
            if left < n - 1 {
                lemma_about_root(a, frequencies, left, 0);
            } else {
                lemma_about_root(a, frequencies, right, 0);
            }
        }
    }
}

/// There is one Huffman tree for a table of frequencies.
pub proof fn lemma_tree_unique(a: Seq<HuffmanNode>, b: Seq<HuffmanNode>, frequencies: Seq<usize>)
    requires
        is_tree_for(a, frequencies),
        is_tree_for(b, frequencies),
        frequencies.len() == SYMBOLS,
    ensures
        a == b,
{
    assert(grown_from(a, frequencies) && grown_from(b, frequencies)) by {
        reveal(grown_from);
    }
    lemma_no_shorter(a, b, frequencies);
    lemma_no_shorter(b, a, frequencies);
    lemma_prefix_agrees(a, b, frequencies, a.len() as int);
    assert(a.take(a.len() as int) =~= a);
    assert(b.take(b.len() as int) =~= b);
}

/// Two lists of the bytes that have a code in a table of lengths have the
/// same entries at the same places.
proof fn lemma_entries_agree(
    a: Seq<(u8, usize)>,
    b: Seq<(u8, usize)>,
    lengths: Seq<usize>,
    i: int,
)
    requires
        is_table_of(a, lengths),
        is_table_of(b, lengths),
        0 <= i < a.len(),
    ensures
        i < b.len(),
        b[i] == a[i],
    decreases i,
{
    let byte = a[i].0;
    assert(lengths[byte as int] >= 1);
    let found = choose|j: int| 0 <= j < b.len() && (#[trigger] b[j]).0 == byte;
    if found < i {
        lemma_entries_agree(b, a, lengths, found);
        assert(a[found].0 < a[i].0);
    } else if found > i {
        assert(b[i].0 < b[found].0);
        let other = b[i].0;
        assert(lengths[other as int] >= 1);
        let back = choose|j: int| 0 <= j < a.len() && (#[trigger] a[j]).0 == other;
        if back > i {
            assert(a[i].0 < a[back].0);
        } else if back < i {
            lemma_entries_agree(a, b, lengths, back);
            assert(b[back].0 < b[i].0);
        }
    }
}

/// There is one list of the bytes that have a code in a table of lengths.
pub proof fn lemma_table_unique(a: Seq<(u8, usize)>, b: Seq<(u8, usize)>, lengths: Seq<usize>)
    requires
        is_table_of(a, lengths),
        is_table_of(b, lengths),
    ensures
        a == b,
{
    if a.len() > 0 {
        lemma_entries_agree(a, b, lengths, a.len() - 1);
    }
    if b.len() > 0 {
        lemma_entries_agree(b, a, lengths, b.len() - 1);
    }
    assert forall|i: int| 0 <= i < a.len() implies a[i] == b[i] by {
        lemma_entries_agree(a, b, lengths, i);
    }
    assert(a =~= b);
}

} // verus!
