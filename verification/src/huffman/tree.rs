//! The Huffman tree: built from the byte frequencies by merging the two
//! lightest trees again and again, and read off as one path per byte.
//!
//! The nodes of a tree stand in one vector and name their children by
//! position; children stand before their parent, and the root stands last.

use crate::huffman::kraft::SYMBOLS;
use vstd::prelude::*;

verus! {

/// A node of a Huffman tree.
#[derive(Debug, Clone, Copy, PartialEq, Eq, Structural)]
pub enum HuffmanNode {
    /// A byte value and the number of times it occurs.
    Leaf { weight: usize, byte: u8 },
    /// Two subtrees, named by the positions of their roots, and the sum of
    /// their weights.
    Internal { weight: usize, left: usize, right: usize },
}

/// A Huffman tree, or no tree at all if there are no nodes.
pub struct HuffmanTree {
    /// The nodes, children before their parent, the root last.
    pub nodes: Vec<HuffmanNode>,
}

/// The weight of a node.
pub open spec fn weight_of(node: HuffmanNode) -> usize {
    match node {
        HuffmanNode::Leaf { weight, byte } => weight,
        HuffmanNode::Internal { weight, left, right } => weight,
    }
}

/// Whether the subtree at position `i` has a leaf for `byte`.
pub open spec fn holds(nodes: Seq<HuffmanNode>, i: int, byte: u8) -> bool
    decreases i,
{
    if 0 <= i < nodes.len() {
        match nodes[i] {
            HuffmanNode::Leaf { weight, byte: leaf } => leaf == byte,
            HuffmanNode::Internal { weight, left, right } => left < i && right < i && (holds(
                nodes,
                left as int,
                byte,
            ) || holds(nodes, right as int, byte)),
        }
    } else {
        false
    }
}

/// Whether no byte has a leaf in both subtrees.
pub open spec fn disjoint(nodes: Seq<HuffmanNode>, i: int, j: int) -> bool {
    forall|byte: u8| !(#[trigger] holds(nodes, i, byte) && holds(nodes, j, byte))
}

/// Whether the subtree at position `i` is a tree: children stand before
/// their parent, and no byte has two leaves.
pub open spec fn proper(nodes: Seq<HuffmanNode>, i: int) -> bool
    decreases i,
{
    &&& 0 <= i < nodes.len()
    &&& match nodes[i] {
        HuffmanNode::Leaf { weight, byte } => true,
        HuffmanNode::Internal { weight, left, right } => {
            &&& left < i
            &&& right < i
            &&& proper(nodes, left as int)
            &&& proper(nodes, right as int)
            &&& disjoint(nodes, left as int, right as int)
        },
    }
}

/// The path from the root of the subtree at position `i` to the leaf of
/// `byte`: a cleared bit for each step to the left, a set bit for each step
/// to the right.
pub open spec fn path_to(nodes: Seq<HuffmanNode>, i: int, byte: u8) -> Seq<bool>
    decreases i,
{
    if 0 <= i < nodes.len() {
        match nodes[i] {
            HuffmanNode::Leaf { weight, byte: leaf } => Seq::empty(),
            HuffmanNode::Internal { weight, left, right } => if left < i && right < i {
                if holds(nodes, left as int, byte) {
                    seq![false] + path_to(nodes, left as int, byte)
                } else {
                    seq![true] + path_to(nodes, right as int, byte)
                }
            } else {
                Seq::empty()
            },
        }
    } else {
        Seq::empty()
    }
}

/// The number of times `byte` occurs in `data`.
pub open spec fn occurrences(data: Seq<u8>, byte: u8) -> nat
    decreases data.len(),
{
    if data.len() == 0 {
        0
    } else {
        occurrences(data.drop_last(), byte) + if data.last() == byte {
            1nat
        } else {
            0nat
        }
    }
}

/// No byte occurs more often than the data is long; a byte of the data
/// occurs at least once.
pub proof fn lemma_occurrences(data: Seq<u8>, byte: u8)
    ensures
        occurrences(data, byte) <= data.len(),
        occurrences(data, byte) > 0 <==> exists|i: int| 0 <= i < data.len() && data[i] == byte,
    decreases data.len(),
{
    if data.len() > 0 {
        let front = data.drop_last();
        lemma_occurrences(front, byte);
        if occurrences(front, byte) > 0 {
            let i = choose|i: int| 0 <= i < front.len() && front[i] == byte;
            assert(data[i] == byte);
        }
        if exists|i: int| 0 <= i < data.len() && data[i] == byte {
            let i = choose|i: int| 0 <= i < data.len() && data[i] == byte;
            if i < front.len() {
                assert(front[i] == byte);
            }
        }
    }
}

/// The sum of the first `n` frequencies of a table.
pub open spec fn total_frequency(frequencies: Seq<usize>, n: nat) -> nat
    decreases n,
{
    if n == 0 {
        0
    } else {
        total_frequency(frequencies, (n - 1) as nat) + frequencies[n - 1] as nat
    }
}

/// Changing one frequency changes the sum by as much.
proof fn lemma_total_frequency_update(frequencies: Seq<usize>, b: int, value: usize, n: nat)
    requires
        0 <= b < frequencies.len(),
        n <= frequencies.len(),
    ensures
        total_frequency(frequencies.update(b, value), n) + (if b < n {
            frequencies[b] as int
        } else {
            0
        }) == total_frequency(frequencies, n) + (if b < n {
            value as int
        } else {
            0
        }),
    decreases n,
{
    if n > 0 {
        lemma_total_frequency_update(frequencies, b, value, (n - 1) as nat);
    }
}

/// A table of zeros sums up to zero.
proof fn lemma_total_frequency_zero(frequencies: Seq<usize>, n: nat)
    requires
        n <= frequencies.len(),
        forall|b: int| 0 <= b < frequencies.len() ==> #[trigger] frequencies[b] == 0,
    ensures
        total_frequency(frequencies, n) == 0,
    decreases n,
{
    if n > 0 {
        lemma_total_frequency_zero(frequencies, (n - 1) as nat);
    }
}

/// Counts how often each byte value occurs in `buffer`. The counts add up
/// to the length of the buffer.
pub fn calculate_byte_frequencies(buffer: &[u8]) -> (frequencies: Vec<usize>)
    ensures
        frequencies@.len() == SYMBOLS,
        forall|b: int|
            0 <= b < SYMBOLS ==> #[trigger] frequencies@[b] == occurrences(buffer@, b as u8),
        total_frequency(frequencies@, SYMBOLS as nat) == buffer@.len(),
{
    let mut frequencies: Vec<usize> = Vec::new();
    let mut b: usize = 0;
    while b < SYMBOLS
        invariant
            0 <= b <= SYMBOLS,
            frequencies@.len() == b,
            forall|k: int| 0 <= k < b ==> #[trigger] frequencies@[k] == 0,
        decreases SYMBOLS - b,
    {
        frequencies.push(0);
        b += 1;
    }
    let mut i: usize = 0;
    proof {
        lemma_total_frequency_zero(frequencies@, SYMBOLS as nat);
    }
    while i < buffer.len()
        invariant
            0 <= i <= buffer@.len(),
            frequencies@.len() == SYMBOLS,
            forall|b: int|
                0 <= b < SYMBOLS ==> #[trigger] frequencies@[b] == occurrences(
                    buffer@.take(i as int),
                    b as u8,
                ),
            total_frequency(frequencies@, SYMBOLS as nat) == i,
        decreases buffer@.len() - i,
    {
        let byte = buffer[i];
        proof {
            assert(buffer@.take(i + 1).drop_last() =~= buffer@.take(i as int));
            lemma_occurrences(buffer@.take(i as int), byte);
        }
        let count = frequencies[byte as usize];
        proof {
            lemma_total_frequency_update(
                frequencies@,
                byte as int,
                (count + 1) as usize,
                SYMBOLS as nat,
            );
        }
        frequencies[byte as usize] = count + 1;
        i += 1;
    }
    proof {
        assert(buffer@.take(buffer@.len() as int) =~= buffer@);
    }
    frequencies
}

/// What stands before a new node is not changed by adding the node.
pub proof fn lemma_push_keeps_subtree(nodes: Seq<HuffmanNode>, node: HuffmanNode, i: int, byte: u8)
    requires
        0 <= i < nodes.len(),
    ensures
        holds(nodes.push(node), i, byte) == holds(nodes, i, byte),
        path_to(nodes.push(node), i, byte) == path_to(nodes, i, byte),
    decreases i,
{
    let more = nodes.push(node);
    assert(more[i] == nodes[i]);
    match nodes[i] {
        HuffmanNode::Leaf { weight, byte: leaf } => {},
        HuffmanNode::Internal { weight, left, right } => {
            if left < i && right < i {
                lemma_push_keeps_subtree(nodes, node, left as int, byte);
                lemma_push_keeps_subtree(nodes, node, right as int, byte);
            }
        },
    }
}

/// A tree that stands before a new node is still a tree.
pub proof fn lemma_push_keeps_proper(nodes: Seq<HuffmanNode>, node: HuffmanNode, i: int)
    requires
        proper(nodes, i),
    ensures
        proper(nodes.push(node), i),
    decreases i,
{
    let more = nodes.push(node);
    assert(more[i] == nodes[i]);
    match nodes[i] {
        HuffmanNode::Leaf { weight, byte } => {},
        HuffmanNode::Internal { weight, left, right } => {
            lemma_push_keeps_proper(nodes, node, left as int);
            lemma_push_keeps_proper(nodes, node, right as int);
            assert forall|byte: u8| !(#[trigger] holds(more, left as int, byte) && holds(
                more,
                right as int,
                byte,
            )) by {
                lemma_push_keeps_subtree(nodes, node, left as int, byte);
                lemma_push_keeps_subtree(nodes, node, right as int, byte);
                assert(!(holds(nodes, left as int, byte) && holds(nodes, right as int, byte)));
            }
        },
    }
}

/// A tree has a leaf.
pub proof fn lemma_proper_holds_some(nodes: Seq<HuffmanNode>, i: int) -> (byte: u8)
    requires
        proper(nodes, i),
    ensures
        holds(nodes, i, byte),
    decreases i,
{
    match nodes[i] {
        HuffmanNode::Leaf { weight, byte } => byte,
        HuffmanNode::Internal { weight, left, right } => lemma_proper_holds_some(
            nodes,
            left as int,
        ),
    }
}

/// Whether `node` is an inner node with the child `j`.
pub open spec fn has_child(node: HuffmanNode, j: int) -> bool {
    node matches HuffmanNode::Internal { weight, left, right } && (left == j || right == j)
}

/// Whether the node at position `j` is a child of one of the first `limit`
/// nodes.
pub open spec fn merged_before(nodes: Seq<HuffmanNode>, j: int, limit: int) -> bool {
    exists|k: int| 0 <= k < limit && k < nodes.len() && has_child(#[trigger] nodes[k], j)
}

/// Whether the node at position `j` is the root of a tree that waits to be
/// merged when the node at position `limit` is made.
pub open spec fn waits_at(nodes: Seq<HuffmanNode>, j: int, limit: int) -> bool {
    0 <= j < limit && j < nodes.len() && !merged_before(nodes, j, limit)
}

/// Whether the node at position `i` is the lightest of the trees that wait
/// when the node at position `limit` is made, the tree at position `taken`
/// left aside: none of them is lighter, and those before it are heavier.
pub open spec fn is_lightest_waiting(
    nodes: Seq<HuffmanNode>,
    i: int,
    limit: int,
    taken: int,
) -> bool {
    &&& waits_at(nodes, i, limit)
    &&& i != taken
    &&& forall|j: int|
        #[trigger] waits_at(nodes, j, limit) && j != taken ==> weight_of(nodes[i]) <= weight_of(
            nodes[j],
        ) && (j < i ==> weight_of(nodes[i]) < weight_of(nodes[j]))
}

/// Whether the inner node at position `i` merges the two lightest trees
/// that wait when it is made, the lightest as its left subtree.
pub open spec fn merges_lightest(nodes: Seq<HuffmanNode>, i: int) -> bool {
    nodes[i] matches HuffmanNode::Internal { weight, left, right } ==> is_lightest_waiting(
        nodes,
        left as int,
        i,
        -1,
    ) && is_lightest_waiting(nodes, right as int, i, left as int)
}

/// Whether the leaves stand before the inner nodes, in the order of their
/// bytes.
pub open spec fn leaves_first(nodes: Seq<HuffmanNode>) -> bool {
    forall|i: int, j: int|
        0 <= j < i < nodes.len() && (#[trigger] nodes[i]) is Leaf ==> (#[trigger] nodes[j]) is Leaf
            && nodes[j]->Leaf_byte < nodes[i]->Leaf_byte
}

/// What stands before a position is not changed by adding a node behind it.
pub proof fn lemma_push_keeps_waiting(nodes: Seq<HuffmanNode>, node: HuffmanNode, limit: int)
    requires
        0 <= limit <= nodes.len(),
    ensures
        forall|j: int| #[trigger]
            merged_before(nodes.push(node), j, limit) == merged_before(nodes, j, limit),
        forall|j: int| #[trigger] waits_at(nodes.push(node), j, limit) == waits_at(nodes, j, limit),
        forall|i: int, taken: int|
            0 <= i < limit ==> #[trigger] is_lightest_waiting(nodes.push(node), i, limit, taken)
                == is_lightest_waiting(nodes, i, limit, taken),
{
    let more = nodes.push(node);
    assert forall|j: int| #[trigger]
        merged_before(more, j, limit) == merged_before(nodes, j, limit) by {
        if merged_before(more, j, limit) {
            let k = choose|k: int| 0 <= k < limit && k < more.len() && has_child(
                #[trigger] more[k],
                j,
            );
            assert(has_child(nodes[k], j));
        }
        if merged_before(nodes, j, limit) {
            let k = choose|k: int| 0 <= k < limit && k < nodes.len() && has_child(
                #[trigger] nodes[k],
                j,
            );
            assert(has_child(more[k], j));
        }
    }
    assert forall|j: int| #[trigger] waits_at(more, j, limit) == waits_at(nodes, j, limit) by {
        assert(merged_before(more, j, limit) == merged_before(nodes, j, limit));
    }
    assert forall|i: int, taken: int| 0 <= i < limit implies #[trigger] is_lightest_waiting(
        more,
        i,
        limit,
        taken,
    ) == is_lightest_waiting(nodes, i, limit, taken) by {
        assert(waits_at(more, i, limit) == waits_at(nodes, i, limit));
        assert(more[i] == nodes[i]);
        if is_lightest_waiting(nodes, i, limit, taken) {
            assert forall|j: int|
                #[trigger] waits_at(more, j, limit) && j != taken implies weight_of(
                more[i],
            ) <= weight_of(more[j]) && (j < i ==> weight_of(more[i]) < weight_of(more[j])) by {
                assert(waits_at(nodes, j, limit));
                assert(more[j] == nodes[j]);
            }
        }
        if is_lightest_waiting(more, i, limit, taken) {
            assert forall|j: int|
                #[trigger] waits_at(nodes, j, limit) && j != taken implies weight_of(
                nodes[i],
            ) <= weight_of(nodes[j]) && (j < i ==> weight_of(nodes[i]) < weight_of(nodes[j])) by {
                assert(waits_at(more, j, limit));
                assert(more[j] == nodes[j]);
            }
        }
    }
}

/// The trees that still wait to be merged: `alive` marks their roots.
pub open spec fn is_forest(nodes: Seq<HuffmanNode>, alive: Seq<bool>) -> bool {
    &&& alive.len() == nodes.len()
    &&& forall|i: int| 0 <= i < nodes.len() && #[trigger] alive[i] ==> proper(nodes, i)
    &&& forall|i: int, j: int|
        0 <= i < j < nodes.len() && #[trigger] alive[i] && #[trigger] alive[j] ==> disjoint(
            nodes,
            i,
            j,
        )
}

/// Whether the waiting trees hold the bytes that occur, and no others.
pub open spec fn covers(
    nodes: Seq<HuffmanNode>,
    alive: Seq<bool>,
    frequencies: Seq<usize>,
) -> bool {
    forall|byte: u8|
        #[trigger] frequencies[byte as int] > 0 <==> exists|i: int|
            0 <= i < nodes.len() && alive[i] && #[trigger] holds(nodes, i, byte)
}

/// The number of waiting trees.
pub open spec fn count_alive(alive: Seq<bool>) -> nat
    decreases alive.len(),
{
    if alive.len() == 0 {
        0
    } else {
        count_alive(alive.drop_last()) + if alive.last() {
            1nat
        } else {
            0nat
        }
    }
}

/// Changing one flag changes the count by that flag.
proof fn lemma_count_alive_update(alive: Seq<bool>, i: int, value: bool)
    requires
        0 <= i < alive.len(),
    ensures
        count_alive(alive.update(i, value)) + (if alive[i] { 1nat } else { 0nat }) == count_alive(
            alive,
        ) + (if value { 1nat } else { 0nat }),
    decreases alive.len(),
{
    let changed = alive.update(i, value);
    if i == alive.len() - 1 {
        assert(changed.drop_last() =~= alive.drop_last());
    } else {
        lemma_count_alive_update(alive.drop_last(), i, value);
        assert(changed.drop_last() =~= alive.drop_last().update(i, value));
    }
}

/// Adding a flag adds it to the count.
proof fn lemma_count_alive_push(alive: Seq<bool>, value: bool)
    ensures
        count_alive(alive.push(value)) == count_alive(alive) + (if value { 1nat } else { 0nat }),
{
    assert(alive.push(value).drop_last() =~= alive);
}

/// The weight of the trees that wait among the first `n` nodes.
pub open spec fn waiting_weight(nodes: Seq<HuffmanNode>, alive: Seq<bool>, n: nat) -> nat
    decreases n,
{
    if n == 0 {
        0
    } else {
        waiting_weight(nodes, alive, (n - 1) as nat) + if alive[n - 1] {
            weight_of(nodes[n - 1]) as nat
        } else {
            0
        }
    }
}

/// Changing the flag of one tree changes the weight that waits by the
/// weight of that tree.
proof fn lemma_waiting_weight_update(
    nodes: Seq<HuffmanNode>,
    alive: Seq<bool>,
    i: int,
    value: bool,
    n: nat,
)
    requires
        0 <= i < alive.len(),
        n <= alive.len(),
    ensures
        waiting_weight(nodes, alive.update(i, value), n) + (if i < n && alive[i] {
            weight_of(nodes[i]) as int
        } else {
            0
        }) == waiting_weight(nodes, alive, n) + (if i < n && value {
            weight_of(nodes[i]) as int
        } else {
            0
        }),
    decreases n,
{
    if n > 0 {
        lemma_waiting_weight_update(nodes, alive, i, value, (n - 1) as nat);
    }
}

/// What is added behind the first `n` nodes does not change what waits
/// among them.
proof fn lemma_waiting_weight_push(
    nodes: Seq<HuffmanNode>,
    alive: Seq<bool>,
    node: HuffmanNode,
    value: bool,
    n: nat,
)
    requires
        n <= nodes.len(),
        n <= alive.len(),
    ensures
        waiting_weight(nodes.push(node), alive.push(value), n) == waiting_weight(nodes, alive, n),
    decreases n,
{
    if n > 0 {
        lemma_waiting_weight_push(nodes, alive, node, value, (n - 1) as nat);
    }
}

/// Finds the lightest of the waiting trees: the first one among those of
/// the least weight.
fn find_lightest(nodes: &Vec<HuffmanNode>, alive: &Vec<bool>) -> (found: Option<usize>)
    requires
        alive@.len() == nodes@.len(),
    ensures
        match found {
            Some(i) => {
                &&& i < nodes@.len()
                &&& alive@[i as int]
                &&& forall|j: int|
                    0 <= j < nodes@.len() && #[trigger] alive@[j] ==> weight_of(nodes@[i as int])
                        <= weight_of(nodes@[j]) && (j < i ==> weight_of(nodes@[i as int])
                        < weight_of(nodes@[j]))
            },
            None => forall|j: int| 0 <= j < nodes@.len() ==> !#[trigger] alive@[j],
        },
{
    let mut found: Option<usize> = None;
    let mut least: usize = 0;
    let mut j: usize = 0;
    while j < nodes.len()
        invariant
            0 <= j <= nodes@.len(),
            alive@.len() == nodes@.len(),
            match found {
                Some(i) => {
                    &&& i < j
                    &&& alive@[i as int]
                    &&& least == weight_of(nodes@[i as int])
                    &&& forall|k: int|
                        0 <= k < j && #[trigger] alive@[k] ==> least <= weight_of(nodes@[k]) && (k
                            < i ==> least < weight_of(nodes@[k]))
                },
                None => forall|k: int| 0 <= k < j ==> !#[trigger] alive@[k],
            },
        decreases nodes@.len() - j,
    {
        if alive[j] {
            let weight = match nodes[j] {
                HuffmanNode::Leaf { weight, byte } => weight,
                HuffmanNode::Internal { weight, left, right } => weight,
            };
            if found.is_none() || weight < least {
                found = Some(j);
                least = weight;
            }
        }
        j += 1;
    }
    found
}

/// Whether each node weighs what it should: a leaf as often as its byte
/// occurs, an inner node what its subtrees weigh together.
pub open spec fn weights_add_up(nodes: Seq<HuffmanNode>, frequencies: Seq<usize>) -> bool {
    forall|i: int|
        0 <= i < nodes.len() ==> match #[trigger] nodes[i] {
            HuffmanNode::Leaf { weight, byte } => weight == frequencies[byte as int],
            HuffmanNode::Internal { weight, left, right } => {
                &&& left < i
                &&& right < i
                &&& weight == weight_of(nodes[left as int]) + weight_of(nodes[right as int])
            },
        }
}

/// Whether `nodes` is the Huffman tree of a table of frequencies, the root
/// last: a tree with a leaf for each byte that occurs, weighing as often as
/// it occurs, the leaves first and in the order of their bytes; and with
/// inner nodes that each merge the two lightest trees that wait when they
/// are made, and weigh what their subtrees weigh together. Every node but
/// the root is a child of a later node. There are no nodes if no byte
/// occurs.
pub open spec fn is_tree_for(nodes: Seq<HuffmanNode>, frequencies: Seq<usize>) -> bool {
    &&& nodes.len() == 0 <==> forall|b: int| 0 <= b < SYMBOLS ==> #[trigger] frequencies[b] == 0
    &&& leaves_first(nodes)
    &&& weights_add_up(nodes, frequencies)
    &&& forall|i: int| 0 <= i < nodes.len() ==> #[trigger] merges_lightest(nodes, i)
    &&& forall|j: int|
        0 <= j < nodes.len() - 1 ==> #[trigger] merged_before(nodes, j, nodes.len() as int)
    &&& nodes.len() > 0 ==> {
        &&& proper(nodes, nodes.len() - 1)
        &&& forall|byte: u8|
            #[trigger] holds(nodes, nodes.len() - 1, byte) <==> frequencies[byte as int] > 0
    }
}

/// The state of the merging: the nodes made so far and the flags of the
/// trees that wait. The trees that wait are those that no node has as a
/// child; they hold the bytes that occur; the last node waits.
#[verifier::opaque]
pub open spec fn waiting_state(
    nodes: Seq<HuffmanNode>,
    alive: Seq<bool>,
    frequencies: Seq<usize>,
) -> bool {
    &&& frequencies.len() == SYMBOLS
    &&& nodes.len() > 0
    &&& is_forest(nodes, alive)
    &&& covers(nodes, alive, frequencies)
    &&& alive[nodes.len() - 1]
    &&& weights_add_up(nodes, frequencies)
    &&& waiting_weight(nodes, alive, nodes.len()) == total_frequency(frequencies, SYMBOLS as nat)
    &&& leaves_first(nodes)
    &&& forall|i: int| 0 <= i < nodes.len() ==> #[trigger] merges_lightest(nodes, i)
    &&& forall|j: int|
        0 <= j < nodes.len() ==> #[trigger] alive[j] == !merged_before(
            nodes,
            j,
            nodes.len() as int,
        )
}

/// The leaves, all waiting, are a state of the merging.
proof fn lemma_leaves_wait(nodes: Seq<HuffmanNode>, alive: Seq<bool>, frequencies: Seq<usize>)
    requires
        frequencies.len() == SYMBOLS,
        nodes.len() > 0,
        alive.len() == nodes.len(),
        forall|i: int| 0 <= i < nodes.len() ==> #[trigger] alive[i],
        forall|i: int|
            0 <= i < nodes.len() ==> ((#[trigger] nodes[i]) matches HuffmanNode::Leaf {
                weight,
                byte,
            } && weight == frequencies[byte as int] && weight > 0),
        forall|i: int, j: int|
            0 <= i < j < nodes.len() ==> (#[trigger] nodes[i])->Leaf_byte < (
            #[trigger] nodes[j])->Leaf_byte,
        forall|byte: u8| #[trigger]
            frequencies[byte as int] > 0 ==> exists|i: int|
                0 <= i < nodes.len() && (#[trigger] nodes[i])->Leaf_byte == byte,
        waiting_weight(nodes, alive, nodes.len()) == total_frequency(frequencies, SYMBOLS as nat),
    ensures
        waiting_state(nodes, alive, frequencies),
{
    reveal(waiting_state);
    assert(is_forest(nodes, alive)) by {
        assert forall|i: int, j: int|
            0 <= i < j < nodes.len() && #[trigger] alive[i] && #[trigger] alive[j] implies disjoint(
            nodes,
            i,
            j,
        ) by {
            assert(nodes[i]->Leaf_byte != nodes[j]->Leaf_byte);
        }
    }
    assert(covers(nodes, alive, frequencies)) by {
        assert forall|byte: u8| #[trigger]
            frequencies[byte as int] > 0 <==> exists|i: int|
                0 <= i < nodes.len() && alive[i] && #[trigger] holds(nodes, i, byte) by {
            if frequencies[byte as int] > 0 {
                let i = choose|i: int|
                    0 <= i < nodes.len() && (#[trigger] nodes[i])->Leaf_byte == byte;
                assert(holds(nodes, i, byte));
            }
            if exists|i: int| 0 <= i < nodes.len() && alive[i] && #[trigger] holds(nodes, i, byte) {
                let i = choose|i: int|
                    0 <= i < nodes.len() && alive[i] && #[trigger] holds(nodes, i, byte);
                assert(nodes[i] is Leaf);
            }
        }
    }
    assert forall|j: int| 0 <= j < nodes.len() implies #[trigger] alive[j] == !merged_before(
        nodes,
        j,
        nodes.len() as int,
    ) by {
        if merged_before(nodes, j, nodes.len() as int) {
            let k = choose|k: int| 0 <= k < nodes.len() && has_child(#[trigger] nodes[k], j);
            assert(nodes[k] is Leaf);
        }
    }
    assert forall|i: int| 0 <= i < nodes.len() implies #[trigger] merges_lightest(nodes, i) by {
        assert(nodes[i] is Leaf);
    }
}

/// In every state of the merging a tree waits.
proof fn lemma_state_basics(nodes: Seq<HuffmanNode>, alive: Seq<bool>, frequencies: Seq<usize>)
    requires
        waiting_state(nodes, alive, frequencies),
    ensures
        nodes.len() > 0,
        alive.len() == nodes.len(),
        alive[nodes.len() - 1],
        count_alive(alive) >= 1,
{
    reveal(waiting_state);
    lemma_count_alive_update(alive, nodes.len() - 1, false);
}

/// Two trees that wait weigh no more together than all occurrences.
proof fn lemma_two_waiting_weights(
    nodes: Seq<HuffmanNode>,
    waiting: Seq<bool>,
    first: int,
    second: int,
    frequencies: Seq<usize>,
)
    requires
        waiting_state(nodes, waiting, frequencies),
        waiting.len() == nodes.len(),
        0 <= first < nodes.len(),
        0 <= second < nodes.len(),
        waiting[first],
        waiting.update(first, false)[second],
    ensures
        weight_of(nodes[first]) + weight_of(nodes[second]) <= total_frequency(
            frequencies,
            SYMBOLS as nat,
        ),
{
    reveal(waiting_state);
    lemma_waiting_weight_update(nodes, waiting, first, false, nodes.len());
    lemma_waiting_weight_update(
        nodes,
        waiting.update(first, false),
        second,
        false,
        nodes.len(),
    );
}

/// When a single tree waits, it is the Huffman tree.
proof fn lemma_last_tree(
    nodes: Seq<HuffmanNode>,
    waiting: Seq<bool>,
    first: int,
    frequencies: Seq<usize>,
)
    requires
        waiting_state(nodes, waiting, frequencies),
        0 <= first < nodes.len(),
        waiting[first],
        forall|j: int| 0 <= j < nodes.len() ==> !#[trigger] waiting.update(first, false)[j],
    ensures
        is_tree_for(nodes, frequencies),
{
    reveal(waiting_state);
    let root = nodes.len() - 1;
    assert(first == root) by {
        if first != root {
            assert(waiting.update(first, false)[root] == waiting[root]);
        }
    }
    assert forall|byte: u8| #[trigger]
        holds(nodes, root, byte) <==> frequencies[byte as int] > 0 by {
        if frequencies[byte as int] > 0 {
            let i = choose|i: int|
                0 <= i < nodes.len() && waiting[i] && #[trigger] holds(nodes, i, byte);
            if i != root {
                assert(waiting.update(first, false)[i] == waiting[i]);
            }
        }
        if holds(nodes, root, byte) {
            assert(waiting[root]);
        }
    }
    let some = lemma_proper_holds_some(nodes, root);
    assert(frequencies[some as int] > 0);
    assert forall|j: int| 0 <= j < nodes.len() - 1 implies #[trigger] merged_before(
        nodes,
        j,
        nodes.len() as int,
    ) by {
        assert(waiting.update(first, false)[j] == waiting[j]);
    }
}

/// Merging the two lightest of the waiting trees gives the next state of
/// the merging, in which one tree less waits.
proof fn lemma_merge_step(
    before: Seq<HuffmanNode>,
    waiting: Seq<bool>,
    first: int,
    second: int,
    merged: HuffmanNode,
    frequencies: Seq<usize>,
)
    requires
        waiting_state(before, waiting, frequencies),
        0 <= first < before.len(),
        0 <= second < before.len(),
        waiting[first],
        waiting.update(first, false)[second],
        merged matches HuffmanNode::Internal { weight, left, right } && left == first && right
            == second && weight == weight_of(before[first]) + weight_of(before[second]),
        forall|j: int|
            0 <= j < before.len() && #[trigger] waiting[j] ==> weight_of(before[first])
                <= weight_of(before[j]) && (j < first ==> weight_of(before[first]) < weight_of(
                before[j],
            )),
        forall|j: int|
            0 <= j < before.len() && #[trigger] waiting.update(first, false)[j] ==> weight_of(
                before[second],
            ) <= weight_of(before[j]) && (j < second ==> weight_of(before[second]) < weight_of(
                before[j],
            )),
    ensures
        waiting_state(before.push(merged), merged_flags(waiting, first, second), frequencies),
        count_alive(merged_flags(waiting, first, second)) < count_alive(waiting),
{
    reveal(waiting_state);
    let nodes = before.push(merged);
    assert(first != second);
    assert(waiting[second]);
    lemma_none_alive_after_merge(waiting, first, second);
    assert(waiting_weight(nodes, merged_flags(waiting, first, second), nodes.len())
        == waiting_weight(before, waiting, before.len())) by {
        let cleared = waiting.update(first, false).update(second, false);
        lemma_waiting_weight_update(before, waiting, first, false, before.len());
        lemma_waiting_weight_update(
            before,
            waiting.update(first, false),
            second,
            false,
            before.len(),
        );
        lemma_waiting_weight_push(before, cleared, merged, true, before.len());
    }
    lemma_merge_keeps_forest(before, waiting, first, second, merged, frequencies);
    assert forall|j: int|
        0 <= j < before.len() && #[trigger] waiting[j] && j != first implies weight_of(
        before[second],
    ) <= weight_of(before[j]) && (j < second ==> weight_of(before[second]) < weight_of(
        before[j],
    )) by {
        assert(waiting.update(first, false)[j]);
    }
    lemma_merge_keeps_order(before, waiting, first, second, merged);
    assert(weights_add_up(nodes, frequencies)) by {
        assert forall|i: int| 0 <= i < nodes.len() implies match #[trigger] nodes[i] {
            HuffmanNode::Leaf { weight, byte } => weight == frequencies[byte as int],
            HuffmanNode::Internal { weight, left, right } => {
                &&& left < i
                &&& right < i
                &&& weight == weight_of(nodes[left as int]) + weight_of(nodes[right as int])
            },
        } by {
            if i < before.len() {
                assert(nodes[i] == before[i]);
            }
        }
    }
    assert(leaves_first(nodes)) by {
        assert forall|i: int, j: int|
            0 <= j < i < nodes.len() && (#[trigger] nodes[i]) is Leaf implies (
        #[trigger] nodes[j]) is Leaf && nodes[j]->Leaf_byte < nodes[i]->Leaf_byte by {
            assert(nodes[i] == before[i]);
            assert(nodes[j] == before[j]);
        }
    }
}

/// Builds the Huffman tree of a table of frequencies: one leaf per byte
/// that occurs, in the order of the bytes; then, as long as more than one
/// tree is left, the two lightest are taken out, the lightest first and of
/// equally light ones the one made first, and put back as the left and the
/// right subtree of a new node.
pub fn generate_huffman_tree(frequencies: &Vec<usize>) -> (tree: HuffmanTree)
    requires
        frequencies@.len() == SYMBOLS,
        total_frequency(frequencies@, SYMBOLS as nat) <= usize::MAX,
    ensures
        is_tree_for(tree.nodes@, frequencies@),
{
    let mut nodes: Vec<HuffmanNode> = Vec::new();
    let mut alive: Vec<bool> = Vec::new();
    let mut b: usize = 0;
    while b < SYMBOLS
        invariant
            0 <= b <= SYMBOLS,
            frequencies@.len() == SYMBOLS,
            nodes@.len() <= b,
            alive@.len() == nodes@.len(),
            waiting_weight(nodes@, alive@, nodes@.len()) == total_frequency(
                frequencies@,
                b as nat,
            ),
            forall|i: int| 0 <= i < nodes@.len() ==> #[trigger] alive@[i],
            forall|i: int|
                0 <= i < nodes@.len() ==> ((#[trigger] nodes@[i]) matches HuffmanNode::Leaf {
                    weight,
                    byte,
                } && weight == frequencies@[byte as int] && byte < b && weight > 0),
            forall|i: int, j: int|
                0 <= i < j < nodes@.len() ==> (#[trigger] nodes@[i])->Leaf_byte < (
                #[trigger] nodes@[j])->Leaf_byte,
            forall|byte: u8|
                byte < b && #[trigger] frequencies@[byte as int] > 0 ==> exists|i: int|
                    0 <= i < nodes@.len() && (#[trigger] nodes@[i])->Leaf_byte == byte,
        decreases SYMBOLS - b,
    {
        if frequencies[b] > 0 {
            let ghost before = nodes@;
            let ghost waiting = alive@;
            let leaf = HuffmanNode::Leaf { weight: frequencies[b], byte: b as u8 };
            nodes.push(leaf);
            alive.push(true);
            proof {
                lemma_waiting_weight_push(before, waiting, leaf, true, before.len());
                assert forall|byte: u8|
                    byte < b + 1 && #[trigger] frequencies@[byte as int] > 0 implies exists|i: int|
                    0 <= i < nodes@.len() && (#[trigger] nodes@[i])->Leaf_byte == byte by {
                    if byte < b {
                        let i = choose|i: int|
                            0 <= i < before.len() && (#[trigger] before[i])->Leaf_byte == byte;
                        assert(nodes@[i] == before[i]);
                    } else {
                        assert(nodes@[nodes@.len() - 1]->Leaf_byte == byte);
                    }
                }
            }
        }
        b += 1;
    }
    if nodes.len() == 0 {
        proof {
            assert forall|k: int| 0 <= k < SYMBOLS implies #[trigger] frequencies@[k] == 0 by {
                if frequencies@[k] > 0 {
                    let byte = k as u8;
                    assert(frequencies@[byte as int] > 0);
                }
            }
            assert(leaves_first(nodes@));
        }
        return HuffmanTree { nodes };
    }
    proof {
        lemma_leaves_wait(nodes@, alive@, frequencies@);
    }
    loop
        invariant
            alive@.len() == nodes@.len(),
            total_frequency(frequencies@, SYMBOLS as nat) <= usize::MAX,
            waiting_state(nodes@, alive@, frequencies@),
        decreases count_alive(alive@),
    {
        proof {
            lemma_state_basics(nodes@, alive@, frequencies@);
        }
        let first = match find_lightest(&nodes, &alive) {
            Some(first) => first,
            None => {
                return HuffmanTree { nodes };
            },
        };
        let ghost waiting = alive@;
        alive[first] = false;
        let second = match find_lightest(&nodes, &alive) {
            Some(second) => second,
            None => {
                proof {
                    lemma_last_tree(nodes@, waiting, first as int, frequencies@);
                }
                return HuffmanTree { nodes };
            },
        };
        alive[second] = false;
        let first_weight = match nodes[first] {
            HuffmanNode::Leaf { weight, byte } => weight,
            HuffmanNode::Internal { weight, left, right } => weight,
        };
        let second_weight = match nodes[second] {
            HuffmanNode::Leaf { weight, byte } => weight,
            HuffmanNode::Internal { weight, left, right } => weight,
        };
        proof {
            lemma_two_waiting_weights(
                nodes@,
                waiting,
                first as int,
                second as int,
                frequencies@,
            );
        }
        let merged = HuffmanNode::Internal {
            weight: first_weight + second_weight,
            left: first,
            right: second,
        };
        let ghost before = nodes@;
        nodes.push(merged);
        alive.push(true);
        proof {
            assert(alive@ =~= merged_flags(waiting, first as int, second as int));
            lemma_merge_step(before, waiting, first as int, second as int, merged, frequencies@);
        }
    }
}

/// The flags of the waiting trees after the trees at `first` and `second`
/// have been merged into a new last node.
pub open spec fn merged_flags(waiting: Seq<bool>, first: int, second: int) -> Seq<bool> {
    waiting.update(first, false).update(second, false).push(true)
}

/// If the merged tree is the only one that waits, no other flag is set.
proof fn lemma_none_alive_after_merge(waiting: Seq<bool>, first: int, second: int)
    requires
        0 <= first < waiting.len(),
        0 <= second < waiting.len(),
    ensures
        count_alive(merged_flags(waiting, first, second)) == 1 ==> forall|i: int|
            0 <= i < waiting.len() ==> !#[trigger] merged_flags(waiting, first, second)[i],
        waiting[first] && waiting[second] && first != second ==> count_alive(
            merged_flags(waiting, first, second),
        ) + 1 == count_alive(waiting),
{
    let cleared = waiting.update(first, false).update(second, false);
    lemma_count_alive_update(waiting, first, false);
    lemma_count_alive_update(waiting.update(first, false), second, false);
    lemma_count_alive_push(cleared, true);
    if count_alive(merged_flags(waiting, first, second)) == 1 {
        lemma_none_alive(cleared);
    }
}

/// Merging two of the waiting trees leaves a forest that holds the same
/// bytes.
proof fn lemma_merge_keeps_forest(
    before: Seq<HuffmanNode>,
    waiting: Seq<bool>,
    first: int,
    second: int,
    merged: HuffmanNode,
    frequencies: Seq<usize>,
)
    requires
        is_forest(before, waiting),
        covers(before, waiting, frequencies),
        0 <= first < before.len(),
        0 <= second < before.len(),
        first != second,
        waiting[first],
        waiting[second],
        merged matches HuffmanNode::Internal { weight, left, right } && left == first && right
            == second,
    ensures
        is_forest(before.push(merged), merged_flags(waiting, first, second)),
        covers(before.push(merged), merged_flags(waiting, first, second), frequencies),
{
    let nodes = before.push(merged);
    let alive = merged_flags(waiting, first, second);
    let root = before.len() as int;
    assert(disjoint(before, first, second)) by {
        if first < second {
            assert(waiting[first] && waiting[second]);
        } else {
            assert(waiting[second] && waiting[first]);
        }
    }
    assert forall|i: int, byte: u8| 0 <= i < before.len() implies #[trigger] holds(nodes, i, byte)
        == holds(before, i, byte) by {
        lemma_push_keeps_subtree(before, merged, i, byte);
    }
    assert forall|byte: u8| #[trigger]
        holds(nodes, root, byte) == (holds(before, first, byte) || holds(before, second, byte)) by {
        assert(holds(nodes, first, byte) == holds(before, first, byte));
        assert(holds(nodes, second, byte) == holds(before, second, byte));
    }
    assert(proper(nodes, root)) by {
        lemma_push_keeps_proper(before, merged, first);
        lemma_push_keeps_proper(before, merged, second);
        assert forall|byte: u8| !(#[trigger] holds(nodes, first, byte) && holds(
            nodes,
            second,
            byte,
        )) by {
            assert(holds(nodes, first, byte) == holds(before, first, byte));
            assert(holds(nodes, second, byte) == holds(before, second, byte));
            assert(!(holds(before, first, byte) && holds(before, second, byte)));
        }
    }
    assert(is_forest(nodes, alive)) by {
        assert forall|i: int| 0 <= i < nodes.len() && #[trigger] alive[i] implies proper(
            nodes,
            i,
        ) by {
            if i < root {
                assert(waiting[i]);
                lemma_push_keeps_proper(before, merged, i);
            }
        }
        assert forall|i: int, j: int|
            0 <= i < j < nodes.len() && #[trigger] alive[i] && #[trigger] alive[j] implies disjoint(
            nodes,
            i,
            j,
        ) by {
            assert(waiting[i]);
            assert forall|byte: u8|
                !(#[trigger] holds(nodes, i, byte) && holds(nodes, j, byte)) by {
                assert(holds(nodes, i, byte) == holds(before, i, byte));
                if j < root {
                    assert(waiting[j]);
                    assert(holds(nodes, j, byte) == holds(before, j, byte));
                    assert(disjoint(before, i, j));
                } else {
                    if i < first {
                        assert(disjoint(before, i, first));
                    } else {
                        assert(disjoint(before, first, i));
                    }
                    if i < second {
                        assert(disjoint(before, i, second));
                    } else {
                        assert(disjoint(before, second, i));
                    }
                }
            }
        }
    }
    assert(covers(nodes, alive, frequencies)) by {
        assert forall|byte: u8| #[trigger]
            frequencies[byte as int] > 0 <==> exists|i: int|
                0 <= i < nodes.len() && alive[i] && #[trigger] holds(nodes, i, byte) by {
            if frequencies[byte as int] > 0 {
                let i = choose|i: int|
                    0 <= i < before.len() && waiting[i] && #[trigger] holds(before, i, byte);
                if i == first || i == second {
                    assert(alive[root] && holds(nodes, root, byte));
                } else {
                    assert(alive[i] && holds(nodes, i, byte));
                }
            }
            if exists|i: int| 0 <= i < nodes.len() && alive[i] && #[trigger] holds(nodes, i, byte) {
                let i = choose|i: int|
                    0 <= i < nodes.len() && alive[i] && #[trigger] holds(nodes, i, byte);
                if i < root {
                    assert(waiting[i] && holds(before, i, byte));
                } else {
                    if holds(before, first, byte) {
                        assert(waiting[first]);
                    } else {
                        assert(waiting[second] && holds(before, second, byte));
                    }
                }
            }
        }
    }
}

/// Merging the two lightest of the waiting trees keeps the order in which
/// trees are merged.
proof fn lemma_merge_keeps_order(
    before: Seq<HuffmanNode>,
    waiting: Seq<bool>,
    first: int,
    second: int,
    merged: HuffmanNode,
)
    requires
        waiting.len() == before.len(),
        0 <= first < before.len(),
        0 <= second < before.len(),
        first != second,
        waiting[first],
        waiting[second],
        merged matches HuffmanNode::Internal { weight, left, right } && left == first && right
            == second,
        forall|j: int|
            0 <= j < before.len() ==> #[trigger] waiting[j] == !merged_before(
                before,
                j,
                before.len() as int,
            ),
        forall|i: int| 0 <= i < before.len() ==> #[trigger] merges_lightest(before, i),
        forall|i: int|
            0 <= i < before.len() ==> ((#[trigger] before[i]) matches HuffmanNode::Internal {
                weight,
                left,
                right,
            } ==> left < i && right < i),
        forall|j: int|
            0 <= j < before.len() && #[trigger] waiting[j] ==> weight_of(before[first])
                <= weight_of(before[j]) && (j < first ==> weight_of(before[first]) < weight_of(
                before[j],
            )),
        forall|j: int|
            0 <= j < before.len() && #[trigger] waiting[j] && j != first ==> weight_of(
                before[second],
            ) <= weight_of(before[j]) && (j < second ==> weight_of(before[second]) < weight_of(
                before[j],
            )),
    ensures
        forall|j: int|
            0 <= j < before.len() + 1 ==> #[trigger] merged_flags(waiting, first, second)[j]
                == !merged_before(before.push(merged), j, (before.len() + 1) as int),
        forall|i: int|
            0 <= i < before.len() + 1 ==> #[trigger] merges_lightest(before.push(merged), i),
{
    let nodes = before.push(merged);
    let alive = merged_flags(waiting, first, second);
    let root = before.len() as int;
    lemma_push_keeps_waiting(before, merged, root);
    assert forall|j: int| 0 <= j < nodes.len() implies #[trigger] alive[j] == !merged_before(
        nodes,
        j,
        root + 1,
    ) by {
        if merged_before(nodes, j, root + 1) {
            let k = choose|k: int|
                0 <= k < root + 1 && k < nodes.len() && has_child(#[trigger] nodes[k], j);
            if k < root {
                assert(has_child(before[k], j));
                assert(j < k);
                assert(merged_before(before, j, root));
                assert(!waiting[j]);
            }
        } else {
            if j < root {
                assert(!has_child(nodes[root], j));
                if !waiting[j] {
                    assert(merged_before(before, j, root));
                    let k = choose|k: int|
                        0 <= k < root && k < before.len() && has_child(#[trigger] before[k], j);
                    assert(has_child(nodes[k], j));
                }
            }
        }
    }
    assert forall|i: int| 0 <= i < nodes.len() implies #[trigger] merges_lightest(nodes, i) by {
        if i < root {
            assert(nodes[i] == before[i]);
            assert(merges_lightest(before, i));
            lemma_push_keeps_waiting(before, merged, i);
            if before[i] is Internal {
                assert(is_lightest_waiting(nodes, before[i]->left as int, i, -1)
                    == is_lightest_waiting(before, before[i]->left as int, i, -1));
                assert(is_lightest_waiting(
                    nodes,
                    before[i]->right as int,
                    i,
                    before[i]->left as int,
                ) == is_lightest_waiting(
                    before,
                    before[i]->right as int,
                    i,
                    before[i]->left as int,
                ));
            }
        } else {
            assert forall|j: int| #[trigger] waits_at(nodes, j, root) implies waiting[j] by {
                assert(waits_at(before, j, root));
            }
            assert(waits_at(before, first, root));
            assert(waits_at(before, second, root));
            assert(is_lightest_waiting(nodes, first, root, -1)) by {
                assert forall|j: int|
                    #[trigger] waits_at(nodes, j, root) && j != -1 implies weight_of(
                    nodes[first],
                ) <= weight_of(nodes[j]) && (j < first ==> weight_of(nodes[first]) < weight_of(
                    nodes[j],
                )) by {
                    assert(waiting[j]);
                    assert(nodes[j] == before[j]);
                }
            }
            assert(is_lightest_waiting(nodes, second, root, first)) by {
                assert forall|j: int| #[trigger]
                    waits_at(nodes, j, root) && j != first implies weight_of(nodes[second])
                    <= weight_of(nodes[j]) && (j < second ==> weight_of(nodes[second]) < weight_of(
                    nodes[j],
                )) by {
                    assert(waiting[j]);
                    assert(nodes[j] == before[j]);
                }
            }
        }
    }
}

/// Where nothing counts as alive, nothing is alive.
proof fn lemma_none_alive(alive: Seq<bool>)
    requires
        count_alive(alive) == 0,
    ensures
        forall|i: int| 0 <= i < alive.len() ==> !#[trigger] alive[i],
    decreases alive.len(),
{
    if alive.len() > 0 {
        lemma_none_alive(alive.drop_last());
        assert forall|i: int| 0 <= i < alive.len() implies !#[trigger] alive[i] by {
            if i < alive.len() - 1 {
                assert(alive.drop_last()[i] == alive[i]);
            }
        }
    }
}


} // verus!
