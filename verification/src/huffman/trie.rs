//! The decoding trie: a binary tree that holds each byte at the end of the
//! path that its code spells, a cleared bit for a step to the left and a set
//! bit for a step to the right.

use crate::bits::as_bits;
use vstd::prelude::*;
use vstd::slice::slice_subrange;

verus! {

/// A node of the decoding trie.
#[derive(Debug)]
pub struct DecodeNode {
    /// The node one step to the left, for a cleared bit.
    pub left: Option<Box<DecodeNode>>,
    /// The node one step to the right, for a set bit.
    pub right: Option<Box<DecodeNode>>,
    /// The byte whose code ends here.
    pub byte: Option<u8>,
}

impl DecodeNode {
    /// The node one step down: to the right for a set bit, else to the left.
    pub open spec fn child(self, bit: bool) -> Option<DecodeNode> {
        if bit {
            match self.right {
                Some(node) => Some(*node),
                None => None,
            }
        } else {
            match self.left {
                Some(node) => Some(*node),
                None => None,
            }
        }
    }

    /// The node at the end of `path`, if the trie reaches that far.
    pub open spec fn node_at(self, path: Seq<bool>) -> Option<DecodeNode>
        decreases path.len(),
    {
        if path.len() == 0 {
            Some(self)
        } else {
            match self.child(path[0]) {
                Some(node) => node.node_at(path.skip(1)),
                None => None,
            }
        }
    }

    /// What stands at the end of `path`: nothing if the trie does not reach
    /// that far, else the byte of the node there, if it has one.
    pub open spec fn label_at(self, path: Seq<bool>) -> Option<Option<u8>> {
        match self.node_at(path) {
            Some(node) => Some(node.byte),
            None => None,
        }
    }

    /// A trie without any byte.
    pub fn new() -> (node: Self)
        ensures
            node.left.is_none(),
            node.right.is_none(),
            node.byte.is_none(),
    {
        DecodeNode { left: None, right: None, byte: None }
    }

    /// Puts `byte` at the end of the path that `code` spells; any non-zero
    /// flag is a step to the right. Nodes on the way are made as needed;
    /// nothing else changes.
    pub fn insert(&mut self, code: &[u8], byte: u8)
        ensures
            forall|path: Seq<bool>| #[trigger]
                final(self).label_at(path) == label_after_insert(
                    *old(self),
                    as_bits(code@),
                    byte,
                    path,
                ),
        decreases code@.len(),
    {
        if code.len() == 0 {
            self.byte = Some(byte);
            proof {
                assert forall|path: Seq<bool>| #[trigger]
                    self.label_at(path) == label_after_insert(
                        *old(self),
                        as_bits(code@),
                        byte,
                        path,
                    ) by {
                    lemma_insert_here(*old(self), *self, as_bits(code@), byte, path);
                }
            }
            return ;
        }
        let rest = slice_subrange(code, 1, code.len());
        let ghost bit = code@[0] != 0;
        proof {
            assert(as_bits(rest@) =~= as_bits(code@).skip(1));
            assert(as_bits(code@)[0] == bit);
        }
        if code[0] == 0 {
            if self.left.is_none() {
                self.left = Some(Box::new(DecodeNode::new()));
            }
            let ghost ready = *self;
            match &mut self.left {
                Some(node) => {
                    node.insert(rest, byte);
                },
                None => {},
            }
            proof {
                assert forall|path: Seq<bool>| #[trigger]
                    self.label_at(path) == label_after_insert(
                        *old(self),
                        as_bits(code@),
                        byte,
                        path,
                    ) by {
                    lemma_insert_below(*old(self), ready, *self, as_bits(code@), byte, path);
                }
            }
        } else {
            if self.right.is_none() {
                self.right = Some(Box::new(DecodeNode::new()));
            }
            let ghost ready = *self;
            match &mut self.right {
                Some(node) => {
                    node.insert(rest, byte);
                },
                None => {},
            }
            proof {
                assert forall|path: Seq<bool>| #[trigger]
                    self.label_at(path) == label_after_insert(
                        *old(self),
                        as_bits(code@),
                        byte,
                        path,
                    ) by {
                    lemma_insert_below(*old(self), ready, *self, as_bits(code@), byte, path);
                }
            }
        }
    }
}

/// Whether `prefix` is the beginning of `whole` and shorter than it.
pub open spec fn is_proper_prefix(prefix: Seq<bool>, whole: Seq<bool>) -> bool {
    prefix.len() < whole.len() && whole.take(prefix.len() as int) == prefix
}

/// What stands at the end of `path` once `byte` has been put at the end of
/// `code`: the byte at the end of `code` itself, a node on the way to it,
/// with the byte that it had, and elsewhere what stood there before.
pub open spec fn label_after_insert(
    before: DecodeNode,
    code: Seq<bool>,
    byte: u8,
    path: Seq<bool>,
) -> Option<Option<u8>> {
    if path == code {
        Some(Some(byte))
    } else if is_proper_prefix(path, code) {
        match before.label_at(path) {
            Some(label) => Some(label),
            None => Some(None),
        }
    } else {
        before.label_at(path)
    }
}

/// Setting the byte of a node changes what stands at the node and nothing
/// below it.
proof fn lemma_insert_here(
    before: DecodeNode,
    after: DecodeNode,
    code: Seq<bool>,
    byte: u8,
    path: Seq<bool>,
)
    requires
        code.len() == 0,
        after.left == before.left,
        after.right == before.right,
        after.byte == Some(byte),
    ensures
        after.label_at(path) == label_after_insert(before, code, byte, path),
{
    if path.len() == 0 {
        assert(path =~= code);
    } else {
        assert(after.child(path[0]) == before.child(path[0]));
    }
}

/// A node without children and without a byte has nothing below it.
proof fn lemma_empty_node(node: DecodeNode, path: Seq<bool>)
    requires
        node.left.is_none(),
        node.right.is_none(),
        node.byte.is_none(),
    ensures
        node.label_at(path) == if path.len() == 0 {
            Some(None::<u8>)
        } else {
            None
        },
{
}

/// Putting a byte at the end of a code below a child changes the trie as
/// putting it at the end of the whole code should.
proof fn lemma_insert_below(
    before: DecodeNode,
    ready: DecodeNode,
    after: DecodeNode,
    code: Seq<bool>,
    byte: u8,
    path: Seq<bool>,
)
    requires
        code.len() > 0,
        ready.byte == before.byte,
        ready.child(!code[0]) == before.child(!code[0]),
        ready.child(code[0]).is_some(),
        match before.child(code[0]) {
            Some(node) => ready.child(code[0]) == Some(node),
            None => {
                &&& ready.child(code[0]).unwrap().left.is_none()
                &&& ready.child(code[0]).unwrap().right.is_none()
                &&& ready.child(code[0]).unwrap().byte.is_none()
            },
        },
        after.byte == ready.byte,
        after.child(!code[0]) == ready.child(!code[0]),
        after.child(code[0]).is_some(),
        forall|below: Seq<bool>| #[trigger]
            after.child(code[0]).unwrap().label_at(below) == label_after_insert(
                ready.child(code[0]).unwrap(),
                code.skip(1),
                byte,
                below,
            ),
    ensures
        after.label_at(path) == label_after_insert(before, code, byte, path),
{
    if path.len() == 0 {
        assert(code.take(0) =~= path);
        assert(after.label_at(path) == label_after_insert(before, code, byte, path));
    } else if path[0] != code[0] {
        if is_proper_prefix(path, code) {
            assert(code.take(path.len() as int)[0] == path[0]);
        }
        assert(path[0] == !code[0]);
        assert(after.child(path[0]) == before.child(path[0]));
        assert(after.label_at(path) == before.label_at(path));
        assert(after.label_at(path) == label_after_insert(before, code, byte, path));
    } else {
        let below = path.skip(1);
        let rest = code.skip(1);
        let now = after.child(code[0]).unwrap();
        let was = ready.child(code[0]).unwrap();
        assert(now.label_at(below) == label_after_insert(was, rest, byte, below));
        assert(after.label_at(path) == now.label_at(below));
        assert((path == code) == (below == rest)) by {
            if below == rest {
                assert(path =~= seq![path[0]] + below);
                assert(code =~= seq![code[0]] + rest);
            }
        }
        assert(is_proper_prefix(path, code) == is_proper_prefix(below, rest)) by {
            if is_proper_prefix(path, code) {
                assert(rest.take(below.len() as int) =~= code.take(path.len() as int).skip(1));
            }
            if is_proper_prefix(below, rest) {
                assert(code.take(path.len() as int) =~= seq![code[0]] + rest.take(
                    below.len() as int,
                ));
                assert(path =~= seq![path[0]] + below);
            }
        }
        match before.child(code[0]) {
            Some(node) => {
                assert(before.label_at(path) == was.label_at(below));
            },
            None => {
                lemma_empty_node(was, below);
                assert(before.label_at(path).is_none());
            },
        }
        if path == code {
            assert(below == rest);
            assert(after.label_at(path) == label_after_insert(before, code, byte, path));
        } else if is_proper_prefix(path, code) {
            assert(is_proper_prefix(below, rest));
            assert(below != rest);
            assert(after.label_at(path) == label_after_insert(before, code, byte, path));
        } else {
            assert(below != rest);
            assert(!is_proper_prefix(below, rest));
            assert(now.label_at(below) == was.label_at(below));
            if before.child(code[0]).is_none() {
                assert(below.len() > 0) by {
                    if below.len() == 0 {
                        assert(rest.take(0) =~= below);
                        assert(rest.len() > 0) by {
                            if rest.len() == 0 {
                                assert(below =~= rest);
                            }
                        }
                    }
                }
            }
            assert(after.label_at(path) == label_after_insert(before, code, byte, path));
        }
    }
}

} // verus!
