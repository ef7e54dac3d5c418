use vstd::prelude::*;
use crate::nibbles::{NibbleKey, bytes_equal, duplicate_bytes};

verus! {

broadcast use vstd::seq::axiom_seq_index_decreases, vstd::std_specs::vec::axiom_vec_decreases_to_view;

/// Mathematical model of a trie node: the pure-value counterpart of `Node`,
/// used by every contract of this crate.
pub enum NodeV {
    /// A placeholder carrying the commitment of an unexpanded subtree and an
    /// auxiliary bookkeeping count.
    Hash { digest: Seq<u8>, aux: nat },
    /// A terminal node: the remaining key suffix and the stored payload.
    Leaf { key: Seq<u8>, value: Seq<u8> },
    /// A single child reached through a shared key fragment.
    Extension { fragment: Seq<u8>, child: Box<NodeV> },
    /// A branch with one slot per nibble value.
    FullNode { children: Seq<NodeV> },
    /// Absence of a subtree.
    EmptySlot,
}

/// A node of the 16-ary Merkle Patricia trie.
///
/// Keys stored in `Leaf` and `Extension` are always relative to the node's
/// position; a `FullNode` has exactly 16 slots, one per nibble value.
#[derive(Debug)]
pub enum Node {
    /// A placeholder for an unexpanded subtree: its commitment and an
    /// auxiliary count carried through by the proof interpreter.
    Hash(Vec<u8>, usize),
    /// A terminal node: remaining key suffix and opaque payload.
    Leaf(NibbleKey, Vec<u8>),
    /// A single child reached through a non-empty shared key fragment.
    Extension(Vec<u8>, Box<Node>),
    /// A branch node with one slot per nibble value.
    FullNode(Vec<Node>),
    /// Absence marker occupying a branch slot.
    EmptySlot,
}

pub open spec fn node_view(n: Node) -> NodeV
    decreases n,
    via node_view_decreases
{
    match n {
        Node::Hash(d, aux) => NodeV::Hash { digest: d@, aux: aux as nat },
        Node::Leaf(k, v) => NodeV::Leaf { key: k@, value: v@ },
        Node::Extension(f, c) => NodeV::Extension { fragment: f@, child: Box::new(node_view(*c)) },
        Node::FullNode(ch) => NodeV::FullNode { children: views_of(ch@) },
        Node::EmptySlot => NodeV::EmptySlot,
    }
}

/// The models of a sequence of nodes, in order.
pub open spec fn views_of(s: Seq<Node>) -> Seq<NodeV>
    decreases s,
    via views_of_decreases
{
    Seq::new(
        s.len(),
        |i: int| if 0 <= i < s.len() { node_view(s[i]) } else { NodeV::EmptySlot },
    )
}

#[via_fn]
proof fn node_view_decreases(n: Node) {
    match n {
        Node::FullNode(ch) => {
            assert(decreases_to!(n => ch));
            assert(decreases_to!(ch => ch@));
        }
        _ => {}
    }
}

#[via_fn]
proof fn views_of_decreases(s: Seq<Node>) {
    assert forall|i: int| 0 <= i < s.len() implies decreases_to!(s => s[i]) by {
        assert(decreases_to!(s => s[i]));
    }
}

/// What `views_of` holds at each position.
pub broadcast proof fn lemma_views_of_index(s: Seq<Node>)
    ensures
        (#[trigger] views_of(s)).len() == s.len(),
        forall|i: int| 0 <= i < s.len() ==> views_of(s)[i] == node_view(s[i]),
{
}

/// Appending one node appends exactly its model.
pub proof fn lemma_views_of_push(s: Seq<Node>, x: Node)
    ensures
        views_of(s.push(x)) == views_of(s).push(node_view(x)),
{
    broadcast use lemma_views_of_index;

    assert(views_of(s.push(x)) =~= views_of(s).push(node_view(x)));
}

/// Taking a subrange of nodes takes the same subrange of their models.
pub proof fn lemma_views_of_subrange(s: Seq<Node>, a: int, b: int)
    requires
        0 <= a <= b <= s.len(),
    ensures
        views_of(s.subrange(a, b)) == views_of(s).subrange(a, b),
{
    broadcast use lemma_views_of_index;

    assert(views_of(s.subrange(a, b)) =~= views_of(s).subrange(a, b));
}

/// Sixteen empty slots: the children of a fresh branch node.
pub open spec fn empty16() -> Seq<NodeV> {
    Seq::new(16, |i: int| NodeV::EmptySlot)
}

/// Replacing one node of a sequence replaces exactly its model.
pub proof fn lemma_views_of_update(s: Seq<Node>, i: int, x: Node)
    requires
        0 <= i < s.len(),
    ensures
        views_of(s.update(i, x)) == views_of(s).update(i, node_view(x)),
{
    broadcast use lemma_views_of_index;

    assert(views_of(s.update(i, x)) =~= views_of(s).update(i, node_view(x)));
}

impl View for Node {
    type V = NodeV;

    open spec fn view(&self) -> NodeV {
        node_view(*self)
    }
}

/// Structural well-formedness of a trie: every branch node has exactly 16
/// slots and every extension fragment is non-empty.
pub open spec fn wf_node(n: NodeV) -> bool
    decreases n,
{
    match n {
        NodeV::Hash { .. } => true,
        NodeV::Leaf { .. } => true,
        NodeV::Extension { fragment, child } => fragment.len() >= 1 && wf_node(*child),
        NodeV::FullNode { children } => children.len() == 16 && (forall|i: int|
            0 <= i < children.len() ==> wf_node(#[trigger] children[i])),
        NodeV::EmptySlot => true,
    }
}

/// Whether two nodes model the same tree.
pub fn node_eq(a: &Node, b: &Node) -> (r: bool)
    ensures
        r == (a@ == b@),
    decreases *a,
{
    broadcast use lemma_views_of_index;

    match (a, b) {
        (Node::EmptySlot, Node::EmptySlot) => true,
        (Node::Hash(d1, x1), Node::Hash(d2, x2)) => bytes_equal(d1, d2) && *x1 == *x2,
        (Node::Leaf(k1, v1), Node::Leaf(k2, v2)) => k1.eq(k2) && bytes_equal(v1, v2),
        (Node::Extension(f1, c1), Node::Extension(f2, c2)) => bytes_equal(f1, f2) && node_eq(
            c1,
            c2,
        ),
        (Node::FullNode(ch1), Node::FullNode(ch2)) => {
            proof {
                lemma_views_of_index(ch1@);
                lemma_views_of_index(ch2@);
            }
            if ch1.len() != ch2.len() {
                proof {
                    let s1 = node_view(*a)->FullNode_children;
                    let s2 = node_view(*b)->FullNode_children;
                    assert(s1.len() != s2.len());
                }
                return false;
            }
            let mut i: usize = 0;
            let ghost s1 = node_view(*a)->FullNode_children;
            let ghost s2 = node_view(*b)->FullNode_children;
            while i < ch1.len()
                invariant
                    i <= ch1.len(),
                    ch1.len() == ch2.len(),
                    s1 == node_view(*a)->FullNode_children,
                    s2 == node_view(*b)->FullNode_children,
                    a is FullNode && a->FullNode_0 == *ch1,
                    b is FullNode && b->FullNode_0 == *ch2,
                    s1.len() == ch1@.len(),
                    s2.len() == ch2@.len(),
                    forall|j: int| 0 <= j < i ==> s1[j] == s2[j],
                decreases ch1.len() - i,
            {
                proof {
                    assert(decreases_to!(*a => *ch1));
                    assert(decreases_to!(*ch1 => ch1@));
                    assert(decreases_to!(ch1@ => ch1@[i as int]));
                }
                if !node_eq(&ch1[i], &ch2[i]) {
                    proof {
                        lemma_views_of_index(ch1@);
                        lemma_views_of_index(ch2@);
                        assert(s1[i as int] == node_view(ch1@[i as int]));
                        assert(s2[i as int] == node_view(ch2@[i as int]));
                    }
                    return false;
                }
                proof {
                    lemma_views_of_index(ch1@);
                    lemma_views_of_index(ch2@);
                }
                i = i + 1;
            }
            proof {
                assert(s1 =~= s2);
            }
            true
        },
        _ => {
            proof {
                node_view_variant(*a);
                node_view_variant(*b);
            }
            false
        },
    }
}

/// The model keeps each node's variant.
pub proof fn node_view_variant(n: Node)
    ensures
        n is Hash <==> node_view(n) is Hash,
        n is Leaf <==> node_view(n) is Leaf,
        n is Extension <==> node_view(n) is Extension,
        n is FullNode <==> node_view(n) is FullNode,
        n is EmptySlot <==> node_view(n) is EmptySlot,
{
}

impl PartialEq for Node {
    fn eq(&self, other: &Node) -> (r: bool) {
        node_eq(self, other)
    }
}

impl vstd::std_specs::cmp::PartialEqSpecImpl for Node {
    open spec fn obeys_eq_spec() -> bool {
        true
    }

    open spec fn eq_spec(&self, other: &Node) -> bool {
        self@ == other@
    }
}

/// An exact structural copy of a node.
pub fn duplicate_node(n: &Node) -> (r: Node)
    ensures
        r@ == n@,
    decreases *n,
{
    broadcast use lemma_views_of_index;

    match n {
        Node::EmptySlot => Node::EmptySlot,
        Node::Hash(d, x) => Node::Hash(duplicate_bytes(d), *x),
        Node::Leaf(k, v) => Node::Leaf(NibbleKey::new(k.to_vec()), duplicate_bytes(v)),
        Node::Extension(f, c) => {
            proof {
                assert(decreases_to!(*n => *c));
            }
            Node::Extension(duplicate_bytes(f), Box::new(duplicate_node(c)))
        },
        Node::FullNode(ch) => {
            let mut out: Vec<Node> = Vec::new();
            let mut i: usize = 0;
            let ghost s = node_view(*n)->FullNode_children;
            proof {
                lemma_views_of_index(ch@);
                assert(node_view(*n) == NodeV::FullNode { children: views_of(ch@) });
            }
            while i < ch.len()
                invariant
                    i <= ch.len(),
                    s == views_of(ch@),
                    n is FullNode && n->FullNode_0 == *ch,
                    s.len() == ch@.len(),
                    out@.len() == i,
                    forall|j: int| 0 <= j < i ==> node_view(#[trigger] out@[j]) == s[j],
                decreases ch.len() - i,
            {
                proof {
                    assert(decreases_to!(*n => *ch));
                    assert(decreases_to!(*ch => ch@));
                    assert(decreases_to!(ch@ => ch@[i as int]));
                }
                let child = duplicate_node(&ch[i]);
                proof {
                    lemma_views_of_index(ch@);
                }
                out.push(child);
                i = i + 1;
            }
            let result = Node::FullNode(out);
            proof {
                lemma_views_of_index(out@);
                assert(node_view(result) == NodeV::FullNode { children: views_of(out@) });
                assert(views_of(out@) =~= s);
            }
            result
        },
    }
}

impl Clone for Node {
    /// An exact structural copy of the node.
    fn clone(&self) -> (r: Node)
        ensures
            r@ == self@,
    {
        duplicate_node(self)
    }
}

/// A fresh vector holding structural copies of the given nodes.
pub fn duplicate_children(ch: &Vec<Node>) -> (r: Vec<Node>)
    ensures
        r@.len() == ch@.len(),
        views_of(r@) == views_of(ch@),
{
    let mut out: Vec<Node> = Vec::new();
    let mut i: usize = 0;
    while i < ch.len()
        invariant
            i <= ch.len(),
            out@.len() == i,
            forall|j: int| 0 <= j < i ==> node_view(#[trigger] out@[j]) == node_view(ch@[j]),
        decreases ch.len() - i,
    {
        let child = duplicate_node(&ch[i]);
        out.push(child);
        i = i + 1;
    }
    proof {
        lemma_views_of_index(out@);
        lemma_views_of_index(ch@);
        assert(views_of(out@) =~= views_of(ch@));
    }
    out
}

/// A fresh branch node with all 16 slots empty.
pub fn empty_children() -> (r: Vec<Node>)
    ensures
        r@.len() == 16,
        views_of(r@) == empty16(),
{
    broadcast use lemma_views_of_index;

    let mut out: Vec<Node> = Vec::new();
    let mut i: usize = 0;
    while i < 16
        invariant
            i <= 16,
            out@.len() == i,
            forall|j: int| 0 <= j < i ==> node_view(#[trigger] out@[j]) == NodeV::EmptySlot,
        decreases 16 - i,
    {
        out.push(Node::EmptySlot);
        i = i + 1;
    }
    proof {
        assert(views_of(out@) =~= empty16());
    }
    out
}

/// A stack-machine opcode of the multiproof instruction stream.
#[allow(non_camel_case_types)]
#[derive(Clone, Debug)]
pub enum Instruction {
    /// Pop one node and wrap it as a fresh 16-slot full node at this slot.
    BRANCH(usize),
    /// Push a hash placeholder, consuming one entry of the hash list; the
    /// operand is carried into the placeholder's auxiliary count.
    HASHER(usize),
    /// Push a leaf, consuming one key/value record and trimming its key to
    /// the given suffix length.
    LEAF(usize),
    /// Pop one node and wrap it in an extension with this fragment.
    EXTENSION(Vec<u8>),
    /// Pop one node and set it into the given slot of the full node that
    /// stays on top of the stack.
    ADD(usize),
}

/// Mathematical model of an opcode.
pub enum InstructionV {
    Branch(nat),
    Hasher(nat),
    Leaf(nat),
    Extension(Seq<u8>),
    Add(nat),
}

impl View for Instruction {
    type V = InstructionV;

    open spec fn view(&self) -> InstructionV {
        match self {
            Instruction::BRANCH(d) => InstructionV::Branch(*d as nat),
            Instruction::HASHER(d) => InstructionV::Hasher(*d as nat),
            Instruction::LEAF(d) => InstructionV::Leaf(*d as nat),
            Instruction::EXTENSION(f) => InstructionV::Extension(f@),
            Instruction::ADD(d) => InstructionV::Add(*d as nat),
        }
    }
}

/// The views of a sequence of byte vectors.
pub open spec fn bytes_seq_view(v: Seq<Vec<u8>>) -> Seq<Seq<u8>> {
    Seq::new(v.len(), |i: int| v[i]@)
}

/// The views of a sequence of opcodes.
pub open spec fn instr_seq_view(v: Seq<Instruction>) -> Seq<InstructionV> {
    Seq::new(v.len(), |i: int| v[i]@)
}

/// The wire record of a multiproof: ordered digests for unexpanded siblings,
/// the opcode stream, and the canonical leaf records of every expanded leaf.
#[derive(Debug)]
pub struct Multiproof {
    /// Digests of the subtrees the proof does not expand, in emission order.
    pub hashes: Vec<Vec<u8>>,
    /// The opcode stream; its order is part of the protocol.
    pub instructions: Vec<Instruction>,
    /// Canonical leaf records of the expanded leaves, in visit order.
    pub keyvals: Vec<Vec<u8>>,
}

/// Mathematical model of a multiproof.
#[verifier::ext_equal]
pub struct MultiproofV {
    pub hashes: Seq<Seq<u8>>,
    pub instructions: Seq<InstructionV>,
    pub keyvals: Seq<Seq<u8>>,
}

impl View for Multiproof {
    type V = MultiproofV;

    open spec fn view(&self) -> MultiproofV {
        MultiproofV {
            hashes: bytes_seq_view(self.hashes@),
            instructions: instr_seq_view(self.instructions@),
            keyvals: bytes_seq_view(self.keyvals@),
        }
    }
}

} // verus!

