use vstd::prelude::*;
use crate::codec::{encode_leaf_record, encode_pair_list, encode_string_list, leaf_record,
    list_of_strings};
use crate::nibbles::duplicate_bytes;
use crate::node::{bytes_seq_view, Node, NodeV, node_view};

verus! {

broadcast use vstd::seq::axiom_seq_index_decreases, vstd::std_specs::vec::axiom_vec_decreases_to_view, crate::node::lemma_views_of_index;

/// The 32-byte digest that the Keccak-256 function assigns to a byte
/// sequence; a function of the input bytes alone.
pub uninterp spec fn keccak256_of(input: Seq<u8>) -> Seq<u8>;

/// Relies on sha3::Keccak256 through the Digest trait: a deterministic,
/// pure function of the input bytes, with a 32-byte output.
#[verifier::external_body]
fn keccak256(input: &Vec<u8>) -> (r: Vec<u8>)
    ensures
        r@ == keccak256_of(input@),
        r@.len() == 32,
{
    let mut hasher = <sha3::Keccak256 as sha3::Digest>::new();
    <sha3::Keccak256 as sha3::Digest>::update(&mut hasher, input.as_slice());
    <sha3::Keccak256 as sha3::Digest>::finalize(hasher).to_vec()
}

/// The small-record inlining rule: an encoding of at most 32 bytes is its own
/// commitment; a longer one commits through its digest.
pub open spec fn inline_or_digest(e: Seq<u8>) -> Seq<u8> {
    if e.len() > 32 {
        keccak256_of(e)
    } else {
        e
    }
}

/// The canonical commitment of a node: its record encoding, inlined or
/// digested; an empty slot commits to the empty byte sequence and a
/// placeholder returns its digest unchanged.
pub open spec fn hash_of(n: NodeV) -> Seq<u8>
    decreases n,
    via hash_of_decreases
{
    match n {
        NodeV::EmptySlot => Seq::empty(),
        NodeV::Leaf { key, value } => inline_or_digest(leaf_record(key, value)),
        NodeV::Extension { fragment, child } => inline_or_digest(
            list_of_strings(seq![fragment, hash_of(*child)]),
        ),
        NodeV::FullNode { children } => inline_or_digest(
            list_of_strings(children_hashes(children)),
        ),
        NodeV::Hash { digest, .. } => digest,
    }
}

#[via_fn]
proof fn hash_of_decreases(n: NodeV) {
    match n {
        NodeV::FullNode { children } => {
            assert forall|i: int| 0 <= i < children.len() implies decreases_to!(
                n => children[i]
            ) by {
                assert(decreases_to!(n => children));
                assert(decreases_to!(children => children[i]));
            }
        }
        _ => {}
    }
}

/// The commitments of a branch node's children, in slot order.
pub open spec fn children_hashes(children: Seq<NodeV>) -> Seq<Seq<u8>>
    decreases children,
    via children_hashes_decreases
{
    Seq::new(
        children.len(),
        |i: int| if 0 <= i < children.len() {
            hash_of(children[i])
        } else {
            Seq::empty()
        },
    )
}

#[via_fn]
proof fn children_hashes_decreases(children: Seq<NodeV>) {
    assert forall|i: int| 0 <= i < children.len() implies decreases_to!(
        children => children[i]
    ) by {
        assert(decreases_to!(children => children[i]));
    }
}

/// Apply the inlining rule to a computed record encoding.
fn finish_commitment(e: Vec<u8>) -> (r: Vec<u8>)
    ensures
        r@ == inline_or_digest(e@),
{
    if e.len() > 32 {
        keccak256(&e)
    } else {
        e
    }
}

impl Node {
    /// The canonical commitment of the subtree under this node: the record
    /// encoding itself when it is at most 32 bytes, else its Keccak-256
    /// digest. Pure and deterministic; defined on any node, including ones
    /// holding unexpanded placeholders.
    pub fn hash(&self) -> (r: Vec<u8>)
        ensures
            r@ == hash_of(self@),
        decreases *self,
    {
        match self {
            Node::EmptySlot => {
                let r: Vec<u8> = Vec::new();
                proof {
                    assert(r@ =~= Seq::<u8>::empty());
                    assert(node_view(*self) is EmptySlot);
                    assert(hash_of(self@) == Seq::<u8>::empty());
                }
                r
            },
            Node::Hash(d, _) => {
                let r = duplicate_bytes(d);
                proof {
                    assert(hash_of(self@) == d@);
                }
                r
            },
            Node::Leaf(k, v) => {
                let kb = k.to_vec();
                let e = encode_leaf_record(&kb, v);
                proof {
                    assert(hash_of(self@) == inline_or_digest(leaf_record(k@, v@)));
                }
                finish_commitment(e)
            },
            Node::Extension(f, c) => {
                proof {
                    assert(decreases_to!(*self => *c));
                }
                let child_hash = c.hash();
                let e = encode_pair_list(f, &child_hash);
                proof {
                    assert(hash_of(self@) == inline_or_digest(
                        list_of_strings(seq![f@, hash_of(node_view(**c))]),
                    ));
                    assert(e@ == list_of_strings(seq![f@, hash_of(node_view(**c))]));
                }
                finish_commitment(e)
            },
            Node::FullNode(ch) => {
                let ghost s = node_view(*self)->FullNode_children;
                let mut hs: Vec<Vec<u8>> = Vec::new();
                let mut i: usize = 0;
                proof {
                    crate::node::lemma_views_of_index(ch@);
                    assert(node_view(*self) == NodeV::FullNode {
                        children: crate::node::views_of(ch@),
                    });
                }
                while i < ch.len()
                    invariant
                        i <= ch.len(),
                        s == crate::node::views_of(ch@),
                        self is FullNode && self->FullNode_0 == *ch,
                        s.len() == ch@.len(),
                        hs@.len() == i,
                        forall|j: int| 0 <= j < i ==> #[trigger] hs@[j]@ == hash_of(s[j]),
                    decreases ch.len() - i,
                {
                    proof {
                        assert(decreases_to!(*self => *ch));
                        assert(decreases_to!(*ch => ch@));
                        assert(decreases_to!(ch@ => ch@[i as int]));
                    }
                    let h = ch[i].hash();
                    proof {
                        crate::node::lemma_views_of_index(ch@);
                        assert(s[i as int] == node_view(ch@[i as int]));
                    }
                    hs.push(h);
                    i = i + 1;
                }
                let e = encode_string_list(&hs);
                proof {
                    assert(bytes_seq_view(hs@) =~= children_hashes(s));
                    assert(hash_of(self@) == inline_or_digest(list_of_strings(children_hashes(s))));
                    assert(e@ == list_of_strings(children_hashes(s)));
                }
                finish_commitment(e)
            },
        }
    }
}

/// The small-value inlining law: a leaf whose canonical record is at most 32
/// bytes commits to that record verbatim; one byte longer, it commits to the
/// record's digest.
pub proof fn lemma_leaf_inlining(key: Seq<u8>, value: Seq<u8>)
    ensures
        leaf_record(key, value).len() <= 32 ==> hash_of(NodeV::Leaf { key, value }) == leaf_record(
            key,
            value,
        ),
        leaf_record(key, value).len() > 32 ==> hash_of(NodeV::Leaf { key, value })
            == keccak256_of(leaf_record(key, value)),
{
}

} // verus!
