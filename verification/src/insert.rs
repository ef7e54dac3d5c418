use vstd::prelude::*;
use crate::errors::TrieError;
use crate::codec::copy_range;
use crate::nibbles::{common_prefix_len, duplicate_bytes, lemma_common_prefix_of_prefix,
    lemma_common_prefix_self, NibbleKey};
use crate::node::{duplicate_children, duplicate_node, empty16, empty_children,
    lemma_views_of_index, lemma_views_of_update, Node, NodeV, node_view, node_view_variant,
    views_of};

verus! {

broadcast use vstd::seq::axiom_seq_index_decreases;

/// What inserting `value` under `key` makes of the subtree `n`: the updated
/// subtree, the error the insertion reports, or nothing where the algorithm
/// is not defined (a branch selector of 16 or more, a branch node without its
/// 16 slots, or a stored key that ends before the incoming one diverges).
pub open spec fn insert_spec(n: NodeV, key: Seq<u8>, value: Seq<u8>) -> Option<
    Result<NodeV, TrieError>,
>
    decreases n,
{
    if key.len() == 0 {
        Some(Err(TrieError::EmptyKeyError))
    } else {
        match n {
            NodeV::Leaf { key: lk, value: lv } => {
                let d = common_prefix_len(lk, key) as int;
                if d == key.len() {
                    Some(Err(TrieError::DuplicateKeyError))
                } else if d >= lk.len() || lk[d] >= 16 || key[d] >= 16 {
                    None
                } else {
                    let existing = NodeV::Leaf { key: lk.subrange(d + 1, lk.len() as int), value: lv };
                    let incoming = NodeV::Leaf {
                        key: key.subrange(d + 1, key.len() as int),
                        value,
                    };
                    let full = NodeV::FullNode {
                        children: empty16().update(lk[d] as int, existing).update(
                            key[d] as int,
                            incoming,
                        ),
                    };
                    if d == 0 {
                        Some(Ok(full))
                    } else {
                        Some(
                            Ok(
                                NodeV::Extension {
                                    fragment: key.subrange(0, d),
                                    child: Box::new(full),
                                },
                            ),
                        )
                    }
                }
            },
            NodeV::Extension { fragment, child } => {
                let d = common_prefix_len(fragment, key) as int;
                if d == fragment.len() {
                    match insert_spec(
                        *child,
                        key.subrange(fragment.len() as int, key.len() as int),
                        value,
                    ) {
                        None => None,
                        Some(Err(e)) => Some(Err(e)),
                        Some(Ok(nc)) => Some(
                            Ok(NodeV::Extension { fragment, child: Box::new(nc) }),
                        ),
                    }
                } else if d >= key.len() || fragment[d] >= 16 || key[d] >= 16 {
                    None
                } else if d == 0 {
                    let old_entry = if fragment.len() == 1 {
                        *child
                    } else {
                        NodeV::Extension {
                            fragment: fragment.subrange(1, fragment.len() as int),
                            child,
                        }
                    };
                    let incoming = NodeV::Leaf { key: key.subrange(1, key.len() as int), value };
                    Some(
                        Ok(
                            NodeV::FullNode {
                                children: empty16().update(fragment[0] as int, old_entry).update(
                                    key[0] as int,
                                    incoming,
                                ),
                            },
                        ),
                    )
                } else {
                    let old_entry = if fragment.len() - d > 1 {
                        NodeV::Extension {
                            fragment: fragment.subrange(d + 1, fragment.len() as int),
                            child,
                        }
                    } else {
                        *child
                    };
                    let incoming = NodeV::Leaf {
                        key: key.subrange(d + 1, key.len() as int),
                        value,
                    };
                    let full = NodeV::FullNode {
                        children: empty16().update(fragment[d] as int, old_entry).update(
                            key[d] as int,
                            incoming,
                        ),
                    };
                    Some(
                        Ok(
                            NodeV::Extension {
                                fragment: fragment.subrange(0, d),
                                child: Box::new(full),
                            },
                        ),
                    )
                }
            },
            NodeV::FullNode { children } => {
                if children.len() != 16 || key[0] >= 16 {
                    None
                } else {
                    let idx = key[0] as int;
                    if children[idx] is EmptySlot {
                        Some(
                            Ok(
                                NodeV::FullNode {
                                    children: children.update(
                                        idx,
                                        NodeV::Leaf {
                                            key: key.subrange(1, key.len() as int),
                                            value,
                                        },
                                    ),
                                },
                            ),
                        )
                    } else {
                        match insert_spec(children[idx], key.subrange(1, key.len() as int), value) {
                            None => None,
                            Some(Err(e)) => Some(Err(e)),
                            Some(Ok(nc)) => Some(
                                Ok(NodeV::FullNode { children: children.update(idx, nc) }),
                            ),
                        }
                    }
                }
            },
            _ => Some(Err(TrieError::UnsupportedNodeError)),
        }
    }
}

/// The recursion of the insertion: a fresh subtree reflecting the insertion,
/// or the error it reports. The input subtree is left untouched.
fn insert_node(n: &Node, key: &Vec<u8>, value: Vec<u8>) -> (r: Result<Node, TrieError>)
    requires
        insert_spec(n@, key@, value@) is Some,
    ensures
        match r {
            Ok(nn) => insert_spec(n@, key@, value@) == Some(Ok::<NodeV, TrieError>(nn@)),
            Err(e) => insert_spec(n@, key@, value@) == Some(Err::<NodeV, TrieError>(e)),
        },
    decreases *n,
{
    if key.len() == 0 {
        return Err(TrieError::EmptyKeyError);
    }
    match n {
        Node::Leaf(lk, lv) => {
            let d = lk.common_prefix_with_bytes(key);
            if d == key.len() {
                return Err(TrieError::DuplicateKeyError);
            }
            proof {
                crate::nibbles::lemma_common_prefix_len(lk@, key@);
                assert(!(d >= lk@.len() || lk@[d as int] >= 16 || key@[d as int] >= 16));
            }
            let slot_old = lk.get(d) as usize;
            let slot_new = key[d] as usize;
            let mut ch = empty_children();
            let ghost c0 = ch@;
            let existing = Node::Leaf(lk.drop_prefix(d + 1), duplicate_bytes(lv));
            let ghost ev = node_view(existing);
            ch[slot_old] = existing;
            proof {
                lemma_views_of_update(c0, slot_old as int, ch@[slot_old as int]);
            }
            let ghost c1 = ch@;
            let incoming = Node::Leaf(NibbleKey::new(copy_range(key, d + 1, key.len())), value);
            let ghost iv = node_view(incoming);
            ch[slot_new] = incoming;
            proof {
                lemma_views_of_update(c1, slot_new as int, ch@[slot_new as int]);
                assert(views_of(ch@) == empty16().update(slot_old as int, ev).update(
                    slot_new as int,
                    iv,
                ));
            }
            let ghost cv = views_of(ch@);
            let full = Node::FullNode(ch);
            proof {
                assert(node_view(full) == NodeV::FullNode { children: cv });
            }
            if d == 0 {
                Ok(full)
            } else {
                Ok(Node::Extension(copy_range(key, 0, d), Box::new(full)))
            }
        },
        Node::Extension(frag, child) => {
            let d = crate::nibbles::common_prefix(frag, key);
            if d == frag.len() {
                proof {
                    crate::nibbles::lemma_common_prefix_len(frag@, key@);
                    assert(decreases_to!(*n => *child));
                }
                let sub = copy_range(key, frag.len(), key.len());
                match insert_node(child, &sub, value) {
                    Ok(nc) => Ok(Node::Extension(duplicate_bytes(frag), Box::new(nc))),
                    Err(e) => Err(e),
                }
            } else if d == 0 {
                proof {
                    crate::nibbles::lemma_common_prefix_len(frag@, key@);
                    assert(!(0 >= key@.len() || frag@[0] >= 16 || key@[0] >= 16));
                }
                let old_entry = if frag.len() == 1 {
                    duplicate_node(child)
                } else {
                    Node::Extension(copy_range(frag, 1, frag.len()), Box::new(duplicate_node(child)))
                };
                let ghost ov = node_view(old_entry);
                let mut ch = empty_children();
                let ghost c0 = ch@;
                let slot_old = frag[0] as usize;
                let slot_new = key[0] as usize;
                ch[slot_old] = old_entry;
                proof {
                    lemma_views_of_update(c0, slot_old as int, ch@[slot_old as int]);
                }
                let ghost c1 = ch@;
                let incoming = Node::Leaf(NibbleKey::new(copy_range(key, 1, key.len())), value);
                let ghost iv = node_view(incoming);
                ch[slot_new] = incoming;
                proof {
                    lemma_views_of_update(c1, slot_new as int, ch@[slot_new as int]);
                    assert(views_of(ch@) == empty16().update(slot_old as int, ov).update(
                        slot_new as int,
                        iv,
                    ));
                }
                Ok(Node::FullNode(ch))
            } else {
                proof {
                    crate::nibbles::lemma_common_prefix_len(frag@, key@);
                    assert(!(d >= key@.len() || frag@[d as int] >= 16 || key@[d as int] >= 16));
                }
                let old_entry = if frag.len() - d > 1 {
                    Node::Extension(
                        copy_range(frag, d + 1, frag.len()),
                        Box::new(duplicate_node(child)),
                    )
                } else {
                    duplicate_node(child)
                };
                let ghost ov = node_view(old_entry);
                let mut ch = empty_children();
                let ghost c0 = ch@;
                let slot_old = frag[d] as usize;
                let slot_new = key[d] as usize;
                ch[slot_old] = old_entry;
                proof {
                    lemma_views_of_update(c0, slot_old as int, ch@[slot_old as int]);
                }
                let ghost c1 = ch@;
                let incoming = Node::Leaf(NibbleKey::new(copy_range(key, d + 1, key.len())), value);
                let ghost iv = node_view(incoming);
                ch[slot_new] = incoming;
                proof {
                    lemma_views_of_update(c1, slot_new as int, ch@[slot_new as int]);
                    assert(views_of(ch@) == empty16().update(slot_old as int, ov).update(
                        slot_new as int,
                        iv,
                    ));
                }
                let ghost cv = views_of(ch@);
                let full = Node::FullNode(ch);
                proof {
                    assert(node_view(full) == NodeV::FullNode { children: cv });
                }
                Ok(Node::Extension(copy_range(frag, 0, d), Box::new(full)))
            }
        },
        Node::FullNode(ch) => {
            proof {
                lemma_views_of_index(ch@);
                assert(node_view(*n) == NodeV::FullNode { children: views_of(ch@) });
                assert(!(views_of(ch@).len() != 16 || key@[0] >= 16));
            }
            let idx = key[0] as usize;
            proof {
                node_view_variant(ch@[idx as int]);
            }
            if matches!(&ch[idx], Node::EmptySlot) {
                let mut out = duplicate_children(ch);
                let ghost o0 = out@;
                let incoming = Node::Leaf(NibbleKey::new(copy_range(key, 1, key.len())), value);
                let ghost iv = node_view(incoming);
                out[idx] = incoming;
                proof {
                    lemma_views_of_update(o0, idx as int, out@[idx as int]);
                    assert(views_of(out@) == views_of(ch@).update(idx as int, iv));
                }
                Ok(Node::FullNode(out))
            } else {
                let sub = copy_range(key, 1, key.len());
                proof {
                    assert(decreases_to!(*n => *ch));
                    assert(decreases_to!(*ch => ch@));
                    assert(decreases_to!(ch@ => ch@[idx as int]));
                }
                match insert_node(&ch[idx], &sub, value) {
                    Err(e) => Err(e),
                    Ok(nc) => {
                        let ghost nv = node_view(nc);
                        let mut out = duplicate_children(ch);
                        let ghost o0 = out@;
                        out[idx] = nc;
                        proof {
                            lemma_views_of_update(o0, idx as int, out@[idx as int]);
                            assert(views_of(out@) == views_of(ch@).update(idx as int, nv));
                        }
                        Ok(Node::FullNode(out))
                    },
                }
            }
        },
        _ => {
            proof {
                node_view_variant(*n);
            }
            Err(TrieError::UnsupportedNodeError)
        },
    }
}

/// Insert a `(key, value)` pair into the (sub-)tree rooted at `root`.
///
/// On success the tree is updated in place and the new root is also returned;
/// on failure the tree is left exactly as it was. Fails with `EmptyKeyError`
/// on a zero-length key and with `DuplicateKeyError` when the key already
/// terminates at a leaf.
pub fn insert_leaf(root: &mut Node, key: Vec<u8>, value: Vec<u8>) -> (r: Result<Node, TrieError>)
    requires
        insert_spec(old(root)@, key@, value@) is Some,
    ensures
        match r {
            Ok(n) => insert_spec(old(root)@, key@, value@) == Some(Ok::<NodeV, TrieError>(n@)) && final(root)@ == n@,
            Err(e) => insert_spec(old(root)@, key@, value@) == Some(Err::<NodeV, TrieError>(e))
                && final(root)@ == old(root)@,
        },
{
    match insert_node(&*root, &key, value) {
        Ok(n) => {
            let copy = duplicate_node(&n);
            *root = copy;
            Ok(n)
        },
        Err(e) => Err(e),
    }
}

/// Whether `key` terminates at a leaf of the tree that still carries a
/// non-empty suffix of it. A key whose last nibble was consumed by a branch
/// slot ends at an empty-key leaf and is not counted here; inserting such a
/// key is rejected as an empty-key insertion rather than as a duplicate.
pub open spec fn contains_key(n: NodeV, key: Seq<u8>) -> bool
    decreases n,
{
    match n {
        NodeV::Leaf { key: lk, .. } => lk == key && key.len() > 0,
        NodeV::Extension { fragment, child } => fragment.len() <= key.len() && key.subrange(
            0,
            fragment.len() as int,
        ) == fragment && contains_key(*child, key.subrange(fragment.len() as int, key.len() as int)),
        NodeV::FullNode { children } => children.len() == 16 && key.len() > 0 && key[0] < 16
            && contains_key(children[key[0] as int], key.subrange(1, key.len() as int)),
        _ => false,
    }
}

/// A key held by the tree is never empty.
proof fn lemma_contains_key_nonempty(n: NodeV, key: Seq<u8>)
    requires
        contains_key(n, key),
    ensures
        key.len() > 0,
    decreases n,
{
    match n {
        NodeV::Extension { fragment, child } => {
            if fragment.len() == 0 {
                lemma_contains_key_nonempty(
                    *child,
                    key.subrange(fragment.len() as int, key.len() as int),
                );
            }
        },
        _ => {},
    }
}

/// The duplicate-rejection law: inserting a key that the tree already holds
/// as a terminal leaf fails with `DuplicateKeyError`; `insert_leaf` then
/// leaves the tree unchanged by its contract.
pub proof fn lemma_duplicate_rejected(n: NodeV, key: Seq<u8>, value: Seq<u8>)
    requires
        contains_key(n, key),
        insert_spec(n, key, value) is Some,
    ensures
        insert_spec(n, key, value) == Some(
            Err::<NodeV, TrieError>(TrieError::DuplicateKeyError),
        ),
    decreases n,
{
    lemma_contains_key_nonempty(n, key);
    match n {
        NodeV::Leaf { key: lk, value: lv } => {
            lemma_common_prefix_self(key);
        },
        NodeV::Extension { fragment, child } => {
            lemma_common_prefix_of_prefix(fragment, key);
            let rest = key.subrange(fragment.len() as int, key.len() as int);
            lemma_contains_key_nonempty(*child, rest);
            lemma_duplicate_rejected(*child, rest, value);
        },
        NodeV::FullNode { children } => {
            let rest = key.subrange(1, key.len() as int);
            let idx = key[0] as int;
            lemma_contains_key_nonempty(children[idx], rest);
            lemma_duplicate_rejected(children[idx], rest, value);
        },
        _ => {},
    }
}

/// The slot a defined insertion updates in a branch node, and the node it
/// puts there.
proof fn lemma_insert_updates_one_slot(children: Seq<NodeV>, key: Seq<u8>, value: Seq<u8>)
    requires
        key.len() > 0,
        insert_spec(NodeV::FullNode { children }, key, value) matches Some(Ok(_)),
    ensures
        children.len() == 16,
        key[0] < 16,
        exists|x: NodeV|
            insert_spec(NodeV::FullNode { children }, key, value) == Some(
                Ok::<NodeV, TrieError>(
                    NodeV::FullNode { children: children.update(key[0] as int, x) },
                ),
            ),
{
    let idx = key[0] as int;
    if children[idx] is EmptySlot {
        let x = NodeV::Leaf { key: key.subrange(1, key.len() as int), value };
        assert(insert_spec(NodeV::FullNode { children }, key, value) == Some(
            Ok::<NodeV, TrieError>(NodeV::FullNode { children: children.update(idx, x) }),
        ));
    } else {
        let x = (match insert_spec(children[idx], key.subrange(1, key.len() as int), value) {
            Some(Ok(nc)) => nc,
            _ => NodeV::EmptySlot,
        });
        assert(insert_spec(NodeV::FullNode { children }, key, value) == Some(
            Ok::<NodeV, TrieError>(NodeV::FullNode { children: children.update(idx, x) }),
        ));
    }
}

/// One piece of insertion-order independence: two insertions whose keys pick
/// different slots of a branch node yield the same tree in either order.
pub proof fn lemma_insert_commutes_on_distinct_slots(
    children: Seq<NodeV>,
    ka: Seq<u8>,
    va: Seq<u8>,
    kb: Seq<u8>,
    vb: Seq<u8>,
    tab: NodeV,
    tba: NodeV,
)
    requires
        ka.len() > 0,
        kb.len() > 0,
        ka[0] != kb[0],
        ({
            &&& insert_spec(NodeV::FullNode { children }, ka, va) matches Some(Ok(ta))
            &&& insert_spec(ta, kb, vb) == Some(Ok::<NodeV, TrieError>(tab))
        }),
        ({
            &&& insert_spec(NodeV::FullNode { children }, kb, vb) matches Some(Ok(tb))
            &&& insert_spec(tb, ka, va) == Some(Ok::<NodeV, TrieError>(tba))
        }),
    ensures
        tab == tba,
{
    let t = NodeV::FullNode { children };
    let a0 = ka[0] as int;
    let b0 = kb[0] as int;
    lemma_insert_updates_one_slot(children, ka, va);
    let xa = choose|x: NodeV|
        insert_spec(t, ka, va) == Some(
            Ok::<NodeV, TrieError>(NodeV::FullNode { children: children.update(a0, x) }),
        );
    lemma_insert_updates_one_slot(children, kb, vb);
    let xb = choose|x: NodeV|
        insert_spec(t, kb, vb) == Some(
            Ok::<NodeV, TrieError>(NodeV::FullNode { children: children.update(b0, x) }),
        );
    let ca = children.update(a0, xa);
    let cb = children.update(b0, xb);
    // The second insertion of each order sees the other key's slot untouched,
    // so it settles on the same node for it.
    assert(ca[b0] == children[b0]);
    assert(cb[a0] == children[a0]);
    if children[b0] is EmptySlot {
        let y = NodeV::Leaf { key: kb.subrange(1, kb.len() as int), value: vb };
        assert(insert_spec(t, kb, vb) == Some(
            Ok::<NodeV, TrieError>(NodeV::FullNode { children: children.update(b0, y) }),
        ));
        assert(children.update(b0, xb) == children.update(b0, y));
        assert(children.update(b0, xb)[b0] == xb);
        assert(children.update(b0, y)[b0] == y);
        assert(insert_spec(NodeV::FullNode { children: ca }, kb, vb) == Some(
            Ok::<NodeV, TrieError>(NodeV::FullNode { children: ca.update(b0, xb) }),
        ));
    } else {
        let y = (match insert_spec(children[b0], kb.subrange(1, kb.len() as int), vb) {
            Some(Ok(nc)) => nc,
            _ => NodeV::EmptySlot,
        });
        assert(insert_spec(t, kb, vb) == Some(
            Ok::<NodeV, TrieError>(NodeV::FullNode { children: children.update(b0, y) }),
        ));
        assert(children.update(b0, xb) == children.update(b0, y));
        assert(children.update(b0, xb)[b0] == xb);
        assert(children.update(b0, y)[b0] == y);
        assert(insert_spec(NodeV::FullNode { children: ca }, kb, vb) == Some(
            Ok::<NodeV, TrieError>(NodeV::FullNode { children: ca.update(b0, xb) }),
        ));
    }
    if children[a0] is EmptySlot {
        let y = NodeV::Leaf { key: ka.subrange(1, ka.len() as int), value: va };
        assert(insert_spec(t, ka, va) == Some(
            Ok::<NodeV, TrieError>(NodeV::FullNode { children: children.update(a0, y) }),
        ));
        assert(children.update(a0, xa) == children.update(a0, y));
        assert(children.update(a0, xa)[a0] == xa);
        assert(children.update(a0, y)[a0] == y);
        assert(insert_spec(NodeV::FullNode { children: cb }, ka, va) == Some(
            Ok::<NodeV, TrieError>(NodeV::FullNode { children: cb.update(a0, xa) }),
        ));
    } else {
        let y = (match insert_spec(children[a0], ka.subrange(1, ka.len() as int), va) {
            Some(Ok(nc)) => nc,
            _ => NodeV::EmptySlot,
        });
        assert(insert_spec(t, ka, va) == Some(
            Ok::<NodeV, TrieError>(NodeV::FullNode { children: children.update(a0, y) }),
        ));
        assert(children.update(a0, xa) == children.update(a0, y));
        assert(children.update(a0, xa)[a0] == xa);
        assert(children.update(a0, y)[a0] == y);
        assert(insert_spec(NodeV::FullNode { children: cb }, ka, va) == Some(
            Ok::<NodeV, TrieError>(NodeV::FullNode { children: cb.update(a0, xa) }),
        ));
    }
    assert(tab == NodeV::FullNode { children: ca.update(b0, xb) });
    assert(tba == NodeV::FullNode { children: cb.update(a0, xa) });
    assert(ca.update(b0, xb) =~= cb.update(a0, xa));
}

} // verus!
