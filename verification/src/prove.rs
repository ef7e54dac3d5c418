use vstd::prelude::*;
use crate::codec::{copy_range, encode_leaf_record, leaf_record};
use crate::errors::TrieError;
use crate::hashing::hash_of;
use crate::nibbles::{bytes_equal, common_prefix, duplicate_bytes, lemma_common_prefix_len,
    lemma_common_prefix_of_prefix};
use crate::node::{bytes_seq_view, instr_seq_view, lemma_views_of_index, node_view,
    node_view_variant, views_of, Instruction, InstructionV, Multiproof, MultiproofV, Node, NodeV};

verus! {

broadcast use vstd::seq::axiom_seq_index_decreases;

/// A multiproof with empty streams.
pub open spec fn mp_empty() -> MultiproofV {
    MultiproofV { hashes: Seq::empty(), instructions: Seq::empty(), keyvals: Seq::empty() }
}

/// Two multiproofs spliced together, stream by stream.
pub open spec fn mp_concat(a: MultiproofV, b: MultiproofV) -> MultiproofV {
    MultiproofV {
        hashes: a.hashes + b.hashes,
        instructions: a.instructions + b.instructions,
        keyvals: a.keyvals + b.keyvals,
    }
}

/// Splicing is associative.
pub proof fn lemma_mp_concat_assoc(a: MultiproofV, b: MultiproofV, c: MultiproofV)
    ensures
        mp_concat(mp_concat(a, b), c) == mp_concat(a, mp_concat(b, c)),
{
    assert((a.hashes + b.hashes) + c.hashes =~= a.hashes + (b.hashes + c.hashes));
    assert((a.instructions + b.instructions) + c.instructions =~= a.instructions + (b.instructions
        + c.instructions));
    assert((a.keyvals + b.keyvals) + c.keyvals =~= a.keyvals + (b.keyvals + c.keyvals));
}

/// The empty multiproof is the unit of splicing.
pub proof fn lemma_mp_concat_unit(a: MultiproofV)
    ensures
        mp_concat(mp_empty(), a) == a,
        mp_concat(a, mp_empty()) == a,
{
    assert(Seq::<Seq<u8>>::empty() + a.hashes =~= a.hashes);
    assert(Seq::<InstructionV>::empty() + a.instructions =~= a.instructions);
    assert(Seq::<Seq<u8>>::empty() + a.keyvals =~= a.keyvals);
    assert(a.hashes + Seq::<Seq<u8>>::empty() =~= a.hashes);
    assert(a.instructions + Seq::<InstructionV>::empty() =~= a.instructions);
    assert(a.keyvals + Seq::<Seq<u8>>::empty() =~= a.keyvals);
    assert(mp_concat(mp_empty(), a) =~= a);
    assert(mp_concat(a, mp_empty()) =~= a);
}

/// The requested pairs whose key starts with the nibble `s`, in request
/// order, each with that leading nibble removed.
pub open spec fn bucket_of(kvs: Seq<(Seq<u8>, Seq<u8>)>, s: nat) -> Seq<(Seq<u8>, Seq<u8>)>
    decreases kvs.len(),
{
    if kvs.len() == 0 {
        Seq::empty()
    } else {
        let last = kvs.last();
        bucket_of(kvs.drop_last(), s) + (if last.0.len() > 0 && last.0[0] == s {
            seq![(last.0.subrange(1, last.0.len() as int), last.1)]
        } else {
            Seq::empty()
        })
    }
}

/// The requested pairs, each with the leading `flen` elements of its key
/// removed.
pub open spec fn trim_kvs(kvs: Seq<(Seq<u8>, Seq<u8>)>, flen: int) -> Seq<(Seq<u8>, Seq<u8>)> {
    Seq::new(kvs.len(), |j: int| (kvs[j].0.subrange(flen, kvs[j].0.len() as int), kvs[j].1))
}

/// The sixteen buckets of the requested pairs, by leading nibble.
pub open spec fn buckets_of(kvs: Seq<(Seq<u8>, Seq<u8>)>) -> Seq<Seq<(Seq<u8>, Seq<u8>)>> {
    Seq::new(16, |s: int| bucket_of(kvs, s as nat))
}

/// What the compiler emits for the slots `i..16` of a branch node, given the
/// per-slot buckets; `first` says whether the next contributing slot still
/// owes the `BRANCH` opcode that opens the branch frame.
pub open spec fn prove_slots(
    children: Seq<NodeV>,
    buckets: Seq<Seq<(Seq<u8>, Seq<u8>)>>,
    i: int,
    first: bool,
) -> Option<Result<MultiproofV, TrieError>>
    decreases children, 16 - i,
{
    if i < 0 || i >= 16 || children.len() != 16 || buckets.len() != 16 {
        Some(Ok(mp_empty()))
    } else {
        let op: InstructionV = if first {
            InstructionV::Branch(i as nat)
        } else {
            InstructionV::Add(i as nat)
        };
        if buckets[i].len() == 0 {
            if children[i] is EmptySlot {
                prove_slots(children, buckets, i + 1, first)
            } else {
                match prove_slots(children, buckets, i + 1, false) {
                    None => None,
                    Some(Err(e)) => Some(Err(e)),
                    Some(Ok(rest)) => Some(
                        Ok(
                            mp_concat(
                                MultiproofV {
                                    hashes: seq![hash_of(children[i])],
                                    instructions: seq![InstructionV::Hasher(0), op],
                                    keyvals: Seq::empty(),
                                },
                                rest,
                            ),
                        ),
                    ),
                }
            }
        } else {
            match prove_spec(children[i], buckets[i]) {
                None => None,
                Some(Err(e)) => Some(Err(e)),
                Some(Ok(sub)) => match prove_slots(children, buckets, i + 1, false) {
                    None => None,
                    Some(Err(e)) => Some(Err(e)),
                    Some(Ok(rest)) => Some(
                        Ok(
                            mp_concat(
                                mp_concat(
                                    sub,
                                    MultiproofV {
                                        hashes: Seq::empty(),
                                        instructions: seq![op],
                                        keyvals: Seq::empty(),
                                    },
                                ),
                                rest,
                            ),
                        ),
                    ),
                },
            }
        }
    }
}

/// What proving the requested `(key, new value)` pairs against the subtree
/// `n` emits: the multiproof, the error the compilation reports, or nothing
/// where the algorithm is not defined (a branch node without its 16 slots, or
/// a requested key that runs out or leaves the nibble range at a branch).
///
/// An empty request set commits the whole subtree as one hash. Descending
/// through an extension appends an `EXTENSION` opcode carrying the fragment,
/// so that the proof describes the tree shape on its own.
pub open spec fn prove_spec(n: NodeV, kvs: Seq<(Seq<u8>, Seq<u8>)>) -> Option<
    Result<MultiproofV, TrieError>,
>
    decreases n, 17int,
{
    if kvs.len() == 0 {
        Some(
            Ok(
                MultiproofV {
                    hashes: seq![hash_of(n)],
                    instructions: seq![InstructionV::Hasher(0)],
                    keyvals: Seq::empty(),
                },
            ),
        )
    } else {
        match n {
            NodeV::EmptySlot => Some(Err(TrieError::EmptyTreeError)),
            NodeV::FullNode { children } => {
                if children.len() != 16 || (exists|j: int|
                    0 <= j < kvs.len() && (kvs[j].0.len() == 0 || kvs[j].0[0] >= 16)) {
                    None
                } else {
                    prove_slots(children, buckets_of(kvs), 0, true)
                }
            },
            NodeV::Leaf { key: lk, value: lv } => {
                if kvs.len() != 1 {
                    Some(Err(TrieError::KeyMismatchError))
                } else if kvs[0].0 == lk {
                    Some(
                        Ok(
                            MultiproofV {
                                hashes: Seq::empty(),
                                instructions: seq![InstructionV::Leaf(lk.len())],
                                keyvals: seq![leaf_record(lk, kvs[0].1)],
                            },
                        ),
                    )
                } else {
                    Some(Err(TrieError::KeyMismatchError))
                }
            },
            NodeV::Extension { fragment, child } => {
                if !(forall|j: int|
                    0 <= j < kvs.len() ==> (#[trigger] kvs[j].0.len() >= fragment.len()
                        && kvs[j].0.subrange(0, fragment.len() as int) == fragment)) {
                    Some(Err(TrieError::KeyNotInTreeError))
                } else {
                    match prove_spec(*child, trim_kvs(kvs, fragment.len() as int)) {
                        None => None,
                        Some(Err(e)) => Some(Err(e)),
                        Some(Ok(sub)) => Some(
                            Ok(
                                MultiproofV {
                                    hashes: sub.hashes,
                                    instructions: sub.instructions + seq![
                                        InstructionV::Extension(fragment),
                                    ],
                                    keyvals: sub.keyvals,
                                },
                            ),
                        ),
                    }
                }
            },
            NodeV::Hash { .. } => Some(Err(TrieError::InternalError)),
        }
    }
}

/// The models of a sequence of requested `(key, value)` pairs.
pub open spec fn kv_view(s: Seq<(Vec<u8>, Vec<u8>)>) -> Seq<(Seq<u8>, Seq<u8>)> {
    Seq::new(s.len(), |i: int| (s[i].0@, s[i].1@))
}

/// How a finished prefix of the slot loop relates the whole branch proof to
/// what the remaining slots still emit.
pub open spec fn slots_split(
    total: Option<Result<MultiproofV, TrieError>>,
    acc: MultiproofV,
    rest: Option<Result<MultiproofV, TrieError>>,
) -> bool {
    total == match rest {
        None => None,
        Some(Err(e)) => Some(Err(e)),
        Some(Ok(m)) => Some(Ok(mp_concat(acc, m))),
    }
}

/// Compile a multiproof for the requested `(key, new value)` pairs against
/// the tree rooted at `root`.
///
/// An empty request set yields a proof holding just the root's hash. The
/// instruction stream lists, for each branch node on a requested path, its
/// contributing slots in increasing order: the first opens the frame with
/// `BRANCH`, the rest fold in with `ADD`; untouched non-empty siblings are
/// carried as hashes, and each extension descended through appends an
/// `EXTENSION` opcode carrying its fragment.
pub fn make_multiproof(root: &Node, keyvals: Vec<(Vec<u8>, Vec<u8>)>) -> (r: Result<
    Multiproof,
    TrieError,
>)
    requires
        prove_spec(root@, kv_view(keyvals@)) is Some,
    ensures
        match r {
            Ok(mp) => prove_spec(root@, kv_view(keyvals@)) == Some(
                Ok::<MultiproofV, TrieError>(mp@),
            ),
            Err(e) => prove_spec(root@, kv_view(keyvals@)) == Some(
                Err::<MultiproofV, TrieError>(e),
            ),
        },
    decreases *root,
{
    let ghost kvsv = kv_view(keyvals@);
    if keyvals.len() == 0 {
        let mut hashes: Vec<Vec<u8>> = Vec::new();
        hashes.push(root.hash());
        let mut instructions: Vec<Instruction> = Vec::new();
        instructions.push(Instruction::HASHER(0));
        let kvout: Vec<Vec<u8>> = Vec::new();
        let mp = Multiproof { hashes, instructions, keyvals: kvout };
        proof {
            assert(mp@.hashes =~= seq![hash_of(root@)]);
            assert(mp@.instructions =~= seq![InstructionV::Hasher(0)]);
            assert(mp@.keyvals =~= Seq::<Seq<u8>>::empty());
            assert(prove_spec(root@, kvsv) == Some(Ok::<MultiproofV, TrieError>(mp@)));
        }
        return Ok(mp);
    }
    match root {
        Node::EmptySlot => {
            proof {
                node_view_variant(*root);
            }
            Err(TrieError::EmptyTreeError)
        },
        Node::Hash(_, _) => {
            proof {
                node_view_variant(*root);
            }
            Err(TrieError::InternalError)
        },
        Node::Leaf(lk, lv) => {
            if keyvals.len() != 1 {
                return Err(TrieError::KeyMismatchError);
            }
            let lkv = lk.to_vec();
            if bytes_equal(&lkv, &keyvals[0].0) {
                let rec = encode_leaf_record(&lkv, &keyvals[0].1);
                let hashes: Vec<Vec<u8>> = Vec::new();
                let mut instructions: Vec<Instruction> = Vec::new();
                instructions.push(Instruction::LEAF(lk.len()));
                let mut kvout: Vec<Vec<u8>> = Vec::new();
                kvout.push(rec);
                let mp = Multiproof { hashes, instructions, keyvals: kvout };
                proof {
                    assert(kvsv[0].0 == lk@);
                    assert(mp@.hashes =~= Seq::<Seq<u8>>::empty());
                    assert(mp@.instructions =~= seq![InstructionV::Leaf(lk@.len())]);
                    assert(mp@.keyvals =~= seq![leaf_record(lk@, kvsv[0].1)]);
                    assert(prove_spec(root@, kvsv) == Some(Ok::<MultiproofV, TrieError>(mp@)));
                }
                Ok(mp)
            } else {
                proof {
                    assert(kvsv[0].0 != lk@);
                }
                Err(TrieError::KeyMismatchError)
            }
        },
        Node::Extension(frag, child) => {
            let flen = frag.len();
            let mut j: usize = 0;
            while j < keyvals.len()
                invariant
                    j <= keyvals@.len(),
                    kvsv == kv_view(keyvals@),
                    kvsv.len() == keyvals@.len(),
                    root is Extension && root->Extension_0 == *frag,
                    flen == frag@.len(),
                    forall|t: int|
                        0 <= t < j ==> (#[trigger] kvsv[t].0.len() >= frag@.len()
                            && kvsv[t].0.subrange(0, frag@.len() as int) == frag@),
                decreases keyvals@.len() - j,
            {
                let d = common_prefix(frag, &keyvals[j].0);
                if d != flen {
                    proof {
                        lemma_common_prefix_len(frag@, kvsv[j as int].0);
                        if kvsv[j as int].0.len() >= frag@.len() && kvsv[j as int].0.subrange(
                            0,
                            frag@.len() as int,
                        ) == frag@ {
                            lemma_common_prefix_of_prefix(frag@, kvsv[j as int].0);
                        }
                    }
                    return Err(TrieError::KeyNotInTreeError);
                }
                proof {
                    lemma_common_prefix_len(frag@, kvsv[j as int].0);
                    assert(kvsv[j as int].0.subrange(0, frag@.len() as int) =~= frag@);
                }
                j = j + 1;
            }
            let mut trimmed: Vec<(Vec<u8>, Vec<u8>)> = Vec::new();
            let mut j: usize = 0;
            while j < keyvals.len()
                invariant
                    j <= keyvals@.len(),
                    kvsv == kv_view(keyvals@),
                    kvsv.len() == keyvals@.len(),
                    root is Extension && root->Extension_0 == *frag,
                    flen == frag@.len(),
                    forall|t: int|
                        0 <= t < keyvals@.len() ==> (#[trigger] kvsv[t].0).len() >= frag@.len(),
                    kv_view(trimmed@) == trim_kvs(kvsv, frag@.len() as int).subrange(0, j as int),
                decreases keyvals@.len() - j,
            {
                proof {
                    assert(kvsv[j as int] == (keyvals@[j as int].0@, keyvals@[j as int].1@));
                    assert(kvsv[j as int].0.len() >= frag@.len());
                }
                let kref = &keyvals[j].0;
                let t0 = copy_range(kref, flen, kref.len());
                let t1 = duplicate_bytes(&keyvals[j].1);
                let pair = (t0, t1);
                let ghost pairv = pair;
                let ghost pre = trimmed@;
                trimmed.push(pair);
                j = j + 1;
                proof {
                    let tk = trim_kvs(kvsv, frag@.len() as int);
                    assert(trimmed@ == pre.push(pairv));
                    assert(pairv.0@ == kvsv[j - 1].0.subrange(
                        frag@.len() as int,
                        kvsv[j - 1].0.len() as int,
                    ));
                    assert(pairv.1@ == kvsv[j - 1].1);
                    assert(kv_view(pre).len() == pre.len());
                    assert(pre.len() == j - 1);
                    assert forall|t: int| 0 <= t < j implies kv_view(trimmed@)[t] == tk.subrange(
                        0,
                        j as int,
                    )[t] by {
                        if t < j - 1 {
                            assert(pre.push(pairv)[t] == pre[t]);
                            assert(trimmed@[t] == pre[t]);
                            assert(kv_view(pre)[t] == tk.subrange(0, j - 1)[t]);
                        } else {
                            assert(pre.push(pairv)[t] == pairv);
                            assert(trimmed@[t] == pairv);
                        }
                    }
                    assert(kv_view(trimmed@) =~= tk.subrange(0, j as int));
                }
            }
            proof {
                assert(trim_kvs(kvsv, frag@.len() as int).subrange(
                    0,
                    keyvals@.len() as int,
                ) =~= trim_kvs(kvsv, frag@.len() as int));
                assert(decreases_to!(*root => *child));
            }
            match make_multiproof(child, trimmed) {
                Err(e) => Err(e),
                Ok(sub) => {
                    let ghost subv = sub@;
                    let mut sub = sub;
                    sub.instructions.push(Instruction::EXTENSION(duplicate_bytes(frag)));
                    proof {
                        assert(sub@.hashes =~= subv.hashes);
                        assert(sub@.keyvals =~= subv.keyvals);
                        assert(sub@.instructions =~= subv.instructions + seq![
                            InstructionV::Extension(frag@),
                        ]);
                    }
                    Ok(sub)
                },
            }
        },
        Node::FullNode(ch) => {
            let ghost cv = views_of(ch@);
            let ghost bv = buckets_of(kvsv);
            proof {
                lemma_views_of_index(ch@);
                assert(node_view(*root) == NodeV::FullNode { children: cv });
                assert(cv.len() == 16);
                assert(forall|t: int|
                    0 <= t < kvsv.len() ==> #[trigger] kvsv[t].0.len() > 0 && kvsv[t].0[0] < 16);
            }
            let mut hashes: Vec<Vec<u8>> = Vec::new();
            let mut instructions: Vec<Instruction> = Vec::new();
            let mut kvout: Vec<Vec<u8>> = Vec::new();
            let mut first = true;
            let mut i: usize = 0;
            while i < 16
                invariant
                    i <= 16,
                    kvsv == kv_view(keyvals@),
                    kvsv.len() == keyvals@.len(),
                    kvsv.len() > 0,
                    forall|t: int|
                        0 <= t < kvsv.len() ==> #[trigger] kvsv[t].0.len() > 0 && kvsv[t].0[0]
                            < 16,
                    root is FullNode && root->FullNode_0 == *ch,
                    cv == views_of(ch@),
                    cv.len() == 16,
                    ch@.len() == 16,
                    bv == buckets_of(kvsv),
                    bv.len() == 16,
                    node_view(*root) == (NodeV::FullNode { children: cv }),
                    prove_spec(node_view(*root), kvsv) == prove_slots(cv, bv, 0, true),
                    prove_slots(cv, bv, 0, true) is Some,
                    slots_split(
                        prove_slots(cv, bv, 0, true),
                        (MultiproofV {
                            hashes: bytes_seq_view(hashes@),
                            instructions: instr_seq_view(instructions@),
                            keyvals: bytes_seq_view(kvout@),
                        }),
                        prove_slots(cv, bv, i as int, first),
                    ),
                decreases 16 - i,
            {
                let ghost acc0 = MultiproofV {
                    hashes: bytes_seq_view(hashes@),
                    instructions: instr_seq_view(instructions@),
                    keyvals: bytes_seq_view(kvout@),
                };
                let ghost op = if first {
                    InstructionV::Branch(i as nat)
                } else {
                    InstructionV::Add(i as nat)
                };
                // Gather the bucket of pairs whose keys select this slot.
                let mut bucket: Vec<(Vec<u8>, Vec<u8>)> = Vec::new();
                let mut j: usize = 0;
                proof {
                    assert(kv_view(bucket@) =~= bucket_of(kvsv.subrange(0, 0), i as nat));
                }
                while j < keyvals.len()
                    invariant
                        j <= keyvals@.len(),
                        i < 16,
                        kvsv == kv_view(keyvals@),
                        kvsv.len() == keyvals@.len(),
                        forall|t: int|
                            0 <= t < kvsv.len() ==> (#[trigger] kvsv[t].0).len() > 0,
                        kv_view(bucket@) == bucket_of(kvsv.subrange(0, j as int), i as nat),
                    decreases keyvals@.len() - j,
                {
                    proof {
                        assert(kvsv[j as int] == (keyvals@[j as int].0@, keyvals@[j as int].1@));
                        assert(kvsv[j as int].0.len() > 0);
                    }
                    let kref = &keyvals[j].0;
                    if kref[0] == i as u8 {
                        let t0 = copy_range(kref, 1, kref.len());
                        let t1 = duplicate_bytes(&keyvals[j].1);
                        bucket.push((t0, t1));
                    }
                    proof {
                        let pre = kvsv.subrange(0, j as int);
                        let cur = kvsv.subrange(0, j + 1);
                        assert(cur.drop_last() =~= pre);
                        assert(cur.last() == kvsv[j as int]);
                        assert(kv_view(bucket@) =~= bucket_of(cur, i as nat));
                    }
                    j = j + 1;
                }
                proof {
                    assert(kvsv.subrange(0, kvsv.len() as int) =~= kvsv);
                    assert(kv_view(bucket@) == bucket_of(kvsv, i as nat));
                    assert(bv[i as int] == bucket_of(kvsv, i as nat));
                }
                if bucket.len() == 0 {
                    proof {
                        node_view_variant(ch@[i as int]);
                    }
                    if matches!(&ch[i], Node::EmptySlot) {
                        // An empty slot with no requested keys contributes nothing.
                        proof {
                            assert(prove_slots(cv, bv, i as int, first) == prove_slots(
                                cv,
                                bv,
                                i + 1,
                                first,
                            ));
                        }
                    } else {
                        let h = ch[i].hash();
                        hashes.push(h);
                        instructions.push(Instruction::HASHER(0));
                        if first {
                            instructions.push(Instruction::BRANCH(i));
                        } else {
                            instructions.push(Instruction::ADD(i));
                        }
                        proof {
                            let emitted = MultiproofV {
                                hashes: seq![hash_of(cv[i as int])],
                                instructions: seq![InstructionV::Hasher(0), op],
                                keyvals: Seq::<Seq<u8>>::empty(),
                            };
                            assert(bytes_seq_view(hashes@) =~= acc0.hashes + emitted.hashes);
                            assert(instr_seq_view(instructions@) =~= acc0.instructions
                                + emitted.instructions);
                            assert(bytes_seq_view(kvout@) =~= acc0.keyvals + emitted.keyvals);
                            match prove_slots(cv, bv, i + 1, false) {
                                None => {},
                                Some(Err(e)) => {},
                                Some(Ok(rest)) => {
                                    lemma_mp_concat_assoc(acc0, emitted, rest);
                                },
                            }
                        }
                        first = false;
                    }
                } else {
                    proof {
                        assert(decreases_to!(*root => *ch));
                        assert(decreases_to!(*ch => ch@));
                        assert(decreases_to!(ch@ => ch@[i as int]));
                        assert(cv[i as int] == node_view(ch@[i as int]));
                    }
                    match make_multiproof(&ch[i], bucket) {
                        Err(e) => {
                            return Err(e);
                        },
                        Ok(sub) => {
                            let ghost subv = sub@;
                            let Multiproof { hashes: mut sh, instructions: mut si, keyvals: mut sk } =
                                sub;
                            hashes.append(&mut sh);
                            instructions.append(&mut si);
                            if first {
                                instructions.push(Instruction::BRANCH(i));
                            } else {
                                instructions.push(Instruction::ADD(i));
                            }
                            kvout.append(&mut sk);
                            proof {
                                let opm = MultiproofV {
                                    hashes: Seq::<Seq<u8>>::empty(),
                                    instructions: seq![op],
                                    keyvals: Seq::<Seq<u8>>::empty(),
                                };
                                let emitted = mp_concat(subv, opm);
                                assert(bytes_seq_view(hashes@) =~= acc0.hashes + emitted.hashes);
                                assert(instr_seq_view(instructions@) =~= acc0.instructions
                                    + emitted.instructions);
                                assert(bytes_seq_view(kvout@) =~= acc0.keyvals + emitted.keyvals);
                                match prove_slots(cv, bv, i + 1, false) {
                                    None => {},
                                    Some(Err(e)) => {},
                                    Some(Ok(rest)) => {
                                        lemma_mp_concat_assoc(acc0, emitted, rest);
                                    },
                                }
                            }
                            first = false;
                        },
                    }
                }
                i = i + 1;
            }
            let mp = Multiproof { hashes, instructions, keyvals: kvout };
            proof {
                assert(prove_slots(cv, bv, 16, first) == Some(
                    Ok::<MultiproofV, TrieError>(mp_empty()),
                ));
                lemma_mp_concat_unit(mp@);
                assert(prove_spec(root@, kvsv) == Some(Ok::<MultiproofV, TrieError>(mp@)));
            }
            Ok(mp)
        },
    }
}

/// The re-proof law: proving the same key set twice against the same tree
/// yields identical hash, instruction and key/value streams; the compiler is
/// a function of its inputs alone, and `make_multiproof` returns exactly this
/// function's value.
pub proof fn lemma_prove_deterministic(
    n: NodeV,
    kvs: Seq<(Seq<u8>, Seq<u8>)>,
    p1: MultiproofV,
    p2: MultiproofV,
)
    requires
        prove_spec(n, kvs) == Some(Ok::<MultiproofV, TrieError>(p1)),
        prove_spec(n, kvs) == Some(Ok::<MultiproofV, TrieError>(p2)),
    ensures
        p1 == p2,
{
}

/// A requested key's bucket is never empty.
pub proof fn lemma_bucket_has(kvs: Seq<(Seq<u8>, Seq<u8>)>, j: int)
    requires
        0 <= j < kvs.len(),
        kvs[j].0.len() > 0,
    ensures
        bucket_of(kvs, kvs[j].0[0] as nat).len() > 0,
    decreases kvs.len(),
{
    if j == kvs.len() - 1 {
        assert(kvs.last() == kvs[j]);
    } else {
        lemma_bucket_has(kvs.drop_last(), j);
        assert(kvs.drop_last()[j] == kvs[j]);
    }
}

/// Proving against slots that are all empty fails as soon as a bucket holds a
/// key.
proof fn lemma_slots_all_empty(
    children: Seq<NodeV>,
    buckets: Seq<Seq<(Seq<u8>, Seq<u8>)>>,
    i: int,
    first: bool,
)
    requires
        0 <= i < 16,
        children.len() == 16,
        buckets.len() == 16,
        forall|t: int| 0 <= t < 16 ==> #[trigger] children[t] is EmptySlot,
        exists|t: int| i <= t < 16 && #[trigger] buckets[t].len() > 0,
    ensures
        prove_slots(children, buckets, i, first) == Some(
            Err::<MultiproofV, TrieError>(TrieError::EmptyTreeError),
        ),
    decreases 16 - i,
{
    if buckets[i].len() == 0 {
        let t = choose|t: int| i <= t < 16 && #[trigger] buckets[t].len() > 0;
        assert(i + 1 <= t < 16 && buckets[t].len() > 0);
        lemma_slots_all_empty(children, buckets, i + 1, first);
    } else {
        assert(prove_spec(children[i], buckets[i]) == Some(
            Err::<MultiproofV, TrieError>(TrieError::EmptyTreeError),
        ));
    }
}

/// Proving any non-empty key set against an empty 16-slot branch node fails:
/// there is no leaf to prove.
pub proof fn lemma_prove_empty_branch(kvs: Seq<(Seq<u8>, Seq<u8>)>)
    requires
        kvs.len() > 0,
        forall|j: int| 0 <= j < kvs.len() ==> (#[trigger] kvs[j].0).len() > 0 && kvs[j].0[0] < 16,
    ensures
        prove_spec(NodeV::FullNode { children: crate::node::empty16() }, kvs) == Some(
            Err::<MultiproofV, TrieError>(TrieError::EmptyTreeError),
        ),
{
    let children = crate::node::empty16();
    let buckets = buckets_of(kvs);
    lemma_bucket_has(kvs, 0);
    let s = kvs[0].0[0] as int;
    assert(buckets[s].len() > 0);
    assert(0 <= s < 16 && buckets[s].len() > 0);
    lemma_slots_all_empty(children, buckets, 0, true);
}

/// The total size of the buckets from slot `i` on.
pub open spec fn bucket_len_sum(buckets: Seq<Seq<(Seq<u8>, Seq<u8>)>>, i: int) -> nat
    decreases 16 - i,
{
    if i < 0 || i >= 16 || buckets.len() != 16 {
        0
    } else {
        buckets[i].len() + bucket_len_sum(buckets, i + 1)
    }
}

/// Dropping the last requested pair shrinks exactly its own bucket by one.
proof fn lemma_bucket_sum_drop(kvs: Seq<(Seq<u8>, Seq<u8>)>, i: int)
    requires
        kvs.len() > 0,
        kvs.last().0.len() > 0,
        kvs.last().0[0] < 16,
        0 <= i <= 16,
    ensures
        bucket_len_sum(buckets_of(kvs), i) == bucket_len_sum(buckets_of(kvs.drop_last()), i) + (
        if i <= kvs.last().0[0] < 16 {
            1int
        } else {
            0int
        }),
    decreases 16 - i,
{
    if i < 16 {
        lemma_bucket_sum_drop(kvs, i + 1);
        assert(buckets_of(kvs)[i] == bucket_of(kvs, i as nat));
        assert(buckets_of(kvs.drop_last())[i] == bucket_of(kvs.drop_last(), i as nat));
    }
}

/// The sixteen buckets partition the requested pairs: their sizes add up to
/// the request's size.
proof fn lemma_buckets_partition(kvs: Seq<(Seq<u8>, Seq<u8>)>)
    requires
        forall|j: int| 0 <= j < kvs.len() ==> (#[trigger] kvs[j]).0.len() > 0 && kvs[j].0[0] < 16,
    ensures
        bucket_len_sum(buckets_of(kvs), 0) == kvs.len(),
    decreases kvs.len(),
{
    if kvs.len() == 0 {
        lemma_bucket_sum_empty(kvs, 0);
    } else {
        lemma_buckets_partition(kvs.drop_last());
        assert(kvs[kvs.len() - 1] == kvs.last());
        lemma_bucket_sum_drop(kvs, 0);
    }
}

/// An empty request fills no bucket.
proof fn lemma_bucket_sum_empty(kvs: Seq<(Seq<u8>, Seq<u8>)>, i: int)
    requires
        kvs.len() == 0,
        0 <= i <= 16,
    ensures
        bucket_len_sum(buckets_of(kvs), i) == 0,
    decreases 16 - i,
{
    if i < 16 {
        lemma_bucket_sum_empty(kvs, i + 1);
        assert(buckets_of(kvs)[i] == bucket_of(kvs, i as nat));
    }
}

/// The slots of a branch emit one key/value record per bucketed request.
proof fn lemma_slots_keyvals_count(
    children: Seq<NodeV>,
    buckets: Seq<Seq<(Seq<u8>, Seq<u8>)>>,
    i: int,
    first: bool,
    p: MultiproofV,
)
    requires
        0 <= i <= 16,
        children.len() == 16,
        buckets.len() == 16,
        prove_slots(children, buckets, i, first) == Some(Ok::<MultiproofV, TrieError>(p)),
    ensures
        p.keyvals.len() == bucket_len_sum(buckets, i),
    decreases children, 16 - i,
{
    broadcast use vstd::seq::axiom_seq_index_decreases;

    if i == 16 {
    } else if buckets[i].len() == 0 && children[i] is EmptySlot {
        lemma_slots_keyvals_count(children, buckets, i + 1, first, p);
    } else if buckets[i].len() == 0 {
        let rest_p = (match prove_slots(children, buckets, i + 1, false) {
            Some(Ok(r)) => r,
            _ => mp_empty(),
        });
        lemma_slots_keyvals_count(children, buckets, i + 1, false, rest_p);
        assert(p.keyvals =~= rest_p.keyvals);
    } else {
        let sub = (match prove_spec(children[i], buckets[i]) {
            Some(Ok(r)) => r,
            _ => mp_empty(),
        });
        let rest_p = (match prove_slots(children, buckets, i + 1, false) {
            Some(Ok(r)) => r,
            _ => mp_empty(),
        });
        assert(decreases_to!(children => children[i]));
        lemma_prove_keyvals_count(children[i], buckets[i], sub);
        lemma_slots_keyvals_count(children, buckets, i + 1, false, rest_p);
        assert(p.keyvals =~= sub.keyvals + rest_p.keyvals);
    }
}

/// The minimality law for records: a compiled proof carries exactly one
/// key/value record per requested key, and none for any subtree off the
/// requested paths.
pub proof fn lemma_prove_keyvals_count(n: NodeV, kvs: Seq<(Seq<u8>, Seq<u8>)>, p: MultiproofV)
    requires
        prove_spec(n, kvs) == Some(Ok::<MultiproofV, TrieError>(p)),
    ensures
        p.keyvals.len() == kvs.len(),
    decreases n, 17int,
{
    if kvs.len() == 0 {
    } else {
        match n {
            NodeV::FullNode { children } => {
                let buckets = buckets_of(kvs);
                lemma_slots_keyvals_count(children, buckets, 0, true, p);
                assert(forall|j: int|
                    0 <= j < kvs.len() ==> (#[trigger] kvs[j]).0.len() > 0 && kvs[j].0[0] < 16);
                lemma_buckets_partition(kvs);
            },
            NodeV::Extension { fragment, child } => {
                let trimmed = trim_kvs(kvs, fragment.len() as int);
                let sub = (match prove_spec(*child, trimmed) {
                    Some(Ok(r)) => r,
                    _ => mp_empty(),
                });
                lemma_prove_keyvals_count(*child, trimmed, sub);
            },
            _ => {},
        }
    }
}

} // verus!
