use vstd::prelude::*;
use crate::codec::{decode_leaf, decode_leaf_record};
use crate::errors::TrieError;
use crate::nibbles::{duplicate_bytes, NibbleKey};
use crate::node::{bytes_seq_view, empty16, empty_children, instr_seq_view, lemma_views_of_push,
    lemma_views_of_subrange, lemma_views_of_update, node_view, views_of, Instruction, InstructionV,
    Multiproof, MultiproofV, Node, NodeV};

verus! {

/// The last `n` elements of a key; the whole key when it has fewer.
pub open spec fn suffix_of(k: Seq<u8>, n: nat) -> Seq<u8> {
    if n > k.len() {
        k
    } else {
        k.subrange(k.len() - n, k.len() as int)
    }
}

/// The state of the proof interpreter: its node stack and what remains of
/// the hash and key/value streams.
#[verifier::ext_equal]
pub struct MachineV {
    pub stack: Seq<NodeV>,
    pub hashes: Seq<Seq<u8>>,
    pub keyvals: Seq<Seq<u8>>,
}

/// What one opcode makes of the interpreter state.
pub open spec fn step_spec(st: MachineV, instr: InstructionV) -> Result<MachineV, TrieError> {
    match instr {
        InstructionV::Hasher(aux) => {
            if st.hashes.len() == 0 {
                Err(TrieError::ProofTruncatedError)
            } else {
                Ok(
                    MachineV {
                        stack: st.stack.push(NodeV::Hash { digest: st.hashes[0], aux }),
                        hashes: st.hashes.subrange(1, st.hashes.len() as int),
                        keyvals: st.keyvals,
                    },
                )
            }
        },
        InstructionV::Leaf(suffix_len) => {
            if st.keyvals.len() == 0 {
                Err(TrieError::ProofTruncatedError)
            } else {
                match decode_leaf(st.keyvals[0]) {
                    None => Err(TrieError::MalformedProofError),
                    Some((k, v)) => Ok(
                        MachineV {
                            stack: st.stack.push(
                                NodeV::Leaf { key: suffix_of(k, suffix_len), value: v },
                            ),
                            hashes: st.hashes,
                            keyvals: st.keyvals.subrange(1, st.keyvals.len() as int),
                        },
                    ),
                }
            }
        },
        InstructionV::Branch(slot) => {
            if st.stack.len() == 0 {
                Err(TrieError::StackUnderflowError)
            } else if slot >= 16 {
                Err(TrieError::SlotOutOfRangeError)
            } else {
                Ok(
                    MachineV {
                        stack: st.stack.drop_last().push(
                            NodeV::FullNode {
                                children: empty16().update(slot as int, st.stack.last()),
                            },
                        ),
                        hashes: st.hashes,
                        keyvals: st.keyvals,
                    },
                )
            }
        },
        InstructionV::Extension(fragment) => {
            if st.stack.len() == 0 {
                Err(TrieError::StackUnderflowError)
            } else {
                Ok(
                    MachineV {
                        stack: st.stack.drop_last().push(
                            NodeV::Extension { fragment, child: Box::new(st.stack.last()) },
                        ),
                        hashes: st.hashes,
                        keyvals: st.keyvals,
                    },
                )
            }
        },
        InstructionV::Add(slot) => {
            if st.stack.len() < 2 {
                Err(TrieError::StackUnderflowError)
            } else if slot >= 16 {
                Err(TrieError::SlotOutOfRangeError)
            } else {
                match st.stack[st.stack.len() - 2] {
                    NodeV::FullNode { children } => {
                        if children.len() != 16 {
                            Err(TrieError::TypeMismatchError)
                        } else {
                            Ok(
                                MachineV {
                                    stack: st.stack.drop_last().drop_last().push(
                                        NodeV::FullNode {
                                            children: children.update(
                                                slot as int,
                                                st.stack.last(),
                                            ),
                                        },
                                    ),
                                    hashes: st.hashes,
                                    keyvals: st.keyvals,
                                },
                            )
                        }
                    },
                    _ => Err(TrieError::TypeMismatchError),
                }
            }
        },
    }
}

/// The interpreter state after replaying the opcodes in order, or the error
/// of the first opcode that fails.
pub open spec fn run_spec(instrs: Seq<InstructionV>, st: MachineV) -> Result<MachineV, TrieError>
    decreases instrs.len(),
{
    if instrs.len() == 0 {
        Ok(st)
    } else {
        match step_spec(st, instrs[0]) {
            Err(e) => Err(e),
            Ok(st2) => run_spec(instrs.subrange(1, instrs.len() as int), st2),
        }
    }
}

/// What replaying a multiproof rebuilds: the one node left on the stack when
/// every opcode has run, or the error of the first failing opcode; any final
/// stack depth other than one is a malformed proof.
pub open spec fn rebuild_spec(p: MultiproofV) -> Result<NodeV, TrieError> {
    match run_spec(
        p.instructions,
        MachineV { stack: Seq::empty(), hashes: p.hashes, keyvals: p.keyvals },
    ) {
        Err(e) => Err(e),
        Ok(st) => if st.stack.len() == 1 {
            Ok(st.stack[0])
        } else {
            Err(TrieError::MalformedProofError)
        },
    }
}

/// Rebuild the (partial) tree that a multiproof describes, replaying its
/// opcodes over an initially empty stack and consuming the hash and
/// key/value streams left to right.
pub fn rebuild(proof: &Multiproof) -> (r: Result<Node, TrieError>)
    ensures
        match r {
            Ok(n) => rebuild_spec(proof@) == Ok::<NodeV, TrieError>(n@),
            Err(e) => rebuild_spec(proof@) == Err::<NodeV, TrieError>(e),
        },
{
    let ghost iv = instr_seq_view(proof.instructions@);
    let ghost hv = bytes_seq_view(proof.hashes@);
    let ghost kv = bytes_seq_view(proof.keyvals@);
    let ghost st0 = MachineV { stack: Seq::empty(), hashes: hv, keyvals: kv };
    let mut stack: Vec<Node> = Vec::new();
    let mut hi: usize = 0;
    let mut ki: usize = 0;
    let mut ii: usize = 0;
    let ghost total = run_spec(iv, st0);
    proof {
        assert(views_of(stack@) =~= Seq::<NodeV>::empty());
        assert(hv.subrange(0, hv.len() as int) =~= hv);
        assert(kv.subrange(0, kv.len() as int) =~= kv);
        assert(iv.subrange(0, iv.len() as int) =~= iv);
    }
    while ii < proof.instructions.len()
        invariant
            ii <= proof.instructions@.len(),
            hi <= proof.hashes@.len(),
            ki <= proof.keyvals@.len(),
            iv == instr_seq_view(proof.instructions@),
            hv == bytes_seq_view(proof.hashes@),
            kv == bytes_seq_view(proof.keyvals@),
            iv.len() == proof.instructions@.len(),
            hv.len() == proof.hashes@.len(),
            kv.len() == proof.keyvals@.len(),
            st0 == (MachineV { stack: Seq::<NodeV>::empty(), hashes: hv, keyvals: kv }),
            total == run_spec(iv, st0),
            total == run_spec(
                iv.subrange(ii as int, iv.len() as int),
                MachineV {
                    stack: views_of(stack@),
                    hashes: hv.subrange(hi as int, hv.len() as int),
                    keyvals: kv.subrange(ki as int, kv.len() as int),
                },
            ),
        decreases proof.instructions@.len() - ii,
    {
        let ghost st_cur = MachineV {
            stack: views_of(stack@),
            hashes: hv.subrange(hi as int, hv.len() as int),
            keyvals: kv.subrange(ki as int, kv.len() as int),
        };
        let ghost rest = iv.subrange(ii as int, iv.len() as int);
        proof {
            assert(rest[0] == iv[ii as int]);
            assert(rest.subrange(1, rest.len() as int) =~= iv.subrange(
                ii + 1,
                iv.len() as int,
            ));
        }
        match &proof.instructions[ii] {
            Instruction::HASHER(aux) => {
                if hi >= proof.hashes.len() {
                    proof {
                        assert(st_cur.hashes.len() == 0);
                    }
                    return Err(TrieError::ProofTruncatedError);
                }
                let node = Node::Hash(duplicate_bytes(&proof.hashes[hi]), *aux);
                proof {
                    assert(st_cur.hashes[0] == hv[hi as int]);
                    lemma_views_of_push(stack@, node);
                    assert(st_cur.hashes.subrange(1, st_cur.hashes.len() as int) =~= hv.subrange(
                        hi + 1,
                        hv.len() as int,
                    ));
                }
                stack.push(node);
                hi = hi + 1;
            },
            Instruction::LEAF(suffix_len) => {
                if ki >= proof.keyvals.len() {
                    proof {
                        assert(st_cur.keyvals.len() == 0);
                    }
                    return Err(TrieError::ProofTruncatedError);
                }
                proof {
                    assert(st_cur.keyvals[0] == kv[ki as int]);
                    assert(kv[ki as int] == proof.keyvals@[ki as int]@);
                }
                match decode_leaf_record(&proof.keyvals[ki]) {
                    Err(e) => {
                        return Err(e);
                    },
                    Ok((k, v)) => {
                        let node = Node::Leaf(NibbleKey::new(k).take_suffix(*suffix_len), v);
                        proof {
                            lemma_views_of_push(stack@, node);
                            assert(st_cur.keyvals.subrange(
                                1,
                                st_cur.keyvals.len() as int,
                            ) =~= kv.subrange(ki + 1, kv.len() as int));
                        }
                        stack.push(node);
                        ki = ki + 1;
                    },
                }
            },
            Instruction::BRANCH(slot) => {
                if stack.len() == 0 {
                    proof {
                        assert(st_cur.stack.len() == 0);
                    }
                    return Err(TrieError::StackUnderflowError);
                }
                if *slot >= 16 {
                    return Err(TrieError::SlotOutOfRangeError);
                }
                let ghost pre = stack@;
                let top = match stack.pop() {
                    Some(t) => t,
                    None => {
                        return Err(TrieError::StackUnderflowError);
                    },
                };
                let mut ch = empty_children();
                let ghost c0 = ch@;
                let ghost tv = node_view(top);
                ch[*slot] = top;
                proof {
                    lemma_views_of_update(c0, *slot as int, ch@[*slot as int]);
                }
                let ghost cview = views_of(ch@);
                let node = Node::FullNode(ch);
                proof {
                    assert(node_view(node) == NodeV::FullNode { children: cview });
                    assert(stack@ =~= pre.drop_last());
                    lemma_views_of_subrange(pre, 0, pre.len() - 1);
                    assert(views_of(pre.drop_last()) =~= views_of(pre).drop_last());
                    assert(tv == views_of(pre).last());
                    lemma_views_of_push(stack@, node);
                }
                stack.push(node);
            },
            Instruction::EXTENSION(frag) => {
                if stack.len() == 0 {
                    proof {
                        assert(st_cur.stack.len() == 0);
                    }
                    return Err(TrieError::StackUnderflowError);
                }
                let ghost pre = stack@;
                let top = match stack.pop() {
                    Some(t) => t,
                    None => {
                        return Err(TrieError::StackUnderflowError);
                    },
                };
                let ghost tv = node_view(top);
                let node = Node::Extension(duplicate_bytes(frag), Box::new(top));
                proof {
                    assert(stack@ =~= pre.drop_last());
                    lemma_views_of_subrange(pre, 0, pre.len() - 1);
                    assert(views_of(pre.drop_last()) =~= views_of(pre).drop_last());
                    assert(tv == views_of(pre).last());
                    lemma_views_of_push(stack@, node);
                }
                stack.push(node);
            },
            Instruction::ADD(slot) => {
                if stack.len() < 2 {
                    proof {
                        assert(st_cur.stack.len() < 2);
                    }
                    return Err(TrieError::StackUnderflowError);
                }
                if *slot >= 16 {
                    return Err(TrieError::SlotOutOfRangeError);
                }
                let ghost pre = stack@;
                let top = match stack.pop() {
                    Some(t) => t,
                    None => {
                        return Err(TrieError::StackUnderflowError);
                    },
                };
                let ghost tv = node_view(top);
                let below = match stack.pop() {
                    Some(t) => t,
                    None => {
                        return Err(TrieError::StackUnderflowError);
                    },
                };
                proof {
                    assert(stack@ =~= pre.drop_last().drop_last());
                    lemma_views_of_subrange(pre, 0, pre.len() - 1);
                    assert(views_of(pre.drop_last()) =~= views_of(pre).drop_last());
                    lemma_views_of_subrange(pre.drop_last(), 0, pre.drop_last().len() - 1);
                    assert(views_of(pre.drop_last().drop_last()) =~= views_of(
                        pre.drop_last(),
                    ).drop_last());
                    assert(tv == views_of(pre).last());
                    assert(node_view(below) == views_of(pre)[views_of(pre).len() - 2]);
                    crate::node::node_view_variant(below);
                }
                match below {
                    Node::FullNode(mut ch) => {
                        proof {
                            crate::node::lemma_views_of_index(ch@);
                            assert(node_view(Node::FullNode(ch)) == NodeV::FullNode {
                                children: views_of(ch@),
                            });
                        }
                        if ch.len() != 16 {
                            return Err(TrieError::TypeMismatchError);
                        }
                        let ghost c0 = ch@;
                        ch[*slot] = top;
                        proof {
                            lemma_views_of_update(c0, *slot as int, ch@[*slot as int]);
                        }
                        let ghost cview = views_of(ch@);
                        let node = Node::FullNode(ch);
                        proof {
                            assert(node_view(node) == NodeV::FullNode { children: cview });
                            lemma_views_of_push(stack@, node);
                        }
                        stack.push(node);
                    },
                    _ => {
                        return Err(TrieError::TypeMismatchError);
                    },
                }
            },
        }
        ii = ii + 1;
    }
    proof {
        assert(iv.subrange(ii as int, iv.len() as int).len() == 0);
    }
    if stack.len() != 1 {
        proof {
            assert(views_of(stack@).len() != 1);
        }
        return Err(TrieError::MalformedProofError);
    }
    match stack.pop() {
        Some(n) => {
            proof {
                assert(views_of(stack@.push(n))[0] == node_view(n));
            }
            Ok(n)
        },
        None => Err(TrieError::MalformedProofError),
    }
}

} // verus!
