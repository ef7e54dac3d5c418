use vstd::prelude::*;
use crate::codec::{compact_len, leaf_record, lemma_decode_leaf_record, pow256};
use crate::errors::TrieError;
use crate::hashing::{children_hashes, hash_of};
use crate::node::{empty16, InstructionV, MultiproofV, NodeV, wf_node};
use crate::prove::{bucket_of, buckets_of, lemma_bucket_has, mp_concat, mp_empty, prove_slots,
    prove_spec};
use crate::rebuild::{rebuild_spec, run_spec, step_spec, suffix_of, MachineV};

verus! {

broadcast use vstd::seq::axiom_seq_index_decreases;

/// Whether the tree stores exactly `value` under `key`: the key's nibbles
/// select a path of branch slots and extension fragments that ends at a leaf
/// holding the key's remaining suffix and this value.
pub open spec fn contains_kv(n: NodeV, key: Seq<u8>, value: Seq<u8>) -> bool
    decreases n,
{
    match n {
        NodeV::Leaf { key: lk, value: lv } => lk == key && lv == value,
        NodeV::Extension { fragment, child } => fragment.len() <= key.len() && key.subrange(
            0,
            fragment.len() as int,
        ) == fragment && contains_kv(
            *child,
            key.subrange(fragment.len() as int, key.len() as int),
            value,
        ),
        NodeV::FullNode { children } => children.len() == 16 && key.len() > 0 && key[0] < 16
            && contains_kv(children[key[0] as int], key.subrange(1, key.len() as int), value),
        _ => false,
    }
}

/// Every leaf of the tree fits the length fields of the canonical encoding:
/// a machine-width bound, not a structural one.
pub open spec fn bounded_node(n: NodeV) -> bool
    decreases n,
{
    match n {
        NodeV::Leaf { key, value } => key.len() + 1 < pow256(8) && value.len() < pow256(8),
        NodeV::Extension { fragment, child } => bounded_node(*child),
        NodeV::FullNode { children } => forall|i: int|
            0 <= i < children.len() ==> bounded_node(#[trigger] children[i]),
        _ => true,
    }
}

/// Replaying a proof's opcodes on top of a stack pushes one node committing
/// to the same hash as `n`, consuming exactly the proof's own streams.
pub open spec fn builds(
    p: MultiproofV,
    stk: Seq<NodeV>,
    hrest: Seq<Seq<u8>>,
    krest: Seq<Seq<u8>>,
    nn: NodeV,
    n: NodeV,
) -> bool {
    run_spec(
        p.instructions,
        MachineV { stack: stk, hashes: p.hashes + hrest, keyvals: p.keyvals + krest },
    ) == Ok::<MachineV, TrieError>(
        MachineV { stack: stk.push(nn), hashes: hrest, keyvals: krest },
    ) && hash_of(nn) == hash_of(n)
}

/// Replaying a branch's remaining slot opcodes turns the open frame's
/// children from `base` into `cur`.
pub open spec fn folds(
    p: MultiproofV,
    below: Seq<NodeV>,
    base: Seq<NodeV>,
    hrest: Seq<Seq<u8>>,
    krest: Seq<Seq<u8>>,
    cur: Seq<NodeV>,
) -> bool {
    run_spec(
        p.instructions,
        MachineV {
            stack: below.push(NodeV::FullNode { children: base }),
            hashes: p.hashes + hrest,
            keyvals: p.keyvals + krest,
        },
    ) == Ok::<MachineV, TrieError>(
        MachineV {
            stack: below.push(NodeV::FullNode { children: cur }),
            hashes: hrest,
            keyvals: krest,
        },
    )
}

/// Replaying a branch's slot opcodes from before the first contribution
/// pushes a fresh frame with children `cur`.
pub open spec fn opens(
    p: MultiproofV,
    stk: Seq<NodeV>,
    hrest: Seq<Seq<u8>>,
    krest: Seq<Seq<u8>>,
    cur: Seq<NodeV>,
) -> bool {
    run_spec(
        p.instructions,
        MachineV { stack: stk, hashes: p.hashes + hrest, keyvals: p.keyvals + krest },
    ) == Ok::<MachineV, TrieError>(
        MachineV {
            stack: stk.push(NodeV::FullNode { children: cur }),
            hashes: hrest,
            keyvals: krest,
        },
    )
}

/// Running one stream and then another is running their concatenation.
proof fn lemma_run_append(i1: Seq<InstructionV>, i2: Seq<InstructionV>, st: MachineV)
    ensures
        run_spec(i1 + i2, st) == (match run_spec(i1, st) {
            Err(e) => Err::<MachineV, TrieError>(e),
            Ok(st2) => run_spec(i2, st2),
        }),
    decreases i1.len(),
{
    if i1.len() == 0 {
        assert(i1 + i2 =~= i2);
    } else {
        assert((i1 + i2)[0] == i1[0]);
        match step_spec(st, i1[0]) {
            Err(e) => {
                assert((i1 + i2).len() > 0);
            },
            Ok(st2) => {
                lemma_run_append(i1.subrange(1, i1.len() as int), i2, st2);
                assert((i1 + i2).subrange(1, (i1 + i2).len() as int) =~= i1.subrange(
                    1,
                    i1.len() as int,
                ) + i2);
            },
        }
    }
}

/// Every entry of a nibble's bucket is a requested pair whose key starts with
/// that nibble, carried over with the nibble removed.
proof fn lemma_bucket_elems(kvs: Seq<(Seq<u8>, Seq<u8>)>, s: nat, j: int)
    requires
        0 <= j < bucket_of(kvs, s).len(),
    ensures
        exists|t: int|
            0 <= t < kvs.len() && (#[trigger] kvs[t]).0.len() > 0 && kvs[t].0[0] == s && bucket_of(
                kvs,
                s,
            )[j] == (kvs[t].0.subrange(1, kvs[t].0.len() as int), kvs[t].1),
    decreases kvs.len(),
{
    let b = bucket_of(kvs, s);
    let pre = bucket_of(kvs.drop_last(), s);
    if j < pre.len() {
        lemma_bucket_elems(kvs.drop_last(), s, j);
        let t = choose|t: int|
            0 <= t < kvs.drop_last().len() && (#[trigger] kvs.drop_last()[t]).0.len() > 0
                && kvs.drop_last()[t].0[0] == s && pre[j] == (
            kvs.drop_last()[t].0.subrange(1, kvs.drop_last()[t].0.len() as int),
            kvs.drop_last()[t].1,
            );
        assert(kvs[t] == kvs.drop_last()[t]);
        assert(b[j] == pre[j]);
    } else {
        let last = kvs.last();
        assert(last.0.len() > 0 && last.0[0] == s);
        let t = kvs.len() - 1;
        assert(kvs[t] == last);
        assert(b[j] == (last.0.subrange(1, last.0.len() as int), last.1));
    }
}

/// Replay of the slot opcodes after the frame is open: each remaining slot
/// folds a hash-equivalent child into the frame.
#[verifier::rlimit(100)]
proof fn lemma_slots_fold(
    children: Seq<NodeV>,
    buckets: Seq<Seq<(Seq<u8>, Seq<u8>)>>,
    i: int,
    p: MultiproofV,
    below: Seq<NodeV>,
    base: Seq<NodeV>,
    hrest: Seq<Seq<u8>>,
    krest: Seq<Seq<u8>>,
)
    requires
        0 <= i <= 16,
        children.len() == 16,
        buckets.len() == 16,
        forall|s: int|
            0 <= s < 16 ==> wf_node(#[trigger] children[s]) && bounded_node(children[s]),
        forall|s: int, j: int|
            i <= s < 16 && 0 <= j < buckets[s].len() ==> contains_kv(
                children[s],
                (#[trigger] buckets[s][j]).0,
                buckets[s][j].1,
            ),
        prove_slots(children, buckets, i, false) == Some(Ok::<MultiproofV, TrieError>(p)),
        base.len() == 16,
        forall|s: int| 0 <= s < i ==> hash_of(#[trigger] base[s]) == hash_of(children[s]),
        forall|s: int| i <= s < 16 ==> #[trigger] base[s] is EmptySlot,
    ensures
        exists|cur: Seq<NodeV>|
            #[trigger] folds(p, below, base, hrest, krest, cur) && cur.len() == 16 && (forall|
                s: int,
            |
                0 <= s < 16 ==> hash_of(#[trigger] cur[s]) == hash_of(children[s])),
    decreases children, 16 - i,
{
    reveal_with_fuel(run_spec, 3);
    if i == 16 {
        assert(p == mp_empty());
        assert(p.hashes + hrest =~= hrest);
        assert(p.keyvals + krest =~= krest);
        assert(folds(p, below, base, hrest, krest, base));
    } else if buckets[i].len() == 0 && children[i] is EmptySlot {
        assert(hash_of(base[i]) == hash_of(children[i]));
        lemma_slots_fold(children, buckets, i + 1, p, below, base, hrest, krest);
    } else if buckets[i].len() == 0 {
        let h = hash_of(children[i]);
        let rest_p = (match prove_slots(children, buckets, i + 1, false) {
            Some(Ok(r)) => r,
            _ => mp_empty(),
        });
        assert(prove_slots(children, buckets, i + 1, false) == Some(
            Ok::<MultiproofV, TrieError>(rest_p),
        ));
        let em = MultiproofV {
            hashes: seq![h],
            instructions: seq![InstructionV::Hasher(0), InstructionV::Add(i as nat)],
            keyvals: Seq::empty(),
        };
        assert(p == mp_concat(em, rest_p));
        let st0 = MachineV {
            stack: below.push(NodeV::FullNode { children: base }),
            hashes: p.hashes + hrest,
            keyvals: p.keyvals + krest,
        };
        // The HASHER step.
        assert(st0.hashes[0] == h);
        let hash_node = NodeV::Hash { digest: h, aux: 0 };
        let st1 = (match step_spec(st0, InstructionV::Hasher(0)) {
            Ok(s) => s,
            _ => st0,
        });
        assert(st1.stack == st0.stack.push(hash_node));
        assert(st1.hashes =~= rest_p.hashes + hrest);
        // The ADD step.
        assert(st1.stack.len() >= 2);
        assert(st1.stack[st1.stack.len() - 2] == NodeV::FullNode { children: base });
        let base2 = base.update(i, hash_node);
        let st2 = (match step_spec(st1, InstructionV::Add(i as nat)) {
            Ok(s) => s,
            _ => st1,
        });
        assert(st2.stack =~= below.push(NodeV::FullNode { children: base2 }));
        assert(st2.hashes =~= rest_p.hashes + hrest);
        assert(st2.keyvals =~= rest_p.keyvals + krest);
        // The two steps are the run of the emitted opcodes.
        assert(p.instructions == em.instructions + rest_p.instructions);
        lemma_run_append(em.instructions, rest_p.instructions, st0);
        assert(em.instructions[0] == InstructionV::Hasher(0));
        assert(em.instructions.subrange(1, 2) =~= seq![InstructionV::Add(i as nat)]);
        assert(seq![InstructionV::Add(i as nat)].subrange(1, 1)
            =~= Seq::<InstructionV>::empty());
        assert(run_spec(em.instructions, st0) == Ok::<MachineV, TrieError>(MachineV {
            stack: st2.stack,
            hashes: st2.hashes,
            keyvals: st2.keyvals,
        }));
        lemma_slots_fold(children, buckets, i + 1, rest_p, below, base2, hrest, krest);
        let cur = choose|cur: Seq<NodeV>|
            #[trigger] folds(rest_p, below, base2, hrest, krest, cur) && cur.len() == 16 && (forall|
                s: int,
            |
                0 <= s < 16 ==> hash_of(#[trigger] cur[s]) == hash_of(children[s]));
        assert(st2 =~= (MachineV {
            stack: below.push(NodeV::FullNode { children: base2 }),
            hashes: rest_p.hashes + hrest,
            keyvals: rest_p.keyvals + krest,
        }));
        assert(folds(p, below, base, hrest, krest, cur));
    } else {
        let sub = (match prove_spec(children[i], buckets[i]) {
            Some(Ok(r)) => r,
            _ => mp_empty(),
        });
        assert(prove_spec(children[i], buckets[i]) == Some(
            Ok::<MultiproofV, TrieError>(sub),
        ));
        let rest_p = (match prove_slots(children, buckets, i + 1, false) {
            Some(Ok(r)) => r,
            _ => mp_empty(),
        });
        assert(prove_slots(children, buckets, i + 1, false) == Some(
            Ok::<MultiproofV, TrieError>(rest_p),
        ));
        let opm = MultiproofV {
            hashes: Seq::empty(),
            instructions: seq![InstructionV::Add(i as nat)],
            keyvals: Seq::empty(),
        };
        assert(p == mp_concat(mp_concat(sub, opm), rest_p));
        let st0 = MachineV {
            stack: below.push(NodeV::FullNode { children: base }),
            hashes: p.hashes + hrest,
            keyvals: p.keyvals + krest,
        };
        let hrest1 = rest_p.hashes + hrest;
        let krest1 = rest_p.keyvals + krest;
        assert(st0.hashes =~= sub.hashes + hrest1);
        assert(st0.keyvals =~= sub.keyvals + krest1);
        assert(decreases_to!(children => children[i]));
        lemma_prove_run(children[i], buckets[i], sub, st0.stack, hrest1, krest1);
        let nn = choose|nn: NodeV| #[trigger] builds(sub, st0.stack, hrest1, krest1, nn, children[i]);
        let st1 = MachineV { stack: st0.stack.push(nn), hashes: hrest1, keyvals: krest1 };
        assert(run_spec(sub.instructions, st0) == Ok::<MachineV, TrieError>(st1));
        // The ADD step folds the proven child into the frame.
        assert(st1.stack.len() >= 2);
        assert(st1.stack[st1.stack.len() - 2] == NodeV::FullNode { children: base });
        let base2 = base.update(i, nn);
        let st2 = (match step_spec(st1, InstructionV::Add(i as nat)) {
            Ok(s) => s,
            _ => st1,
        });
        assert(st2.stack =~= below.push(NodeV::FullNode { children: base2 }));
        assert(p.instructions =~= sub.instructions + (opm.instructions + rest_p.instructions));
        lemma_run_append(sub.instructions, opm.instructions + rest_p.instructions, st0);
        lemma_run_append(opm.instructions, rest_p.instructions, st1);
        assert(opm.instructions[0] == InstructionV::Add(i as nat));
        assert(opm.instructions.subrange(1, 1) =~= Seq::<InstructionV>::empty());
        assert(step_spec(st1, InstructionV::Add(i as nat)) == Ok::<MachineV, TrieError>(st2));
        assert(run_spec(opm.instructions, st1) == Ok::<MachineV, TrieError>(st2));
        lemma_slots_fold(children, buckets, i + 1, rest_p, below, base2, hrest, krest);
        let cur = choose|cur: Seq<NodeV>|
            #[trigger] folds(rest_p, below, base2, hrest, krest, cur) && cur.len() == 16 && (forall|
                s: int,
            |
                0 <= s < 16 ==> hash_of(#[trigger] cur[s]) == hash_of(children[s]));
        assert(st2 =~= (MachineV {
            stack: below.push(NodeV::FullNode { children: base2 }),
            hashes: rest_p.hashes + hrest,
            keyvals: rest_p.keyvals + krest,
        }));
        assert(folds(p, below, base, hrest, krest, cur));
    }
}

/// Replay of a branch's slot opcodes from the start: either nothing
/// contributes at all, or a frame is opened and filled with hash-equivalent
/// children.
#[verifier::rlimit(100)]
proof fn lemma_slots_open(
    children: Seq<NodeV>,
    buckets: Seq<Seq<(Seq<u8>, Seq<u8>)>>,
    i: int,
    p: MultiproofV,
    stk: Seq<NodeV>,
    hrest: Seq<Seq<u8>>,
    krest: Seq<Seq<u8>>,
)
    requires
        0 <= i <= 16,
        children.len() == 16,
        buckets.len() == 16,
        forall|s: int|
            0 <= s < 16 ==> wf_node(#[trigger] children[s]) && bounded_node(children[s]),
        forall|s: int, j: int|
            i <= s < 16 && 0 <= j < buckets[s].len() ==> contains_kv(
                children[s],
                (#[trigger] buckets[s][j]).0,
                buckets[s][j].1,
            ),
        prove_slots(children, buckets, i, true) == Some(Ok::<MultiproofV, TrieError>(p)),
        forall|s: int|
            0 <= s < i ==> #[trigger] children[s] is EmptySlot && buckets[s].len() == 0,
    ensures
        (p == mp_empty() && (forall|s: int|
            i <= s < 16 ==> #[trigger] children[s] is EmptySlot && buckets[s].len() == 0)) || (
        exists|cur: Seq<NodeV>|
            #[trigger] opens(p, stk, hrest, krest, cur) && cur.len() == 16 && (forall|s: int|
                0 <= s < 16 ==> hash_of(#[trigger] cur[s]) == hash_of(children[s]))),
    decreases children, 16 - i,
{
    reveal_with_fuel(run_spec, 3);
    if i == 16 {
        assert(p == mp_empty());
    } else if buckets[i].len() == 0 && children[i] is EmptySlot {
        lemma_slots_open(children, buckets, i + 1, p, stk, hrest, krest);
    } else if buckets[i].len() == 0 {
        let h = hash_of(children[i]);
        let rest_p = (match prove_slots(children, buckets, i + 1, false) {
            Some(Ok(r)) => r,
            _ => mp_empty(),
        });
        assert(prove_slots(children, buckets, i + 1, false) == Some(
            Ok::<MultiproofV, TrieError>(rest_p),
        ));
        let em = MultiproofV {
            hashes: seq![h],
            instructions: seq![InstructionV::Hasher(0), InstructionV::Branch(i as nat)],
            keyvals: Seq::empty(),
        };
        assert(p == mp_concat(em, rest_p));
        let st0 = MachineV { stack: stk, hashes: p.hashes + hrest, keyvals: p.keyvals + krest };
        assert(st0.hashes[0] == h);
        let hash_node = NodeV::Hash { digest: h, aux: 0 };
        let st1 = (match step_spec(st0, InstructionV::Hasher(0)) {
            Ok(s) => s,
            _ => st0,
        });
        assert(st1.stack == stk.push(hash_node));
        assert(st1.hashes =~= rest_p.hashes + hrest);
        // The BRANCH step opens the frame around the hash placeholder.
        let base2 = empty16().update(i, hash_node);
        let st2 = (match step_spec(st1, InstructionV::Branch(i as nat)) {
            Ok(s) => s,
            _ => st1,
        });
        assert(st1.stack.drop_last() =~= stk);
        assert(st2.stack =~= stk.push(NodeV::FullNode { children: base2 }));
        assert(st2.hashes =~= rest_p.hashes + hrest);
        assert(st2.keyvals =~= rest_p.keyvals + krest);
        assert(p.instructions == em.instructions + rest_p.instructions);
        lemma_run_append(em.instructions, rest_p.instructions, st0);
        assert(em.instructions[0] == InstructionV::Hasher(0));
        assert(em.instructions.subrange(1, 2) =~= seq![InstructionV::Branch(i as nat)]);
        assert(seq![InstructionV::Branch(i as nat)].subrange(1, 1)
            =~= Seq::<InstructionV>::empty());
        assert(run_spec(em.instructions, st0) == Ok::<MachineV, TrieError>(MachineV {
            stack: st2.stack,
            hashes: st2.hashes,
            keyvals: st2.keyvals,
        }));
        lemma_slots_fold(children, buckets, i + 1, rest_p, stk, base2, hrest, krest);
        let cur = choose|cur: Seq<NodeV>|
            #[trigger] folds(rest_p, stk, base2, hrest, krest, cur) && cur.len() == 16 && (forall|
                s: int,
            |
                0 <= s < 16 ==> hash_of(#[trigger] cur[s]) == hash_of(children[s]));
        assert(st2 =~= (MachineV {
            stack: stk.push(NodeV::FullNode { children: base2 }),
            hashes: rest_p.hashes + hrest,
            keyvals: rest_p.keyvals + krest,
        }));
        assert(opens(p, stk, hrest, krest, cur));
    } else {
        let sub = (match prove_spec(children[i], buckets[i]) {
            Some(Ok(r)) => r,
            _ => mp_empty(),
        });
        assert(prove_spec(children[i], buckets[i]) == Some(
            Ok::<MultiproofV, TrieError>(sub),
        ));
        let rest_p = (match prove_slots(children, buckets, i + 1, false) {
            Some(Ok(r)) => r,
            _ => mp_empty(),
        });
        assert(prove_slots(children, buckets, i + 1, false) == Some(
            Ok::<MultiproofV, TrieError>(rest_p),
        ));
        let opm = MultiproofV {
            hashes: Seq::empty(),
            instructions: seq![InstructionV::Branch(i as nat)],
            keyvals: Seq::empty(),
        };
        assert(p == mp_concat(mp_concat(sub, opm), rest_p));
        let st0 = MachineV { stack: stk, hashes: p.hashes + hrest, keyvals: p.keyvals + krest };
        let hrest1 = rest_p.hashes + hrest;
        let krest1 = rest_p.keyvals + krest;
        assert(st0.hashes =~= sub.hashes + hrest1);
        assert(st0.keyvals =~= sub.keyvals + krest1);
        assert(decreases_to!(children => children[i]));
        lemma_prove_run(children[i], buckets[i], sub, stk, hrest1, krest1);
        let nn = choose|nn: NodeV| #[trigger] builds(sub, stk, hrest1, krest1, nn, children[i]);
        let st1 = MachineV { stack: stk.push(nn), hashes: hrest1, keyvals: krest1 };
        assert(run_spec(sub.instructions, st0) == Ok::<MachineV, TrieError>(st1));
        let base2 = empty16().update(i, nn);
        let st2 = (match step_spec(st1, InstructionV::Branch(i as nat)) {
            Ok(s) => s,
            _ => st1,
        });
        assert(st1.stack.drop_last() =~= stk);
        assert(st2.stack =~= stk.push(NodeV::FullNode { children: base2 }));
        assert(p.instructions =~= sub.instructions + (opm.instructions + rest_p.instructions));
        lemma_run_append(sub.instructions, opm.instructions + rest_p.instructions, st0);
        lemma_run_append(opm.instructions, rest_p.instructions, st1);
        assert(opm.instructions[0] == InstructionV::Branch(i as nat));
        assert(opm.instructions.subrange(1, 1) =~= Seq::<InstructionV>::empty());
        assert(step_spec(st1, InstructionV::Branch(i as nat)) == Ok::<MachineV, TrieError>(st2));
        assert(run_spec(opm.instructions, st1) == Ok::<MachineV, TrieError>(st2));
        lemma_slots_fold(children, buckets, i + 1, rest_p, stk, base2, hrest, krest);
        let cur = choose|cur: Seq<NodeV>|
            #[trigger] folds(rest_p, stk, base2, hrest, krest, cur) && cur.len() == 16 && (forall|
                s: int,
            |
                0 <= s < 16 ==> hash_of(#[trigger] cur[s]) == hash_of(children[s]));
        assert(st2 =~= (MachineV {
            stack: stk.push(NodeV::FullNode { children: base2 }),
            hashes: rest_p.hashes + hrest,
            keyvals: rest_p.keyvals + krest,
        }));
        assert(opens(p, stk, hrest, krest, cur));
    }
}

/// Replaying the proof of a subtree pushes one node with the subtree's hash.
#[verifier::rlimit(100)]
proof fn lemma_prove_run(
    n: NodeV,
    kvs: Seq<(Seq<u8>, Seq<u8>)>,
    p: MultiproofV,
    stk: Seq<NodeV>,
    hrest: Seq<Seq<u8>>,
    krest: Seq<Seq<u8>>,
)
    requires
        wf_node(n),
        bounded_node(n),
        prove_spec(n, kvs) == Some(Ok::<MultiproofV, TrieError>(p)),
        forall|j: int|
            0 <= j < kvs.len() ==> contains_kv(n, (#[trigger] kvs[j]).0, kvs[j].1),
    ensures
        exists|nn: NodeV| #[trigger] builds(p, stk, hrest, krest, nn, n),
    decreases n, 17int,
{
    reveal_with_fuel(run_spec, 3);
    let st0 = MachineV { stack: stk, hashes: p.hashes + hrest, keyvals: p.keyvals + krest };
    if kvs.len() == 0 {
        let nn = NodeV::Hash { digest: hash_of(n), aux: 0 };
        assert(st0.hashes[0] == hash_of(n));
        assert(st0.hashes.subrange(1, st0.hashes.len() as int) =~= hrest);
        assert(st0.keyvals =~= krest);
        assert(p.instructions[0] == InstructionV::Hasher(0));
        assert(p.instructions.subrange(1, 1) =~= Seq::<InstructionV>::empty());
        let st1 = (match step_spec(st0, InstructionV::Hasher(0)) {
            Ok(s) => s,
            _ => st0,
        });
        assert(step_spec(st0, InstructionV::Hasher(0)) == Ok::<MachineV, TrieError>(st1));
        assert(st1 =~= (MachineV { stack: stk.push(nn), hashes: hrest, keyvals: krest }));
        assert(builds(p, stk, hrest, krest, nn, n));
    } else {
        match n {
            NodeV::Leaf { key: lk, value: lv } => {
                assert(kvs.len() == 1 && kvs[0].0 == lk);
                assert(contains_kv(n, kvs[0].0, kvs[0].1));
                assert(kvs[0].1 == lv);
                assert(st0.keyvals[0] == leaf_record(lk, lv));
                assert(compact_len(lk.len()) < pow256(8));
                lemma_decode_leaf_record(lk, lv);
                assert(suffix_of(lk, lk.len()) =~= lk);
                let nn = NodeV::Leaf { key: lk, value: lv };
                assert(st0.keyvals.subrange(1, st0.keyvals.len() as int) =~= krest);
                assert(st0.hashes =~= hrest);
                assert(p.instructions[0] == InstructionV::Leaf(lk.len()));
                assert(p.instructions.subrange(1, 1) =~= Seq::<InstructionV>::empty());
                let st1 = (match step_spec(st0, InstructionV::Leaf(lk.len())) {
                    Ok(s) => s,
                    _ => st0,
                });
                assert(step_spec(st0, InstructionV::Leaf(lk.len()))
                    == Ok::<MachineV, TrieError>(st1));
                assert(st1 =~= (MachineV { stack: stk.push(nn), hashes: hrest, keyvals: krest }));
                assert(builds(p, stk, hrest, krest, nn, n));
            },
            NodeV::Extension { fragment, child } => {
                let flen = fragment.len() as int;
                let trimmed = crate::prove::trim_kvs(kvs, flen);
                let sub = (match prove_spec(*child, trimmed) {
                    Some(Ok(r)) => r,
                    _ => mp_empty(),
                });
                assert(prove_spec(*child, trimmed) == Some(
                    Ok::<MultiproofV, TrieError>(sub),
                ));
                assert(p.hashes == sub.hashes && p.keyvals == sub.keyvals);
                assert(p.instructions == sub.instructions + seq![
                    InstructionV::Extension(fragment),
                ]);
                assert forall|j: int| 0 <= j < trimmed.len() implies contains_kv(
                    *child,
                    (#[trigger] trimmed[j]).0,
                    trimmed[j].1,
                ) by {
                    assert(contains_kv(n, kvs[j].0, kvs[j].1));
                }
                assert(decreases_to!(n => child));
                lemma_prove_run(*child, trimmed, sub, stk, hrest, krest);
                let cc = choose|cc: NodeV| #[trigger] builds(sub, stk, hrest, krest, cc, *child);
                let st1 = MachineV { stack: stk.push(cc), hashes: hrest, keyvals: krest };
                assert(sub.hashes + hrest == st0.hashes && sub.keyvals + krest == st0.keyvals);
                assert(run_spec(sub.instructions, st0) == Ok::<MachineV, TrieError>(st1));
                lemma_run_append(sub.instructions, seq![InstructionV::Extension(fragment)], st0);
                let nn = NodeV::Extension { fragment, child: Box::new(cc) };
                let st2 = (match step_spec(st1, InstructionV::Extension(fragment)) {
                    Ok(s) => s,
                    _ => st1,
                });
                assert(st1.stack.drop_last() =~= stk);
                assert(step_spec(st1, InstructionV::Extension(fragment))
                    == Ok::<MachineV, TrieError>(st2));
                assert(st2 =~= (MachineV { stack: stk.push(nn), hashes: hrest, keyvals: krest }));
                assert(seq![InstructionV::Extension(fragment)][0]
                    == InstructionV::Extension(fragment));
                assert(seq![InstructionV::Extension(fragment)].subrange(1, 1)
                    =~= Seq::<InstructionV>::empty());
                assert(run_spec(seq![InstructionV::Extension(fragment)], st1)
                    == Ok::<MachineV, TrieError>(st2));
                assert(hash_of(nn) == hash_of(n)) by {
                    assert(hash_of(cc) == hash_of(*child));
                    assert(seq![fragment, hash_of(cc)] =~= seq![fragment, hash_of(*child)]);
                }
                assert(builds(p, stk, hrest, krest, nn, n));
            },
            NodeV::FullNode { children } => {
                let buckets = buckets_of(kvs);
                assert(prove_slots(children, buckets, 0, true) == Some(
                    Ok::<MultiproofV, TrieError>(p),
                ));
                assert forall|s: int, j: int|
                    0 <= s < 16 && 0 <= j < buckets[s].len() implies contains_kv(
                    children[s],
                    (#[trigger] buckets[s][j]).0,
                    buckets[s][j].1,
                ) by {
                    lemma_bucket_elems(kvs, s as nat, j);
                    let t = choose|t: int|
                        0 <= t < kvs.len() && (#[trigger] kvs[t]).0.len() > 0 && kvs[t].0[0]
                            == s as nat && bucket_of(kvs, s as nat)[j] == (
                        kvs[t].0.subrange(1, kvs[t].0.len() as int),
                        kvs[t].1,
                        );
                    assert(contains_kv(n, kvs[t].0, kvs[t].1));
                }
                lemma_slots_open(children, buckets, 0, p, stk, hrest, krest);
                assert(contains_kv(n, kvs[0].0, kvs[0].1));
                assert(kvs[0].0.len() > 0);
                lemma_bucket_has(kvs, 0);
                assert(buckets[kvs[0].0[0] as int].len() > 0);
                let cur = choose|cur: Seq<NodeV>|
                    #[trigger] opens(p, stk, hrest, krest, cur) && cur.len() == 16 && (forall|
                        s: int,
                    |
                        0 <= s < 16 ==> hash_of(#[trigger] cur[s]) == hash_of(children[s]));
                let nn = NodeV::FullNode { children: cur };
                assert(hash_of(nn) == hash_of(n)) by {
                    assert(children_hashes(cur) =~= children_hashes(children));
                }
                assert(builds(p, stk, hrest, krest, nn, n));
            },
            _ => {
                assert(false);
            },
        }
    }
}

/// The round-trip law: a multiproof compiled for keys the tree holds, with
/// their stored values, replays into a partial tree that commits to the same
/// root hash as the tree itself; the untouched parts stand in it as hash
/// placeholders carrying the correct digests.
pub proof fn lemma_multiproof_roundtrip(n: NodeV, kvs: Seq<(Seq<u8>, Seq<u8>)>, p: MultiproofV)
    requires
        wf_node(n),
        bounded_node(n),
        prove_spec(n, kvs) == Some(Ok::<MultiproofV, TrieError>(p)),
        forall|j: int|
            0 <= j < kvs.len() ==> contains_kv(n, (#[trigger] kvs[j]).0, kvs[j].1),
    ensures
        rebuild_spec(p) is Ok,
        hash_of(rebuild_spec(p)->Ok_0) == hash_of(n),
{
    reveal_with_fuel(run_spec, 2);
    lemma_prove_run(n, kvs, p, Seq::empty(), Seq::empty(), Seq::empty());
    let nn = choose|nn: NodeV|
        #[trigger] builds(p, Seq::empty(), Seq::empty(), Seq::empty(), nn, n);
    assert(p.hashes + Seq::<Seq<u8>>::empty() =~= p.hashes);
    assert(p.keyvals + Seq::<Seq<u8>>::empty() =~= p.keyvals);
    assert(run_spec(
        p.instructions,
        MachineV { stack: Seq::empty(), hashes: p.hashes, keyvals: p.keyvals },
    ) == Ok::<MachineV, TrieError>(MachineV {
        stack: Seq::<NodeV>::empty().push(nn),
        hashes: Seq::empty(),
        keyvals: Seq::empty(),
    }));
    assert(Seq::<NodeV>::empty().push(nn).len() == 1);
    assert(Seq::<NodeV>::empty().push(nn)[0] == nn);
}

} // verus!
