use multiproof::Instruction::{ADD, BRANCH, EXTENSION, HASHER, LEAF};
use multiproof::Node::{EmptySlot, Extension, FullNode, Leaf};
use multiproof::{insert_leaf, make_multiproof, rebuild, Multiproof, NibbleKey, TrieError};

/// The canonical leaf record, built from the rlp crate's string encoder and
/// the compact-length header rule, as an independent cross-check of the
/// library's own encoder.
fn leaf_record_bytes(key: &[u8], value: &[u8]) -> Vec<u8> {
    let n = key.len();
    let compact = if n <= 16 { n / 2 + 1 } else { n + 1 };
    let mut out = vec![0xc0u8 + compact as u8];
    out.extend_from_slice(&rlp::encode(&key.to_vec()));
    out.extend_from_slice(&rlp::encode(&value.to_vec()));
    out
}

#[test]
fn validate_tree() {
    let mut root = FullNode(vec![EmptySlot; 16]);
    insert_leaf(&mut root, vec![2u8; 32], vec![0u8; 32]).unwrap();
    insert_leaf(&mut root, vec![1u8; 32], vec![1u8; 32]).unwrap();
    insert_leaf(&mut root, vec![8u8; 32], vec![150u8; 32]).unwrap();

    let changes = vec![
        (vec![2u8; 32], vec![4u8; 32]),
        (vec![1u8; 32], vec![8u8; 32]),
    ];

    let proof = make_multiproof(&root, changes.clone()).unwrap();

    let proof = Multiproof {
        hashes: proof.hashes,
        keyvals: proof.keyvals,
        instructions: proof.instructions,
    };
    let new_root = rebuild(&proof).unwrap();

    assert_eq!(
        new_root,
        FullNode(vec![
            EmptySlot,
            Leaf(
                NibbleKey::new(vec![
                    1, 1, 1, 1, 1, 1, 1, 1, 1, 1, 1, 1, 1, 1, 1, 1, 1, 1, 1, 1, 1, 1, 1, 1, 1,
                    1, 1, 1, 1, 1, 1
                ]),
                vec![
                    8, 8, 8, 8, 8, 8, 8, 8, 8, 8, 8, 8, 8, 8, 8, 8, 8, 8, 8, 8, 8, 8, 8, 8, 8,
                    8, 8, 8, 8, 8, 8, 8
                ]
            ),
            Leaf(
                NibbleKey::new(vec![
                    2, 2, 2, 2, 2, 2, 2, 2, 2, 2, 2, 2, 2, 2, 2, 2, 2, 2, 2, 2, 2, 2, 2, 2, 2,
                    2, 2, 2, 2, 2, 2
                ]),
                vec![
                    4, 4, 4, 4, 4, 4, 4, 4, 4, 4, 4, 4, 4, 4, 4, 4, 4, 4, 4, 4, 4, 4, 4, 4, 4,
                    4, 4, 4, 4, 4, 4, 4
                ]
            ),
            EmptySlot,
            EmptySlot,
            EmptySlot,
            EmptySlot,
            EmptySlot,
            multiproof::Node::Hash(
                vec![
                    148, 246, 44, 213, 233, 204, 109, 50, 27, 235, 77, 70, 96, 129, 48, 141,
                    228, 36, 161, 5, 222, 36, 15, 220, 35, 103, 15, 4, 65, 254, 67, 132
                ],
                0
            ),
            EmptySlot,
            EmptySlot,
            EmptySlot,
            EmptySlot,
            EmptySlot,
            EmptySlot,
            EmptySlot
        ])
    );
}

#[test]
fn make_multiproof_two_values() {
    let mut root = FullNode(vec![EmptySlot; 16]);
    insert_leaf(&mut root, vec![2u8; 32], vec![0u8; 32]).unwrap();
    insert_leaf(&mut root, vec![1u8; 32], vec![1u8; 32]).unwrap();
    insert_leaf(&mut root, vec![8u8; 32], vec![150u8; 32]).unwrap();

    let proof = make_multiproof(
        &root,
        vec![
            (vec![2u8; 32], vec![4u8; 32]),
            (vec![1u8; 32], vec![8u8; 32]),
        ],
    )
    .unwrap();
    let i = proof.instructions;
    let v = proof.keyvals;
    let h = proof.hashes;
    assert_eq!(i.len(), 6); // [LEAF, BRANCH, LEAF, ADD, HASHER, ADD]
    match i[0] {
        // Key length is 31
        LEAF(n) => assert_eq!(n, 31),
        _ => panic!("invalid instruction {:?}", i[0]),
    }
    match i[1] {
        BRANCH(n) => assert_eq!(n, 1),
        _ => panic!("invalid instruction {:?}", i[1]),
    }
    match i[2] {
        // Key length is 31
        LEAF(n) => assert_eq!(n, 31),
        _ => panic!("invalid instruction {:?}", i[2]),
    }
    match i[3] {
        ADD(n) => assert_eq!(n, 2),
        _ => panic!("invalid instruction {:?}", i[3]),
    }
    match i[5] {
        ADD(n) => assert_eq!(n, 8),
        _ => panic!("invalid instruction {:?}", i[5]),
    }
    assert_eq!(h.len(), 1); // Only one hash
    assert_eq!(v.len(), 2);
    assert_eq!(v[0], leaf_record_bytes(&[1u8; 31], &[8u8; 32]));
    assert_eq!(v[1], leaf_record_bytes(&[2u8; 31], &[4u8; 32]));
}

#[test]
fn make_multiproof_single_value() {
    let mut root = FullNode(vec![EmptySlot; 16]);
    insert_leaf(&mut root, vec![2u8; 32], vec![0u8; 32]).unwrap();
    insert_leaf(&mut root, vec![1u8; 32], vec![1u8; 32]).unwrap();

    let proof = make_multiproof(&root, vec![(vec![1u8; 32], vec![1u8; 32])]).unwrap();
    let i = proof.instructions;
    let v = proof.keyvals;
    let h = proof.hashes;
    assert_eq!(i.len(), 4); // [LEAF, BRANCH, HASHER, ADD]
    match i[0] {
        // Key length is 31
        LEAF(n) => assert_eq!(n, 31),
        _ => panic!("invalid instruction {:?}", i[0]),
    }
    match i[1] {
        BRANCH(n) => assert_eq!(n, 1),
        _ => panic!("invalid instruction {:?}", i[1]),
    }
    match i[2] {
        HASHER(n) => assert_eq!(n, 0),
        _ => panic!("invalid instruction {:?}", i[2]),
    }
    match i[3] {
        ADD(n) => assert_eq!(n, 2),
        _ => panic!("invalid instruction {:?}", i[3]),
    }
    assert_eq!(h.len(), 1); // Only one hash
    assert_eq!(v.len(), 1); // Only one value
    assert_eq!(v[0], leaf_record_bytes(&[1u8; 31], &[1u8; 32]));
}

#[test]
fn make_multiproof_no_values() {
    let mut root = FullNode(vec![EmptySlot; 16]);
    insert_leaf(&mut root, vec![2u8; 32], vec![0u8; 32]).unwrap();
    insert_leaf(&mut root, vec![1u8; 32], vec![1u8; 32]).unwrap();

    let proof = make_multiproof(&root, vec![]).unwrap();
    let i = proof.instructions;
    let v = proof.keyvals;
    let h = proof.hashes;
    assert_eq!(i.len(), 1);
    assert_eq!(h.len(), 1);
    assert_eq!(v.len(), 0);
}

#[test]
fn make_multiproof_empty_tree() {
    let root = FullNode(vec![EmptySlot; 16]);

    let out = make_multiproof(&root, vec![(vec![1u8; 32], vec![1u8; 32])]);
    assert!(out.is_err());
    assert_eq!(out.unwrap_err(), TrieError::EmptyTreeError);
}

#[test]
fn tree_with_just_one_leaf() {
    let proof = Multiproof {
        hashes: vec![],
        keyvals: vec![rlp::encode_list::<Vec<u8>, Vec<u8>>(&[
            vec![1, 2, 3],
            vec![4, 5, 6],
        ])
        .to_vec()],
        instructions: vec![LEAF(0)],
    };
    let out = rebuild(&proof).unwrap();
    assert_eq!(out, Leaf(NibbleKey::new(vec![]), vec![4, 5, 6]))
}

#[test]
fn tree_with_one_branch() {
    let proof = Multiproof {
        hashes: vec![],
        keyvals: vec![rlp::encode_list::<Vec<u8>, Vec<u8>>(&[
            vec![1, 2, 3],
            vec![4, 5, 6],
        ])
        .to_vec()],
        instructions: vec![LEAF(0), BRANCH(0)],
    };
    let out = rebuild(&proof).unwrap();
    assert_eq!(
        out,
        FullNode(vec![
            Leaf(NibbleKey::new(vec![]), vec![4, 5, 6]),
            EmptySlot,
            EmptySlot,
            EmptySlot,
            EmptySlot,
            EmptySlot,
            EmptySlot,
            EmptySlot,
            EmptySlot,
            EmptySlot,
            EmptySlot,
            EmptySlot,
            EmptySlot,
            EmptySlot,
            EmptySlot,
            EmptySlot
        ])
    )
}

#[test]
fn tree_with_added_branch() {
    let proof = Multiproof {
        hashes: vec![],
        keyvals: vec![
            rlp::encode_list::<Vec<u8>, Vec<u8>>(&[vec![1, 2, 3], vec![4, 5, 6]]).to_vec(),
            rlp::encode_list::<Vec<u8>, Vec<u8>>(&[vec![7, 8, 9], vec![10, 11, 12]]).to_vec(),
        ],
        instructions: vec![LEAF(0), BRANCH(0), LEAF(1), ADD(2)],
    };
    let out = rebuild(&proof).unwrap();
    assert_eq!(
        out,
        FullNode(vec![
            Leaf(NibbleKey::new(vec![]), vec![4, 5, 6]),
            EmptySlot,
            Leaf(NibbleKey::new(vec![9]), vec![10, 11, 12]),
            EmptySlot,
            EmptySlot,
            EmptySlot,
            EmptySlot,
            EmptySlot,
            EmptySlot,
            EmptySlot,
            EmptySlot,
            EmptySlot,
            EmptySlot,
            EmptySlot,
            EmptySlot,
            EmptySlot
        ])
    )
}

#[test]
fn tree_with_extension() {
    let proof = Multiproof {
        hashes: vec![],
        instructions: vec![
            LEAF(0),
            BRANCH(0),
            LEAF(1),
            ADD(2),
            EXTENSION(vec![13, 14, 15]),
        ],
        keyvals: vec![
            rlp::encode_list::<Vec<u8>, Vec<u8>>(&[vec![1, 2, 3], vec![4, 5, 6]]).to_vec(),
            rlp::encode_list::<Vec<u8>, Vec<u8>>(&[vec![7, 8, 9], vec![10, 11, 12]]).to_vec(),
        ],
    };
    let out = rebuild(&proof).unwrap();
    assert_eq!(
        out,
        Extension(
            vec![13, 14, 15],
            Box::new(FullNode(vec![
                Leaf(NibbleKey::new(vec![]), vec![4, 5, 6]),
                EmptySlot,
                Leaf(NibbleKey::new(vec![9]), vec![10, 11, 12]),
                EmptySlot,
                EmptySlot,
                EmptySlot,
                EmptySlot,
                EmptySlot,
                EmptySlot,
                EmptySlot,
                EmptySlot,
                EmptySlot,
                EmptySlot,
                EmptySlot,
                EmptySlot,
                EmptySlot
            ]))
        )
    )
}

#[test]
fn proving_unchanged_values_rebuilds_the_same_root_hash() {
    let mut root = FullNode(vec![EmptySlot; 16]);
    insert_leaf(&mut root, vec![2u8; 32], vec![0u8; 32]).unwrap();
    insert_leaf(&mut root, vec![1u8; 32], vec![1u8; 32]).unwrap();
    insert_leaf(&mut root, vec![8u8; 32], vec![150u8; 32]).unwrap();

    let kvs = vec![
        (vec![2u8; 32], vec![0u8; 32]),
        (vec![1u8; 32], vec![1u8; 32]),
    ];
    let proof = make_multiproof(&root, kvs).unwrap();
    let partial = rebuild(&proof).unwrap();
    assert_eq!(partial.hash(), root.hash());
}

#[test]
fn proving_through_an_extension_rebuilds_the_same_root_hash() {
    let mut root = FullNode(vec![EmptySlot; 16]);
    let mut key_a = vec![7u8; 32];
    let mut key_b = vec![7u8; 32];
    key_a[10] = 1;
    key_b[10] = 2;
    insert_leaf(&mut root, key_a.clone(), vec![42u8; 32]).unwrap();
    insert_leaf(&mut root, key_b.clone(), vec![43u8; 32]).unwrap();

    let proof = make_multiproof(&root, vec![(key_a, vec![42u8; 32])]).unwrap();
    let partial = rebuild(&proof).unwrap();
    assert_eq!(partial.hash(), root.hash());
}

#[test]
fn proving_the_same_keys_twice_gives_identical_streams() {
    let mut root = FullNode(vec![EmptySlot; 16]);
    insert_leaf(&mut root, vec![2u8; 32], vec![0u8; 32]).unwrap();
    insert_leaf(&mut root, vec![1u8; 32], vec![1u8; 32]).unwrap();
    insert_leaf(&mut root, vec![8u8; 32], vec![150u8; 32]).unwrap();

    let kvs = vec![
        (vec![2u8; 32], vec![4u8; 32]),
        (vec![1u8; 32], vec![8u8; 32]),
    ];
    let p1 = make_multiproof(&root, kvs.clone()).unwrap();
    let p2 = make_multiproof(&root, kvs).unwrap();
    assert_eq!(p1.hashes, p2.hashes);
    assert_eq!(p1.keyvals, p2.keyvals);
    assert_eq!(format!("{:?}", p1.instructions), format!("{:?}", p2.instructions));
}

#[test]
fn proof_has_one_keyval_per_requested_key_and_no_more() {
    let mut root = FullNode(vec![EmptySlot; 16]);
    insert_leaf(&mut root, vec![1u8; 32], vec![1u8; 32]).unwrap();
    insert_leaf(&mut root, vec![2u8; 32], vec![2u8; 32]).unwrap();
    insert_leaf(&mut root, vec![3u8; 32], vec![3u8; 32]).unwrap();
    insert_leaf(&mut root, vec![4u8; 32], vec![4u8; 32]).unwrap();

    let proof = make_multiproof(
        &root,
        vec![(vec![3u8; 32], vec![3u8; 32]), (vec![1u8; 32], vec![1u8; 32])],
    )
    .unwrap();
    // One record per requested key; one hash per untouched sibling.
    assert_eq!(proof.keyvals.len(), 2);
    assert_eq!(proof.hashes.len(), 2);
}

#[test]
fn proving_a_missing_key_fails_with_key_mismatch() {
    let mut root = FullNode(vec![EmptySlot; 16]);
    insert_leaf(&mut root, vec![1u8; 32], vec![1u8; 32]).unwrap();
    let out = make_multiproof(&root, vec![(vec![1u8; 31], vec![1u8; 32])]);
    assert_eq!(out.unwrap_err(), TrieError::KeyMismatchError);
}

#[test]
fn proving_outside_an_extension_fails_with_key_not_in_tree() {
    let root = Extension(
        vec![0xd, 0xe],
        Box::new(Leaf(NibbleKey::new(vec![0u8; 30]), vec![1u8; 32])),
    );
    let out = make_multiproof(&root, vec![(vec![1u8; 32], vec![1u8; 32])]);
    assert_eq!(out.unwrap_err(), TrieError::KeyNotInTreeError);
}

#[test]
fn proving_against_a_hash_placeholder_is_an_internal_error() {
    let root = multiproof::Node::Hash(vec![0u8; 32], 0);
    let out = make_multiproof(&root, vec![(vec![1u8; 32], vec![1u8; 32])]);
    assert_eq!(out.unwrap_err(), TrieError::InternalError);
}

#[test]
fn rebuild_without_enough_hashes_is_truncated() {
    let proof = Multiproof {
        hashes: vec![],
        instructions: vec![HASHER(0)],
        keyvals: vec![],
    };
    assert_eq!(rebuild(&proof).unwrap_err(), TrieError::ProofTruncatedError);
}

#[test]
fn rebuild_with_garbage_keyval_is_malformed() {
    let proof = Multiproof {
        hashes: vec![],
        instructions: vec![LEAF(0)],
        keyvals: vec![vec![0x01, 0x02]],
    };
    assert_eq!(rebuild(&proof).unwrap_err(), TrieError::MalformedProofError);
}

#[test]
fn rebuild_branch_on_empty_stack_underflows() {
    let proof = Multiproof {
        hashes: vec![],
        instructions: vec![BRANCH(3)],
        keyvals: vec![],
    };
    assert_eq!(rebuild(&proof).unwrap_err(), TrieError::StackUnderflowError);
}

#[test]
fn rebuild_add_outside_the_slot_range_is_rejected() {
    let proof = Multiproof {
        hashes: vec![vec![0u8; 32], vec![1u8; 32]],
        instructions: vec![HASHER(0), BRANCH(0), HASHER(0), ADD(16)],
        keyvals: vec![],
    };
    assert_eq!(rebuild(&proof).unwrap_err(), TrieError::SlotOutOfRangeError);
}

#[test]
fn rebuild_add_onto_a_non_branch_is_a_type_mismatch() {
    let proof = Multiproof {
        hashes: vec![vec![0u8; 32], vec![1u8; 32]],
        instructions: vec![HASHER(0), HASHER(1), ADD(2)],
        keyvals: vec![],
    };
    assert_eq!(rebuild(&proof).unwrap_err(), TrieError::TypeMismatchError);
}

#[test]
fn rebuild_leaving_two_nodes_on_the_stack_is_malformed() {
    let proof = Multiproof {
        hashes: vec![vec![0u8; 32], vec![1u8; 32]],
        instructions: vec![HASHER(0), HASHER(0)],
        keyvals: vec![],
    };
    assert_eq!(rebuild(&proof).unwrap_err(), TrieError::MalformedProofError);
}

#[test]
fn rebuild_leaf_with_oversized_suffix_keeps_the_whole_key() {
    let proof = Multiproof {
        hashes: vec![],
        keyvals: vec![rlp::encode_list::<Vec<u8>, Vec<u8>>(&[
            vec![1, 2, 3],
            vec![4, 5, 6],
        ])
        .to_vec()],
        instructions: vec![LEAF(5)],
    };
    let out = rebuild(&proof).unwrap();
    assert_eq!(out, Leaf(NibbleKey::new(vec![1, 2, 3]), vec![4, 5, 6]));
}
