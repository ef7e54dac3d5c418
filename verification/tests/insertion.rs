use multiproof::insert_leaf;
use multiproof::NibbleKey;
use multiproof::Node::{EmptySlot, Extension, FullNode, Leaf};
use multiproof::TrieError;

#[test]
fn insert_leaf_zero_length_key_after_fullnode() {
    let mut root = Extension(
        vec![0u8; 31],
        Box::new(FullNode(vec![
            EmptySlot,
            Leaf(NibbleKey::new(vec![]), vec![0u8; 32]),
            EmptySlot,
            EmptySlot,
            EmptySlot,
            EmptySlot,
            EmptySlot,
            EmptySlot,
            EmptySlot,
            EmptySlot,
            EmptySlot,
            EmptySlot,
            EmptySlot,
            EmptySlot,
            EmptySlot,
            EmptySlot,
        ])),
    );
    let out = insert_leaf(&mut root, vec![0u8; 32], vec![1u8; 32]).unwrap();
    assert_eq!(
        out,
        Extension(
            vec![0u8; 31],
            Box::new(FullNode(vec![
                Leaf(NibbleKey::new(vec![]), vec![1u8; 32]),
                Leaf(NibbleKey::new(vec![]), vec![0u8; 32]),
                EmptySlot,
                EmptySlot,
                EmptySlot,
                EmptySlot,
                EmptySlot,
                EmptySlot,
                EmptySlot,
                EmptySlot,
                EmptySlot,
                EmptySlot,
                EmptySlot,
                EmptySlot,
                EmptySlot,
                EmptySlot
            ]))
        )
    );
}

#[test]
fn insert_leaf_into_extension_root_all_bytes_in_key_common() {
    let mut root = Extension(
        vec![0xd, 0xe, 0xa, 0xd],
        Box::new(Leaf(NibbleKey::new(vec![0u8; 28]), vec![1u8; 32])),
    );
    let mut key = vec![1u8; 32];
    key[0] = 0xd;
    key[1] = 0xe;
    key[2] = 0xa;
    key[3] = 0xd;
    let out = insert_leaf(&mut root, key, vec![1u8; 32]).unwrap();
    assert_eq!(
        out,
        Extension(
            vec![0xd, 0xe, 0xa, 0xd],
            Box::new(FullNode(vec![
                Leaf(NibbleKey::new(vec![0u8; 27]), vec![1u8; 32]),
                Leaf(NibbleKey::new(vec![1u8; 27]), vec![1u8; 32]),
                EmptySlot,
                EmptySlot,
                EmptySlot,
                EmptySlot,
                EmptySlot,
                EmptySlot,
                EmptySlot,
                EmptySlot,
                EmptySlot,
                EmptySlot,
                EmptySlot,
                EmptySlot,
                EmptySlot,
                EmptySlot
            ]))
        )
    );
}

#[test]
fn insert_leaf_into_extension_root_no_common_bytes_in_key() {
    let mut root = Extension(
        vec![0xd, 0xe, 0xa, 0xd],
        Box::new(Leaf(NibbleKey::new(vec![0u8; 24]), vec![1u8; 32])),
    );
    let out = insert_leaf(&mut root, vec![2u8; 32], vec![1u8; 32]).unwrap();
    assert_eq!(
        out,
        FullNode(vec![
            EmptySlot,
            EmptySlot,
            Leaf(NibbleKey::new(vec![2u8; 31]), vec![1u8; 32]),
            EmptySlot,
            EmptySlot,
            EmptySlot,
            EmptySlot,
            EmptySlot,
            EmptySlot,
            EmptySlot,
            EmptySlot,
            EmptySlot,
            EmptySlot,
            Extension(
                vec![14, 10, 13],
                Box::new(Leaf(NibbleKey::new(vec![0u8; 24]), vec![1u8; 32]))
            ),
            EmptySlot,
            EmptySlot
        ])
    );
}

#[test]
fn insert_leaf_into_extension_root_half_bytes_in_key_common() {
    let mut root = Extension(
        vec![0xd, 0xe, 0xa, 0xd],
        Box::new(Leaf(NibbleKey::new(vec![0u8; 28]), vec![1u8; 32])),
    );
    let mut key = vec![0u8; 32];
    key[0] = 0xd;
    key[1] = 0xe;
    let out = insert_leaf(&mut root, key, vec![1u8; 32]).unwrap();
    assert_eq!(
        out,
        Extension(
            vec![0xd, 0xe],
            Box::new(FullNode(vec![
                Leaf(NibbleKey::new(vec![0u8; 29]), vec![1u8; 32]),
                EmptySlot,
                EmptySlot,
                EmptySlot,
                EmptySlot,
                EmptySlot,
                EmptySlot,
                EmptySlot,
                EmptySlot,
                EmptySlot,
                Extension(
                    vec![0xd],
                    Box::new(Leaf(NibbleKey::new(vec![0u8; 28]), vec![1u8; 32]))
                ),
                EmptySlot,
                EmptySlot,
                EmptySlot,
                EmptySlot,
                EmptySlot
            ]))
        )
    );
}

#[test]
fn insert_leaf_into_extension_root_almost_all_bytes_in_key_common() {
    let mut root = Extension(
        vec![0xd, 0xe, 0xa, 0xd],
        Box::new(Leaf(NibbleKey::new(vec![0u8; 28]), vec![1u8; 32])),
    );
    let mut key = vec![0u8; 32];
    key[0] = 0xd;
    key[1] = 0xe;
    key[2] = 0xa;
    let out = insert_leaf(&mut root, key, vec![1u8; 32]).unwrap();
    assert_eq!(
        out,
        Extension(
            vec![0xd, 0xe, 0xa],
            Box::new(FullNode(vec![
                Leaf(NibbleKey::new(vec![0u8; 28]), vec![1u8; 32]),
                EmptySlot,
                EmptySlot,
                EmptySlot,
                EmptySlot,
                EmptySlot,
                EmptySlot,
                EmptySlot,
                EmptySlot,
                EmptySlot,
                EmptySlot,
                EmptySlot,
                EmptySlot,
                Leaf(NibbleKey::new(vec![0u8; 28]), vec![1u8; 32]),
                EmptySlot,
                EmptySlot
            ]))
        )
    );
}

#[test]
fn insert_leaf_into_leaf_root_common_bytes_in_key() {
    let mut key = vec![0u8; 32];
    for (i, v) in key.iter_mut().enumerate() {
        if i >= 16 {
            break;
        }
        *v = 2u8;
    }
    let mut root = Leaf(NibbleKey::new(key), vec![1u8; 32]);
    let out = insert_leaf(&mut root, vec![2u8; 32], vec![1u8; 32]).unwrap();
    assert_eq!(
        out,
        Extension(
            vec![2u8; 16],
            Box::new(FullNode(vec![
                Leaf(NibbleKey::new(vec![0u8; 15]), vec![1u8; 32]),
                EmptySlot,
                Leaf(NibbleKey::new(vec![2u8; 15]), vec![1u8; 32]),
                EmptySlot,
                EmptySlot,
                EmptySlot,
                EmptySlot,
                EmptySlot,
                EmptySlot,
                EmptySlot,
                EmptySlot,
                EmptySlot,
                EmptySlot,
                EmptySlot,
                EmptySlot,
                EmptySlot
            ]))
        )
    );
}

#[test]
fn insert_leaf_into_leaf_root_no_common_bytes_in_key() {
    let mut root = Leaf(NibbleKey::new(vec![1u8; 32]), vec![1u8; 32]);
    let out = insert_leaf(&mut root, vec![2u8; 32], vec![1u8; 32]).unwrap();
    assert_eq!(
        out,
        FullNode(vec![
            EmptySlot,
            Leaf(NibbleKey::new(vec![1u8; 31]), vec![1u8; 32]),
            Leaf(NibbleKey::new(vec![2u8; 31]), vec![1u8; 32]),
            EmptySlot,
            EmptySlot,
            EmptySlot,
            EmptySlot,
            EmptySlot,
            EmptySlot,
            EmptySlot,
            EmptySlot,
            EmptySlot,
            EmptySlot,
            EmptySlot,
            EmptySlot,
            EmptySlot
        ])
    );
}

#[test]
fn insert_leaf_into_empty_root() {
    let children = vec![EmptySlot; 16];
    let mut root = FullNode(children);
    let out = insert_leaf(&mut root, vec![0u8; 32], vec![1u8; 32]);
    assert_eq!(
        out.unwrap(),
        FullNode(vec![
            Leaf(NibbleKey::new(vec![0u8; 31]), vec![1u8; 32]),
            EmptySlot,
            EmptySlot,
            EmptySlot,
            EmptySlot,
            EmptySlot,
            EmptySlot,
            EmptySlot,
            EmptySlot,
            EmptySlot,
            EmptySlot,
            EmptySlot,
            EmptySlot,
            EmptySlot,
            EmptySlot,
            EmptySlot
        ])
    );
}

#[test]
fn insert_leaf_into_two_level_fullnodes() {
    let mut root = FullNode(vec![
        FullNode(vec![EmptySlot; 16]),
        EmptySlot,
        EmptySlot,
        EmptySlot,
        EmptySlot,
        EmptySlot,
        EmptySlot,
        EmptySlot,
        EmptySlot,
        EmptySlot,
        EmptySlot,
        EmptySlot,
        EmptySlot,
        EmptySlot,
        EmptySlot,
        EmptySlot,
    ]);
    let out = insert_leaf(&mut root, vec![0u8; 32], vec![1u8; 32]);
    assert_eq!(
        out.unwrap(),
        FullNode(vec![
            FullNode(vec![
                Leaf(NibbleKey::new(vec![0u8; 30]), vec![1u8; 32]),
                EmptySlot,
                EmptySlot,
                EmptySlot,
                EmptySlot,
                EmptySlot,
                EmptySlot,
                EmptySlot,
                EmptySlot,
                EmptySlot,
                EmptySlot,
                EmptySlot,
                EmptySlot,
                EmptySlot,
                EmptySlot,
                EmptySlot
            ]),
            EmptySlot,
            EmptySlot,
            EmptySlot,
            EmptySlot,
            EmptySlot,
            EmptySlot,
            EmptySlot,
            EmptySlot,
            EmptySlot,
            EmptySlot,
            EmptySlot,
            EmptySlot,
            EmptySlot,
            EmptySlot,
            EmptySlot
        ])
    );
}

#[test]
fn insert_empty_key_is_rejected() {
    let mut root = FullNode(vec![EmptySlot; 16]);
    let out = insert_leaf(&mut root, vec![], vec![1u8; 32]);
    assert_eq!(out, Err(TrieError::EmptyKeyError));
    assert_eq!(root, FullNode(vec![EmptySlot; 16]));
}

#[test]
fn insert_duplicate_key_is_rejected_and_tree_unchanged() {
    let mut root = FullNode(vec![EmptySlot; 16]);
    insert_leaf(&mut root, vec![2u8; 32], vec![0u8; 32]).unwrap();
    let snapshot = root.clone();
    let out = insert_leaf(&mut root, vec![2u8; 32], vec![9u8; 32]);
    assert_eq!(out, Err(TrieError::DuplicateKeyError));
    assert_eq!(root, snapshot);
}

#[test]
fn insert_into_hash_node_is_unsupported() {
    let mut root = multiproof::Node::Hash(vec![0u8; 32], 0);
    let out = insert_leaf(&mut root, vec![1, 2, 3], vec![4, 5, 6]);
    assert_eq!(out, Err(TrieError::UnsupportedNodeError));
}

#[test]
fn insertion_order_does_not_change_the_root_hash() {
    let keys: [Vec<u8>; 3] = [vec![2u8; 32], vec![1u8; 32], vec![8u8; 32]];
    let vals: [Vec<u8>; 3] = [vec![10u8; 32], vec![11u8; 32], vec![12u8; 32]];
    let orders: [[usize; 3]; 3] = [[0, 1, 2], [2, 1, 0], [1, 2, 0]];
    let mut hashes = Vec::new();
    for order in orders.iter() {
        let mut root = FullNode(vec![EmptySlot; 16]);
        for &i in order.iter() {
            insert_leaf(&mut root, keys[i].clone(), vals[i].clone()).unwrap();
        }
        hashes.push(root.hash());
    }
    assert_eq!(hashes[0], hashes[1]);
    assert_eq!(hashes[0], hashes[2]);
}

#[test]
fn nibble_key_prefix_and_suffix_operations() {
    let a = NibbleKey::new(vec![0xd, 0xe, 0xa, 0xd, 1, 2]);
    let b = NibbleKey::new(vec![0xd, 0xe, 0xa, 0xf]);
    assert_eq!(a.common_prefix_length(&b), 3);
    assert_eq!(a.len(), 6);
    assert_eq!(a.get(4), 1);
    assert_eq!(a.drop_prefix(4), NibbleKey::new(vec![1, 2]));
    assert_eq!(a.take_suffix(2), NibbleKey::new(vec![1, 2]));
    assert_eq!(a.take_suffix(9), a);
    assert_eq!(b.to_vec(), vec![0xd, 0xe, 0xa, 0xf]);
}
