use multiproof::codec::{decode_leaf_record, encode_leaf_record};
use multiproof::Node::{EmptySlot, FullNode, Leaf};
use multiproof::{NibbleKey, Node};
use sha3::Digest;

#[test]
fn single_value_hash() {
    assert_eq!(
        Leaf(NibbleKey::new(vec![1, 2, 3]), vec![4, 5, 6]).hash(),
        vec![194, 131, 1, 2, 3, 131, 4, 5, 6]
    );
}

#[test]
fn big_value_single_key_hash() {
    assert_eq!(
        Leaf(NibbleKey::new(vec![0u8; 32]), vec![4, 5, 6]).hash(),
        vec![
            131, 176, 193, 69, 224, 210, 235, 150, 232, 34, 23, 122, 33, 191, 215, 245, 166,
            14, 84, 130, 80, 200, 156, 109, 242, 82, 179, 107, 99, 126, 138, 48
        ]
    );
}

#[test]
fn big_value_single_big_key_hash() {
    assert_eq!(
        Leaf(NibbleKey::new(vec![0u8; 32]), vec![1u8; 32]).hash(),
        vec![
            46, 13, 98, 250, 109, 96, 126, 167, 238, 29, 122, 212, 177, 83, 107, 74, 122, 19,
            242, 93, 2, 118, 56, 156, 108, 100, 76, 183, 135, 237, 157, 192
        ]
    );
}

#[test]
fn empty_value_hash() {
    let node = EmptySlot;
    assert_eq!(node.hash(), vec![]);
}

#[test]
fn full_node_hash() {
    assert_eq!(
        FullNode(vec![
            Leaf(NibbleKey::new(vec![]), vec![4, 5, 6]),
            EmptySlot,
            Leaf(NibbleKey::new(vec![9]), vec![10, 11, 12]),
            EmptySlot,
            EmptySlot,
            EmptySlot,
            EmptySlot,
            EmptySlot,
            EmptySlot,
            EmptySlot,
            EmptySlot,
            EmptySlot,
            EmptySlot,
            EmptySlot,
            EmptySlot,
            EmptySlot
        ])
        .hash(),
        vec![
            220, 134, 193, 128, 131, 4, 5, 6, 128, 134, 193, 9, 131, 10, 11, 12, 128, 128, 128,
            128, 128, 128, 128, 128, 128, 128, 128, 128, 128
        ]
    );
}

#[test]
fn hash_node_returns_its_digest_unchanged() {
    let digest = vec![7u8; 32];
    assert_eq!(Node::Hash(digest.clone(), 3).hash(), digest);
}

#[test]
fn leaf_record_of_exactly_32_bytes_is_inlined() {
    // Header (1) + encoded key (4) + encoded value (1 + 26) = 32 bytes.
    let key = vec![1u8, 2, 3];
    let value = vec![7u8; 26];
    let record = encode_leaf_record(&key, &value);
    assert_eq!(record.len(), 32);
    assert_eq!(Leaf(NibbleKey::new(key), value).hash(), record);
}

#[test]
fn leaf_record_one_byte_longer_is_digested() {
    // Header (1) + encoded key (4) + encoded value (1 + 27) = 33 bytes.
    let key = vec![1u8, 2, 3];
    let value = vec![7u8; 27];
    let record = encode_leaf_record(&key, &value);
    assert_eq!(record.len(), 33);
    let mut hasher = sha3::Keccak256::new();
    hasher.update(&record);
    let digest = hasher.finalize().to_vec();
    let h = Leaf(NibbleKey::new(key), value).hash();
    assert_eq!(h.len(), 32);
    assert_eq!(h, digest);
}

#[test]
fn leaf_records_decode_back_to_their_key_and_value() {
    let cases: [(Vec<u8>, Vec<u8>); 4] = [
        (vec![], vec![]),
        (vec![9], vec![10, 11, 12]),
        (vec![1, 2, 3], vec![4, 5, 6]),
        (vec![5u8; 31], vec![200u8; 64]),
    ];
    for (key, value) in cases.iter() {
        let record = encode_leaf_record(key, value);
        let (k, v) = decode_leaf_record(&record).unwrap();
        assert_eq!(&k, key);
        assert_eq!(&v, value);
    }
}

#[test]
fn standard_two_string_lists_decode_as_leaf_records() {
    let record =
        rlp::encode_list::<Vec<u8>, Vec<u8>>(&[vec![1, 2, 3], vec![4, 5, 6]]).to_vec();
    let (k, v) = decode_leaf_record(&record).unwrap();
    assert_eq!(k, vec![1, 2, 3]);
    assert_eq!(v, vec![4, 5, 6]);
}

#[test]
fn leaf_encoding_matches_the_rlp_string_encoder() {
    // The two strings of the record are ordinary byte-string encodings; the
    // record header carries the key's compact-form length (here 2).
    let key = vec![1u8, 2, 3];
    let value = vec![4u8, 5, 6];
    let mut expected = vec![0xc2u8];
    expected.extend_from_slice(&rlp::encode(&key));
    expected.extend_from_slice(&rlp::encode(&value));
    assert_eq!(encode_leaf_record(&key, &value), expected);
}
