use ckb_merkle_mountain_range::Merge;
use mmr_verifier::baseline;
use mmr_verifier::compiled::{Blake2bHash, VariableBytes};
use mmr_verifier::generator::bind;
use mmr_verifier::hash::{same_bytes, HASH_LEN};

const BLANK_HASH: [u8; 32] = [
    68, 244, 198, 151, 68, 213, 248, 197, 93, 100, 32, 98, 148, 157, 202, 228, 155, 196, 231, 239,
    67, 211, 136, 197, 161, 47, 66, 181, 99, 61, 22, 62,
];

fn reference_digest(parts: &[&[u8]]) -> [u8; 32] {
    let mut hasher = blake2b_rs::Blake2bBuilder::new(32).personal(b"ckb-default-hash").build();
    for part in parts {
        hasher.update(part);
    }
    let mut out = [0u8; 32];
    hasher.finalize(&mut out);
    out
}

#[test]
fn merging_two_empty_items_gives_the_digest_of_nothing() {
    let empty = VariableBytes::Dynamic(Vec::new());
    let parent = Blake2bHash::merge(&empty, &empty).unwrap();
    assert_eq!(parent, VariableBytes::Hash(Box::new(BLANK_HASH)));
    assert_eq!(parent.as_bytes().len(), HASH_LEN);
}

#[test]
fn merge_hashes_left_bytes_then_right_bytes() {
    let left = VariableBytes::Dynamic(vec![1, 2, 3]);
    let right = VariableBytes::Hash(Box::new([7; 32]));
    let parent = Blake2bHash::merge(&left, &right).unwrap();
    assert!(matches!(parent, VariableBytes::Hash(_)));
    assert_eq!(parent.as_bytes(), &reference_digest(&[&[1, 2, 3], &[7; 32]]));
    let mut joined = vec![1u8, 2, 3];
    joined.extend([7u8; 32]);
    assert_eq!(parent.as_bytes(), &ckb_hash::blake2b_256(&joined));
}

#[test]
fn merge_depends_on_the_order_of_its_operands() {
    let a = VariableBytes::Dynamic(vec![1; 32]);
    let b = VariableBytes::Dynamic(vec![2; 32]);
    let ab = Blake2bHash::merge(&a, &b).unwrap();
    let ba = Blake2bHash::merge(&b, &a).unwrap();
    assert_ne!(ab, ba);
    assert_ne!(ab.as_bytes(), a.as_bytes());
}

#[test]
fn merge_is_not_associative() {
    let a = VariableBytes::Dynamic(vec![1; 32]);
    let b = VariableBytes::Dynamic(vec![2; 32]);
    let c = VariableBytes::Dynamic(vec![3; 32]);
    let left_first = Blake2bHash::merge(&Blake2bHash::merge(&a, &b).unwrap(), &c).unwrap();
    let right_first = Blake2bHash::merge(&a, &Blake2bHash::merge(&b, &c).unwrap()).unwrap();
    assert_ne!(left_first, right_first);
}

#[test]
fn merge_looks_at_bytes_and_not_at_how_they_are_held() {
    let as_leaf = VariableBytes::Dynamic(vec![5; 32]);
    let as_digest = VariableBytes::Hash(Box::new([5; 32]));
    let other = VariableBytes::Dynamic(vec![6]);
    assert_eq!(
        Blake2bHash::merge(&as_leaf, &other).unwrap(),
        Blake2bHash::merge(&as_digest, &other).unwrap()
    );
}

#[test]
fn both_strategies_merge_to_the_same_digest() {
    let left = [1u8, 2, 3];
    let right = [4u8; 40];
    let borrowed = baseline::Blake2bHash::merge(
        &baseline::VariableBytes::Dynamic(&left),
        &baseline::VariableBytes::Dynamic(&right),
    )
    .unwrap();
    let owned = Blake2bHash::merge(
        &VariableBytes::Dynamic(left.to_vec()),
        &VariableBytes::Dynamic(right.to_vec()),
    )
    .unwrap();
    assert!(matches!(borrowed, baseline::VariableBytes::Hash(_)));
    assert_eq!(borrowed.as_bytes(), owned.as_bytes());
    assert_eq!(owned.as_bytes(), &reference_digest(&[&left, &right]));
}

#[test]
fn same_bytes_compares_length_and_content() {
    assert!(same_bytes(&[], &[]));
    assert!(same_bytes(&[1, 2, 3], &[1, 2, 3]));
    assert!(!same_bytes(&[1, 2, 3], &[1, 2]));
    assert!(!same_bytes(&[1, 2], &[1, 2, 3]));
    assert!(!same_bytes(&[1, 2, 3], &[1, 2, 4]));
    assert!(!same_bytes(&[0, 2, 3], &[1, 2, 3]));
}

#[test]
fn a_verifier_is_bound_by_the_hash_of_its_binary() {
    let empty = bind(Vec::new());
    assert_eq!(empty.code_hash, BLANK_HASH);
    assert!(empty.binary.is_empty());
    let binary = b"\x7fELF verifier".to_vec();
    let bound = bind(binary.clone());
    assert_eq!(bound.code_hash, reference_digest(&[&binary]));
    assert_eq!(bound.code_hash, ckb_hash::blake2b_256(&binary));
    assert_eq!(bound.binary, binary);
}
