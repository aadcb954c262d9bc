use merkle_tree::{MerkleTree, LEAF_TAG, NODE_TAG};
use sha2::{Digest, Sha256};

type Tree = MerkleTree<32, 64>;

#[test]
fn add() {
    let mut tree = Tree::new();

    assert!(tree.add(&[0x01]).is_ok());
    assert!(tree.add(&[0x02]).is_ok());
    assert!(tree.add(&[0x03]).is_ok());
    assert!(tree.add(&[0x04]).is_ok());
    assert!(tree.add(&[0x05]).is_ok());

    let root = tree.root().unwrap();
    let proof = tree.create_proof(&[0x04]).unwrap();

    assert!(Tree::verify_proof(&[0x04], &proof, &root));
}

#[test]
fn every_appended_leaf_has_a_verifying_proof() {
    for count in 1u8..=8 {
        let mut tree = Tree::new();
        for i in 0..count {
            assert!(tree.add(&[i, i + 1]).is_ok());
        }
        let root = tree.root().unwrap();
        for i in 0..count {
            let proof = tree.create_proof(&[i, i + 1]).unwrap();
            assert!(Tree::verify_proof(&[i, i + 1], &proof, &root));
        }
    }
}

#[test]
fn proof_absent_for_unappended_data() {
    let mut tree = Tree::new();
    assert!(tree.create_proof(&[0x99]).is_none());
    assert!(tree.add(&[0x01]).is_ok());
    assert!(tree.add(&[0x02]).is_ok());
    assert!(tree.add(&[0x03]).is_ok());
    assert!(tree.create_proof(&[0x99]).is_none());
    assert!(tree.create_proof(&[]).is_none());
}

#[test]
fn root_of_empty_tree_is_absent() {
    let tree = Tree::new();
    assert!(tree.root().is_none());
}

#[test]
fn root_after_one_append_is_the_tagged_leaf_hash() {
    let mut tree = Tree::new();
    assert!(tree.add(&[0xab, 0xcd]).is_ok());
    let root = tree.root().unwrap();
    assert_eq!(root, Tree::tag_hash(LEAF_TAG, &[0xab, 0xcd]));
}

#[test]
fn root_matches_directly_computed_digest() {
    // the root of a one-leaf tree, recomputed with the digest alone:
    // sha256(tag block of thirty-two 0x01 bytes ++ sha256(payload))
    let mut tree = Tree::new();
    assert!(tree.add(&[0xab]).is_ok());
    let mut buf: Vec<u8> = vec![1u8; 32];
    buf.extend_from_slice(&Sha256::digest([0xabu8]));
    let expected = Sha256::digest(&buf).to_vec();
    assert_eq!(tree.root().unwrap(), expected);
}

#[test]
fn mutated_leaf_fails_verification() {
    let mut tree = Tree::new();
    for i in 0u8..5 {
        assert!(tree.add(&[0x10, 0x20 + i, 0x30]).is_ok());
    }
    let root = tree.root().unwrap();
    let payload: [u8; 3] = [0x10, 0x22, 0x30];
    let proof = tree.create_proof(&payload).unwrap();
    assert!(Tree::verify_proof(&payload, &proof, &root));
    for byte in 0..payload.len() {
        for flip in [0x01u8, 0x02, 0x80, 0xff] {
            let mut tampered = payload;
            tampered[byte] = tampered[byte].wrapping_add(flip);
            assert!(!Tree::verify_proof(&tampered, &proof, &root));
        }
    }
}

#[test]
fn foreign_root_fails_verification() {
    let mut tree = Tree::new();
    for i in 0u8..5 {
        assert!(tree.add(&[i]).is_ok());
    }
    let root = tree.root().unwrap();
    let proof = tree.create_proof(&[0x03]).unwrap();
    assert!(Tree::verify_proof(&[0x03], &proof, &root));

    // a valid root of a different tree state
    let mut other = Tree::new();
    for i in 0u8..4 {
        assert!(other.add(&[i]).is_ok());
    }
    let other_root = other.root().unwrap();
    assert_ne!(root, other_root);
    assert!(!Tree::verify_proof(&[0x03], &proof, &other_root));
}

#[test]
fn leaf_order_changes_the_root() {
    let a: [u8; 2] = [0x0a, 0x01];
    let b: [u8; 2] = [0x0b, 0x02];
    let c: [u8; 2] = [0x0c, 0x03];

    let mut first = Tree::new();
    assert!(first.add(&a).is_ok());
    assert!(first.add(&b).is_ok());
    assert!(first.add(&c).is_ok());

    let mut second = Tree::new();
    assert!(second.add(&b).is_ok());
    assert!(second.add(&a).is_ok());
    assert!(second.add(&c).is_ok());

    assert_ne!(first.root().unwrap(), second.root().unwrap());
}

#[test]
fn five_single_byte_payload_scenario() {
    let mut tree = Tree::new();
    assert!(tree.add(&[0x01]).is_ok());
    assert!(tree.add(&[0x02]).is_ok());
    assert!(tree.add(&[0x03]).is_ok());
    assert!(tree.add(&[0x04]).is_ok());
    assert!(tree.add(&[0x05]).is_ok());

    let root = tree.root().unwrap();
    let proof = tree.create_proof(&[0x04]).unwrap();
    assert!(Tree::verify_proof(&[0x04], &proof, &root));
    assert!(!Tree::verify_proof(&[0x06], &proof, &root));
}

#[test]
fn domain_separation_of_tag_blocks() {
    assert_ne!(LEAF_TAG, NODE_TAG);
    assert_ne!(vec![LEAF_TAG; 32], vec![NODE_TAG; 32]);
    // no single-byte payload collides across the two domains
    for payload in 0u8..=255 {
        assert_ne!(
            Tree::tag_hash(LEAF_TAG, &[payload]),
            Tree::tag_hash(NODE_TAG, &[payload]),
        );
    }
}

#[test]
fn larger_trees_round_trip() {
    let mut tree = Tree::new();
    let mut payloads: Vec<Vec<u8>> = Vec::new();
    for i in 0u8..33 {
        let payload: Vec<u8> = vec![i, 0xf0, i.wrapping_mul(7)];
        assert!(tree.add(&payload).is_ok());
        payloads.push(payload);
    }
    let root = tree.root().unwrap();
    assert_eq!(root.len(), 32);
    for payload in &payloads {
        let proof = tree.create_proof(payload).unwrap();
        assert!(Tree::verify_proof(payload, &proof, &root));
    }
}

#[test]
fn identical_append_sequences_agree() {
    let mut first = Tree::new();
    let mut second = Tree::new();
    for i in 0u8..7 {
        assert!(first.add(&[i, 0x5a]).is_ok());
        assert!(second.add(&[i, 0x5a]).is_ok());
    }
    assert_eq!(first.root().unwrap(), second.root().unwrap());
    let proof = first.create_proof(&[0x03, 0x5a]).unwrap();
    assert!(Tree::verify_proof(&[0x03, 0x5a], &proof, &second.root().unwrap()));
}

#[test]
fn default_tree_is_empty() {
    let tree = Tree::default();
    assert!(tree.root().is_none());
    assert!(tree.create_proof(&[0x01]).is_none());
}
