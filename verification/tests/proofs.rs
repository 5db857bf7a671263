//! Proof generation and verification: round trips, the concrete
//! header scenario, bit-flip rejection, and multi-proof minimality.

use ssz_multiproof::chunk::{u64_le_bytes, Chunk};
use ssz_multiproof::hashing::hash_nodes;
use ssz_multiproof::merkle::verify_branch;
use ssz_multiproof::multiproof::verify_multi;
use ssz_multiproof::typed::{MerkleError, TypedValue};

fn chunk_of_u64(x: u64) -> Chunk {
    Chunk::from_padded_bytes(&u64_le_bytes(x, 8))
}

fn bytes32(last: u8) -> Vec<u8> {
    let mut v = vec![0u8; 32];
    v[31] = last;
    v
}

fn four_field_header() -> TypedValue {
    TypedValue::Container {
        fields: vec![
            TypedValue::uint64(9496284),
            TypedValue::uint64(465789),
            TypedValue::Bytes { bytes: bytes32(1) },
            TypedValue::Bytes { bytes: bytes32(2) },
        ],
    }
}

fn block_like() -> TypedValue {
    // A nested shape in the spirit of a block: header scalars, then a
    // body with a payload holding a fee recipient, a timestamp, and a
    // list of variable-length transactions.
    let tx0 = TypedValue::ByteList { bytes: vec![0xAA, 0xBB, 0xCC], limit: 1024 };
    let tx1 = TypedValue::ByteList { bytes: vec![0x01; 40], limit: 1024 };
    let payload = TypedValue::Container {
        fields: vec![
            TypedValue::Bytes { bytes: vec![0x11; 20] },
            TypedValue::uint64(1718573135),
            TypedValue::List { elems: vec![tx0, tx1], limit: 1048576 },
        ],
    };
    let body = TypedValue::Container {
        fields: vec![TypedValue::Bytes { bytes: vec![0x22; 96] }, payload],
    };
    TypedValue::Container {
        fields: vec![
            TypedValue::uint64(9496284),
            TypedValue::uint64(465789),
            TypedValue::Bytes { bytes: bytes32(1) },
            TypedValue::Bytes { bytes: bytes32(2) },
            body,
        ],
    }
}

#[test]
fn header_scenario_proof() {
    // Leaf index 1 of a 4-leaf tree: gindex 4 + 1 == 5; the two
    // siblings are the slot chunk and the hash of the two roots.
    let header = four_field_header();
    let root = header.hash_tree_root().unwrap();
    let proof = header.prove(&vec![1]).unwrap();
    assert_eq!(proof.gindex, 5);
    assert_eq!(proof.leaf.bytes, chunk_of_u64(465789).bytes);
    assert_eq!(proof.branch.len(), 2);
    assert_eq!(proof.branch[0].bytes, chunk_of_u64(9496284).bytes);
    let right = hash_nodes(&Chunk { bytes: bytes32(1) }, &Chunk { bytes: bytes32(2) });
    assert_eq!(proof.branch[1].bytes, right.bytes);
    assert!(verify_branch(&proof.leaf, &proof.branch, proof.gindex, &root));
}

#[test]
fn round_trip_every_header_field() {
    let header = four_field_header();
    let root = header.hash_tree_root().unwrap();
    for sel in 0..4u64 {
        let proof = header.prove(&vec![sel]).unwrap();
        assert_eq!(proof.gindex, 4 + sel);
        assert!(verify_branch(&proof.leaf, &proof.branch, proof.gindex, &root));
    }
}

#[test]
fn round_trip_through_nested_trees() {
    // A transaction chunk four tree boundaries deep: block -> body ->
    // payload -> transactions list -> transaction bytes.
    let block = block_like();
    let root = block.hash_tree_root().unwrap();
    let paths: Vec<Vec<u64>> = vec![
        vec![0],
        vec![4, 1, 0],
        vec![4, 1, 2, 1],
        vec![4, 1, 2, 0, 0],
        vec![4, 1, 2, 1, 1],
    ];
    for path in paths {
        let proof = block.prove(&path).unwrap();
        assert!(verify_branch(&proof.leaf, &proof.branch, proof.gindex, &root));
    }
}

#[test]
fn empty_path_proves_the_root_itself() {
    let header = four_field_header();
    let root = header.hash_tree_root().unwrap();
    let proof = header.prove(&vec![]).unwrap();
    assert_eq!(proof.gindex, 1);
    assert_eq!(proof.branch.len(), 0);
    assert_eq!(proof.leaf.bytes, root.bytes);
    assert!(verify_branch(&proof.leaf, &proof.branch, proof.gindex, &root));
}

#[test]
fn flipping_a_leaf_bit_breaks_the_proof() {
    let block = block_like();
    let root = block.hash_tree_root().unwrap();
    let proof = block.prove(&vec![4, 1, 1]).unwrap();
    assert!(verify_branch(&proof.leaf, &proof.branch, proof.gindex, &root));
    let mut bad_leaf = proof.leaf.clone();
    bad_leaf.bytes[5] ^= 0x10;
    assert!(!verify_branch(&bad_leaf, &proof.branch, proof.gindex, &root));
}

#[test]
fn flipping_a_sibling_bit_breaks_the_proof() {
    let block = block_like();
    let root = block.hash_tree_root().unwrap();
    let proof = block.prove(&vec![4, 1, 1]).unwrap();
    for k in 0..proof.branch.len() {
        let mut bad = Vec::new();
        for c in proof.branch.iter() {
            bad.push(c.clone());
        }
        bad[k].bytes[0] ^= 0x01;
        assert!(!verify_branch(&proof.leaf, &bad, proof.gindex, &root));
    }
}

#[test]
fn wrong_gindex_or_root_fails() {
    let header = four_field_header();
    let root = header.hash_tree_root().unwrap();
    let proof = header.prove(&vec![2]).unwrap();
    assert!(verify_branch(&proof.leaf, &proof.branch, proof.gindex, &root));
    assert!(!verify_branch(&proof.leaf, &proof.branch, proof.gindex + 1, &root));
    assert!(!verify_branch(&proof.leaf, &proof.branch, 3, &root));
    assert!(!verify_branch(&proof.leaf, &proof.branch, 0, &root));
    let other = Chunk { bytes: bytes32(9) };
    assert!(!verify_branch(&proof.leaf, &proof.branch, proof.gindex, &other));
}

#[test]
fn path_errors_are_reported() {
    let block = block_like();
    // A container field the schema does not have.
    assert_eq!(block.prove(&vec![9]).unwrap_err(), MerkleError::PathNotFound);
    // A list element beyond the live length.
    assert_eq!(block.prove(&vec![4, 1, 2, 7]).unwrap_err(), MerkleError::IndexOutOfRange);
    // Descending into a scalar.
    assert_eq!(block.prove(&vec![0, 0, 0]).unwrap_err(), MerkleError::PathNotFound);
}

#[test]
fn sibling_pair_multiproof_is_minimal() {
    // Proving fields 2 and 3 — the two children of node 3 — needs no
    // helper below their shared parent: only node 2, the sibling of
    // the parent on its way to the root.
    let header = four_field_header();
    let root = header.hash_tree_root().unwrap();
    let mp = header.multi_prove(&vec![vec![2], vec![3]]).unwrap();
    assert_eq!(mp.gindices, vec![7, 6]);
    assert_eq!(mp.siblings.len(), 1);
    let node2 = hash_nodes(&chunk_of_u64(9496284), &chunk_of_u64(465789));
    assert_eq!(mp.siblings[0].bytes, node2.bytes);
    assert!(verify_multi(&mp.leaves, &mp.siblings, &mp.gindices, &root));
}

#[test]
fn multiproof_round_trip_across_nesting() {
    let block = block_like();
    let root = block.hash_tree_root().unwrap();
    let mp = block
        .multi_prove(&vec![vec![1], vec![4, 1, 0], vec![4, 1, 2, 0, 0]])
        .unwrap();
    assert_eq!(mp.leaves.len(), 3);
    assert!(verify_multi(&mp.leaves, &mp.siblings, &mp.gindices, &root));
    // Tampering with any part must be caught.
    let mut bad_leaves = Vec::new();
    for c in mp.leaves.iter() {
        bad_leaves.push(c.clone());
    }
    bad_leaves[1].bytes[3] ^= 0x40;
    assert!(!verify_multi(&bad_leaves, &mp.siblings, &mp.gindices, &root));
    let mut bad_sibs = Vec::new();
    for c in mp.siblings.iter() {
        bad_sibs.push(c.clone());
    }
    bad_sibs[0].bytes[0] ^= 0x01;
    assert!(!verify_multi(&mp.leaves, &bad_sibs, &mp.gindices, &root));
}

#[test]
fn multiproof_shares_the_root_check() {
    // A multi-proof over one path agrees with the single verifier.
    let header = four_field_header();
    let root = header.hash_tree_root().unwrap();
    let single = header.prove(&vec![3]).unwrap();
    let mp = header.multi_prove(&vec![vec![3]]).unwrap();
    assert_eq!(mp.gindices, vec![single.gindex]);
    assert_eq!(mp.leaves[0].bytes, single.leaf.bytes);
    assert_eq!(mp.siblings.len(), single.branch.len());
    assert!(verify_multi(&mp.leaves, &mp.siblings, &mp.gindices, &root));
}

#[test]
fn multiproof_errors_match_single_proofs() {
    let block = block_like();
    assert_eq!(
        block.multi_prove(&vec![vec![0], vec![9]]).unwrap_err(),
        MerkleError::PathNotFound
    );
    assert_eq!(
        block.multi_prove(&vec![vec![4, 1, 2, 9]]).unwrap_err(),
        MerkleError::IndexOutOfRange
    );
    let bad = TypedValue::Container { fields: vec![] };
    assert_eq!(
        bad.multi_prove(&vec![vec![0]]).unwrap_err(),
        MerkleError::SchemaViolation
    );
}
