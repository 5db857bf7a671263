//! The Merkleizer on bare chunk sequences: virtual zero padding, the
//! cached node table, and branch extraction.

use ssz_multiproof::chunk::{u64_le_bytes, Chunk};
use ssz_multiproof::hashing::hash_nodes;
use ssz_multiproof::merkle::{merkleize, verify_branch};

fn leaf(x: u64) -> Chunk {
    Chunk::from_padded_bytes(&u64_le_bytes(x, 8))
}

#[test]
fn depth_zero_single_leaf_is_its_own_root() {
    let tree = merkleize(vec![leaf(77)], 0);
    assert_eq!(tree.root().bytes, leaf(77).bytes);
}

#[test]
fn three_leaves_at_depth_two_pad_with_a_zero_chunk() {
    let tree = merkleize(vec![leaf(1), leaf(2), leaf(3)], 2);
    let zero = Chunk::zero();
    let n0 = hash_nodes(&leaf(1), &leaf(2));
    let n1 = hash_nodes(&leaf(3), &zero);
    let manual = hash_nodes(&n0, &n1);
    assert_eq!(tree.root().bytes, manual.bytes);
}

#[test]
fn empty_tree_root_is_the_zero_subtree() {
    // No leaves at depth 2: every node is an all-zero subtree root.
    let tree = merkleize(vec![], 2);
    let zero = Chunk::zero();
    let z1 = hash_nodes(&zero, &zero);
    let z2 = hash_nodes(&z1, &z1);
    assert_eq!(tree.root().bytes, z2.bytes);
}

#[test]
fn capacity_depth_far_beyond_the_data() {
    // One real leaf in a tree sized for 2^20: the virtual padding never
    // materializes, and the branch is one zero-subtree root per level.
    let tree = merkleize(vec![leaf(42)], 20);
    let root = tree.root();
    let branch = tree.extract_branch(0);
    assert_eq!(branch.len(), 20);
    let mut expected_sib = Chunk::zero();
    let mut cur = leaf(42);
    for k in 0..20 {
        assert_eq!(branch[k].bytes, expected_sib.bytes);
        cur = hash_nodes(&cur, &expected_sib);
        expected_sib = hash_nodes(&expected_sib, &expected_sib);
    }
    assert_eq!(root.bytes, cur.bytes);
}

#[test]
fn every_leaf_branch_verifies() {
    let leaves: Vec<Chunk> = (1..=5u64).map(leaf).collect();
    let tree = merkleize(leaves, 3);
    let root = tree.root();
    for i in 0..8u64 {
        let witness = tree.leaf(i);
        let branch = tree.extract_branch(i);
        assert_eq!(branch.len(), 3);
        assert!(verify_branch(&witness, &branch, 8 + i, &root));
        if i < 5 {
            // A distinct, nonzero leaf cannot pass at a neighbouring
            // position.
            assert!(!verify_branch(&witness, &branch, 8 + ((i + 1) % 8), &root));
        }
    }
}

#[test]
fn padded_leaves_read_back_as_zero() {
    let tree = merkleize(vec![leaf(9)], 2);
    assert_eq!(tree.leaf(0).bytes, leaf(9).bytes);
    assert_eq!(tree.leaf(1).bytes, Chunk::zero().bytes);
    assert_eq!(tree.leaf(3).bytes, Chunk::zero().bytes);
}
