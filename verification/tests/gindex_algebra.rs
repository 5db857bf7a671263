//! The generalized-index algebra: floors, composition, and the
//! identity law on concrete values.

use ssz_multiproof::gindex::{
    ceil_log2_u64, concat_gindex, concat_generalized_indices, floor_power_of_two, pow2_u64,
};

#[test]
fn floor_power_of_two_values() {
    assert_eq!(floor_power_of_two(0), 0);
    assert_eq!(floor_power_of_two(1), 1);
    assert_eq!(floor_power_of_two(2), 2);
    assert_eq!(floor_power_of_two(3), 2);
    assert_eq!(floor_power_of_two(43), 32);
    assert_eq!(floor_power_of_two(1024), 1024);
    assert_eq!(floor_power_of_two(u64::MAX), 1u64 << 63);
}

#[test]
fn ceil_log2_values() {
    assert_eq!(ceil_log2_u64(0), 0);
    assert_eq!(ceil_log2_u64(1), 0);
    assert_eq!(ceil_log2_u64(2), 1);
    assert_eq!(ceil_log2_u64(3), 2);
    assert_eq!(ceil_log2_u64(4), 2);
    assert_eq!(ceil_log2_u64(5), 3);
    assert_eq!(ceil_log2_u64(1 << 40), 40);
}

#[test]
fn pow2_values() {
    assert_eq!(pow2_u64(0), 1);
    assert_eq!(pow2_u64(1), 2);
    assert_eq!(pow2_u64(40), 1 << 40);
}

#[test]
fn concat_replaces_the_leading_bit() {
    // Leaf 5 of a subtree rooted at node 11: 11 * 4 + (5 - 4) == 45.
    assert_eq!(concat_gindex(11, 5), 45);
    // Chaining a state-tree leaf and a deep validator index, as when a
    // proof reaches through header, state, and registry trees.
    let depth: u32 = 40;
    let validator_index: u64 = 465789;
    let g = (1u64 << (depth + 1)) + validator_index;
    let folded = concat_generalized_indices(&vec![11, 43, g]).unwrap();
    let step = concat_gindex(11, 43);
    assert_eq!(folded, concat_gindex(step, g));
}

#[test]
fn concat_with_the_subtree_root_is_identity() {
    for p in [1u64, 2, 3, 11, 43, 1 << 40, u64::MAX] {
        assert_eq!(concat_gindex(p, 1), p);
        assert_eq!(concat_generalized_indices(&vec![p, 1]).unwrap(), p);
    }
}

#[test]
fn concat_rejects_zero_and_overflow() {
    assert_eq!(concat_generalized_indices(&vec![11, 0]), None);
    assert_eq!(concat_generalized_indices(&vec![u64::MAX, u64::MAX]), None);
    assert_eq!(concat_generalized_indices(&vec![]), Some(1));
}
