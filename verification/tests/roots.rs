//! Hash-tree-root behaviour: packing, determinism, single-field
//! containers, and length mixing.

use ssz_multiproof::chunk::{pack_bytes, u64_le_bytes, Chunk};
use ssz_multiproof::hashing::hash_nodes;
use ssz_multiproof::merkle::mix_in_length;
use ssz_multiproof::typed::{MerkleError, TypedValue};

fn chunk_of_u64(x: u64) -> Chunk {
    Chunk::from_padded_bytes(&u64_le_bytes(x, 8))
}

fn bytes32(last: u8) -> Vec<u8> {
    let mut v = vec![0u8; 32];
    v[31] = last;
    v
}

fn four_field_header() -> TypedValue {
    TypedValue::Container {
        fields: vec![
            TypedValue::uint64(9496284),
            TypedValue::uint64(465789),
            TypedValue::Bytes { bytes: bytes32(1) },
            TypedValue::Bytes { bytes: bytes32(2) },
        ],
    }
}

#[test]
fn root_is_deterministic() {
    let a = four_field_header().hash_tree_root().unwrap();
    let b = four_field_header().hash_tree_root().unwrap();
    assert_eq!(a.bytes, b.bytes);
    let c = four_field_header();
    let first = c.hash_tree_root().unwrap();
    let second = c.hash_tree_root().unwrap();
    assert_eq!(first.bytes, second.bytes);
}

#[test]
fn four_field_container_root_matches_manual_tree() {
    // Four leaves at depth 2, no padding: the root is the hash of the
    // two level-1 nodes.
    let root = four_field_header().hash_tree_root().unwrap();
    let l0 = chunk_of_u64(9496284);
    let l1 = chunk_of_u64(465789);
    let l2 = Chunk { bytes: bytes32(1) };
    let l3 = Chunk { bytes: bytes32(2) };
    let n0 = hash_nodes(&l0, &l1);
    let n1 = hash_nodes(&l2, &l3);
    let manual = hash_nodes(&n0, &n1);
    assert_eq!(root.bytes, manual.bytes);
}

#[test]
fn hash_wrapper_is_a_real_digest() {
    // SHA-256 of 64 zero bytes: the first rung of the well-known
    // zero-hash ladder.  This fails if the wrapper returns its input.
    let z = Chunk::zero();
    let h = hash_nodes(&z, &z);
    let expected = hex::decode("f5a5fd42d16a20302798ef6ed309979b43003d2320d9f0e8ea9831a92759fb4b")
        .unwrap();
    assert_eq!(h.bytes, expected);
    assert_ne!(h.bytes, z.bytes);
}

#[test]
fn single_field_container_has_field_root() {
    let field = TypedValue::Bytes { bytes: bytes32(7) };
    let field_root = field.hash_tree_root().unwrap();
    let container = TypedValue::Container { fields: vec![TypedValue::Bytes { bytes: bytes32(7) }] };
    let root = container.hash_tree_root().unwrap();
    assert_eq!(root.bytes, field_root.bytes);
}

#[test]
fn uint64_root_is_padded_chunk() {
    let v = TypedValue::uint64(0xDEADBEEF);
    let root = v.hash_tree_root().unwrap();
    assert_eq!(root.bytes, chunk_of_u64(0xDEADBEEF).bytes);
}

#[test]
fn boolean_roots_differ() {
    let t = TypedValue::boolean(true).hash_tree_root().unwrap();
    let f = TypedValue::boolean(false).hash_tree_root().unwrap();
    assert_eq!(t.bytes[0], 1);
    assert_eq!(f.bytes[0], 0);
    assert_ne!(t.bytes, f.bytes);
}

#[test]
fn byte_list_root_mixes_length() {
    // Content root at capacity depth, then one extra hash with the
    // little-endian length chunk.
    let v = TypedValue::ByteList { bytes: vec![1, 2, 3], limit: 16 };
    let root = v.hash_tree_root().unwrap();
    let content = pack_bytes(&vec![1u8, 2, 3]).remove(0);
    let manual = mix_in_length(&content, 3);
    assert_eq!(root.bytes, manual.bytes);
}

#[test]
fn lists_with_padded_content_but_different_lengths_differ() {
    // Zero padding makes the content trees identical; only the mixed-in
    // length separates the roots.
    let a = TypedValue::ByteList { bytes: vec![1, 2, 3], limit: 64 };
    let b = TypedValue::ByteList { bytes: vec![1, 2, 3, 0], limit: 64 };
    let ra = a.hash_tree_root().unwrap();
    let rb = b.hash_tree_root().unwrap();
    assert_ne!(ra.bytes, rb.bytes);
}

#[test]
fn bitlist_packs_with_sentinel_and_mixes_length() {
    // Bits 1,0,1 plus the sentinel at position 3: one byte 0b1101 = 13,
    // one chunk, then the length 3 is mixed in.
    let v = TypedValue::Bitlist { bits: vec![true, false, true], limit: 10 };
    let root = v.hash_tree_root().unwrap();
    let content = pack_bytes(&vec![13u8]).remove(0);
    let manual = mix_in_length(&content, 3);
    assert_eq!(root.bytes, manual.bytes);
}

#[test]
fn bitvector_packs_without_sentinel() {
    // Bits 1,0,1 alone: one byte 0b101 = 5, one chunk, no mixing.
    let v = TypedValue::Bitvector { bits: vec![true, false, true] };
    let root = v.hash_tree_root().unwrap();
    let manual = pack_bytes(&vec![5u8]).remove(0);
    assert_eq!(root.bytes, manual.bytes);
}

#[test]
fn list_of_containers_root() {
    // One element: content tree of capacity 4 (depth 2), three zero
    // subtrees, then length mixing.
    let elem = || TypedValue::Container { fields: vec![TypedValue::uint64(5)] };
    let v = TypedValue::List { elems: vec![elem()], limit: 4 };
    let root = v.hash_tree_root().unwrap();
    let leaf = elem().hash_tree_root().unwrap();
    let zero = Chunk::zero();
    let z1 = hash_nodes(&zero, &zero);
    let n0 = hash_nodes(&leaf, &zero);
    let content = hash_nodes(&n0, &z1);
    let manual = mix_in_length(&content, 1);
    assert_eq!(root.bytes, manual.bytes);
}

#[test]
fn over_capacity_list_is_rejected() {
    let v = TypedValue::List {
        elems: vec![TypedValue::uint64(1), TypedValue::uint64(2), TypedValue::uint64(3)],
        limit: 2,
    };
    assert_eq!(v.hash_tree_root().unwrap_err(), MerkleError::SchemaViolation);
}

#[test]
fn over_capacity_bitlist_is_rejected() {
    let v = TypedValue::Bitlist { bits: vec![true; 5], limit: 4 };
    assert_eq!(v.hash_tree_root().unwrap_err(), MerkleError::SchemaViolation);
}

#[test]
fn empty_container_is_rejected() {
    let v = TypedValue::Container { fields: vec![] };
    assert_eq!(v.hash_tree_root().unwrap_err(), MerkleError::SchemaViolation);
}
