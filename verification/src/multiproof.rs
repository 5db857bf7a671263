//! Proof generation and verification over typed values.
//!
//! A path — a sequence of selectors, one per nesting level — names a
//! chunk of a value's tree: a container field, a vector or list element,
//! or a chunk of packed data.  `prove` resolves the path to a
//! generalized index, walks the cached node tables for the sibling
//! values, and composes indices across every nested tree boundary, so
//! that one `verify_branch` call against the outermost root checks the
//! whole chain.

use crate::chunk::{all_wf, chunk_views, length_chunk, Chunk};
use crate::gindex::{
    concat_gindex_checked, concat_gindex_spec, gindex_depth, lemma_ceil_log2_le,
    lemma_concat_depth, lemma_concat_ge_inner, lemma_concat_identity, lemma_div_pow2_one,
    lemma_gindex_depth_bounds, lemma_gindex_depth_of_range, pow2_u64,
};
use crate::hashing::{hash2, hash_nodes};
use crate::merkle::{
    lemma_basic_div_is_identity, lemma_restore_from_tree, lemma_restore_parity,
    lemma_restore_snoc, restore_root, subtree_root,
};
use crate::typed::{
    content_depth, is_variable, lemma_roots_of, live_length, root_of, valid, value_chunks,
    MerkleError, TypedValue, MAX_LIMIT,
};
use vstd::arithmetic::div_mod::{
    lemma_basic_div, lemma_div_denominator, lemma_div_is_ordered, lemma_hoist_over_denominator,
    lemma_mod_multiples_vanish,
};
use vstd::arithmetic::power2::{
    lemma2_to64, lemma2_to64_rest, lemma_pow2_adds, lemma_pow2_pos, lemma_pow2_strictly_increases,
    lemma_pow2_unfold, pow2,
};
use vstd::prelude::*;

verus! {

/// The number of chunks the value's live data occupies in its content
/// tree.
pub open spec fn live_chunk_count(v: TypedValue) -> nat {
    match v {
        TypedValue::Bytes { bytes } => (bytes@.len() + 31) as nat / 32,
        TypedValue::ByteList { bytes, .. } => (bytes@.len() + 31) as nat / 32,
        TypedValue::Bitvector { bits } => ((bits@.len() + 7) as nat / 8 + 31) / 32,
        TypedValue::Bitlist { bits, .. } => ((bits@.len() + 1 + 7) as nat / 8 + 31) / 32,
        TypedValue::Vector { elems } => elems@.len(),
        TypedValue::List { elems, .. } => elems@.len(),
        TypedValue::Container { fields } => fields@.len(),
    }
}

/// The live chunks are the content-tree leaves, and they fit the
/// content depth.
pub proof fn lemma_chunks_fit(v: TypedValue)
    requires
        valid(v),
    ensures
        value_chunks(v).len() == live_chunk_count(v),
        live_chunk_count(v) <= pow2(content_depth(v)),
{
    crate::gindex::lemma_ceil_log2_bound(live_chunk_count(v));
    match v {
        TypedValue::Bytes { bytes } => {},
        TypedValue::ByteList { bytes, limit } => {
            lemma_div_is_ordered((bytes@.len() + 31) as int, (limit + 31) as int, 32);
            crate::gindex::lemma_ceil_log2_bound(((limit as nat) + 31) / 32);
            crate::gindex::lemma_ceil_log2_monotone(
                (bytes@.len() + 31) as nat / 32,
                ((limit as nat) + 31) / 32,
            );
        },
        TypedValue::Bitvector { bits } => {},
        TypedValue::Bitlist { bits, limit } => {
            lemma_div_is_ordered((bits@.len() + 1 + 7) as int, (limit + 1 + 7) as int, 8);
            lemma_div_is_ordered(
                ((bits@.len() + 1 + 7) as nat / 8 + 31) as int,
                (((limit as nat) + 1 + 7) / 8 + 31) as int,
                32,
            );
            crate::gindex::lemma_ceil_log2_bound((((limit as nat) + 1 + 7) / 8 + 31) / 32);
            crate::gindex::lemma_ceil_log2_monotone(
                ((bits@.len() + 1 + 7) as nat / 8 + 31) / 32,
                (((limit as nat) + 1 + 7) / 8 + 31) / 32,
            );
        },
        TypedValue::Vector { elems } => {
            lemma_roots_of(elems@);
        },
        TypedValue::List { elems, limit } => {
            lemma_roots_of(elems@);
            crate::gindex::lemma_ceil_log2_bound(limit as nat);
            crate::gindex::lemma_ceil_log2_monotone(elems@.len(), limit as nat);
        },
        TypedValue::Container { fields } => {
            lemma_roots_of(fields@);
        },
    }
}

/// The content depth of a schema-respecting value leaves the composed
/// index room in 64 bits.
pub proof fn lemma_depth_bound(v: TypedValue)
    requires
        valid(v),
    ensures
        content_depth(v) <= 61,
        pow2(content_depth(v)) <= u64::MAX,
        pow2(content_depth(v) + 1) <= u64::MAX,
        pow2(content_depth(v) + 2) <= u64::MAX,
{
    lemma2_to64();
    lemma2_to64_rest();
    let d = content_depth(v);
    match v {
        TypedValue::Bytes { bytes } => {
            lemma_div_is_ordered((bytes@.len() + 31) as int, 0xFFFFFFFFFFFFFFFEu64 as int, 32);
            lemma_ceil_log2_le((bytes@.len() + 31) as nat / 32, 61);
        },
        TypedValue::ByteList { bytes, limit } => {
            lemma_div_is_ordered((limit + 31) as int, (MAX_LIMIT + 31) as int, 32);
            lemma_ceil_log2_le(((limit as nat) + 31) / 32, 61);
        },
        TypedValue::Bitvector { bits } => {
            lemma_div_is_ordered((bits@.len() + 7) as int, 0xFFFFFFFFFFFFFFFEu64 as int, 8);
            lemma_div_is_ordered(
                ((bits@.len() + 7) as nat / 8 + 31) as int,
                0xFFFFFFFFFFFFFFFEu64 as int,
                32,
            );
            lemma_ceil_log2_le(((bits@.len() + 7) as nat / 8 + 31) / 32, 61);
        },
        TypedValue::Bitlist { bits, limit } => {
            lemma_div_is_ordered((limit + 1 + 7) as int, (MAX_LIMIT + 8) as int, 8);
            lemma_div_is_ordered(
                (((limit as nat) + 1 + 7) / 8 + 31) as int,
                (((MAX_LIMIT as nat) + 8) / 8 + 31) as int,
                32,
            );
            lemma_ceil_log2_le((((limit as nat) + 1 + 7) / 8 + 31) / 32, 61);
        },
        TypedValue::Vector { elems } => {
            lemma_ceil_log2_le(elems@.len(), 61);
        },
        TypedValue::List { elems, limit } => {
            lemma_ceil_log2_le(limit as nat, 61);
        },
        TypedValue::Container { fields } => {
            lemma_ceil_log2_le(fields@.len(), 61);
        },
    }
    lemma_pow2_strictly_increases(d, 63);
    lemma_pow2_strictly_increases(d + 1, 63);
    if d + 2 < 63 {
        lemma_pow2_strictly_increases(d + 2, 63);
    }
}

/// Whether a path resolves to a node of the value's tree: selectors
/// within the live data, ending at a packed shape's chunk or at any
/// composite node.
pub open spec fn path_valid(v: TypedValue, path: Seq<u64>) -> bool
    decreases v,
{
    if path.len() == 0 {
        true
    } else {
        let sel = path[0] as nat;
        match v {
            TypedValue::Vector { elems } => if sel < elems@.len() {
                path_valid(elems@[sel as int], path.skip(1))
            } else {
                false
            },
            TypedValue::List { elems, .. } => if sel < elems@.len() {
                path_valid(elems@[sel as int], path.skip(1))
            } else {
                false
            },
            TypedValue::Container { fields } => if sel < fields@.len() {
                path_valid(fields@[sel as int], path.skip(1))
            } else {
                false
            },
            _ => path.len() == 1 && sel < live_chunk_count(v),
        }
    }
}

/// The error a non-resolving path earns: `PathNotFound` for a selector
/// the schema has no node for, `IndexOutOfRange` for an index past the
/// live data of a variable-length shape.
pub open spec fn path_error(v: TypedValue, path: Seq<u64>) -> MerkleError
    decreases v,
{
    if path.len() == 0 {
        MerkleError::PathNotFound
    } else {
        let sel = path[0] as nat;
        match v {
            TypedValue::Vector { elems } => if sel < elems@.len() {
                path_error(elems@[sel as int], path.skip(1))
            } else {
                MerkleError::PathNotFound
            },
            TypedValue::List { elems, .. } => if sel < elems@.len() {
                path_error(elems@[sel as int], path.skip(1))
            } else {
                MerkleError::IndexOutOfRange
            },
            TypedValue::Container { fields } => if sel < fields@.len() {
                path_error(fields@[sel as int], path.skip(1))
            } else {
                MerkleError::PathNotFound
            },
            TypedValue::ByteList { .. } => if path.len() > 1 {
                MerkleError::PathNotFound
            } else {
                MerkleError::IndexOutOfRange
            },
            TypedValue::Bitlist { .. } => if path.len() > 1 {
                MerkleError::PathNotFound
            } else {
                MerkleError::IndexOutOfRange
            },
            _ => MerkleError::PathNotFound,
        }
    }
}

/// The generalized index, against the value's own root, of the node a
/// path addresses: composed across every nested tree boundary, with the
/// extra wrapper level above the content of variable-length shapes.
pub open spec fn path_gindex(v: TypedValue, path: Seq<u64>) -> nat
    decreases v,
{
    if path.len() == 0 {
        1
    } else {
        let sel = path[0] as nat;
        match v {
            TypedValue::Vector { elems } => if sel < elems@.len() {
                concat_gindex_spec(
                    (pow2(content_depth(v)) + sel) as nat,
                    path_gindex(elems@[sel as int], path.skip(1)),
                )
            } else {
                0
            },
            TypedValue::List { elems, .. } => if sel < elems@.len() {
                concat_gindex_spec(
                    (pow2(content_depth(v) + 1) + sel) as nat,
                    path_gindex(elems@[sel as int], path.skip(1)),
                )
            } else {
                0
            },
            TypedValue::Container { fields } => if sel < fields@.len() {
                concat_gindex_spec(
                    (pow2(content_depth(v)) + sel) as nat,
                    path_gindex(fields@[sel as int], path.skip(1)),
                )
            } else {
                0
            },
            TypedValue::Bytes { .. } => (pow2(content_depth(v)) + sel) as nat,
            TypedValue::Bitvector { .. } => (pow2(content_depth(v)) + sel) as nat,
            _ => (pow2(content_depth(v) + 1) + sel) as nat,
        }
    }
}

/// The chunk value a path addresses: the target's own root for an empty
/// path, a leaf of the final tree otherwise.
pub open spec fn path_value(v: TypedValue, path: Seq<u64>) -> Seq<u8>
    decreases v,
{
    if path.len() == 0 {
        root_of(v)
    } else {
        let sel = path[0] as nat;
        match v {
            TypedValue::Vector { elems } => if sel < elems@.len() {
                path_value(elems@[sel as int], path.skip(1))
            } else {
                Seq::empty()
            },
            TypedValue::List { elems, .. } => if sel < elems@.len() {
                path_value(elems@[sel as int], path.skip(1))
            } else {
                Seq::empty()
            },
            TypedValue::Container { fields } => if sel < fields@.len() {
                path_value(fields@[sel as int], path.skip(1))
            } else {
                Seq::empty()
            },
            _ => value_chunks(v)[sel as int],
        }
    }
}

/// A resolving path's generalized index is strictly positive.
pub proof fn lemma_path_gindex_pos(v: TypedValue, path: Seq<u64>)
    requires
        path_valid(v, path),
    ensures
        path_gindex(v, path) >= 1,
    decreases v,
{
    if path.len() > 0 {
        let sel = path[0] as nat;
        match v {
            TypedValue::Vector { elems } => {
                lemma_path_gindex_pos(elems@[sel as int], path.skip(1));
                lemma_pow2_pos(content_depth(v));
                lemma_concat_ge_inner(
                    (pow2(content_depth(v)) + sel) as nat,
                    path_gindex(elems@[sel as int], path.skip(1)),
                );
            },
            TypedValue::List { elems, .. } => {
                lemma_path_gindex_pos(elems@[sel as int], path.skip(1));
                lemma_pow2_pos((content_depth(v) + 1) as nat);
                lemma_concat_ge_inner(
                    (pow2(content_depth(v) + 1) + sel) as nat,
                    path_gindex(elems@[sel as int], path.skip(1)),
                );
            },
            TypedValue::Container { fields } => {
                lemma_path_gindex_pos(fields@[sel as int], path.skip(1));
                lemma_pow2_pos(content_depth(v));
                lemma_concat_ge_inner(
                    (pow2(content_depth(v)) + sel) as nat,
                    path_gindex(fields@[sel as int], path.skip(1)),
                );
            },
            _ => {
                lemma_pow2_pos(content_depth(v));
                lemma_pow2_pos((content_depth(v) + 1) as nat);
            },
        }
    }
}

/// Splitting a restore fold at a subtree boundary: folding with the
/// composed index first climbs the inner tree, then the outer one.
pub proof fn lemma_restore_concat(
    leaf: Seq<u8>,
    s1: Seq<Seq<u8>>,
    s2: Seq<Seq<u8>>,
    go: nat,
    gi: nat,
)
    requires
        go >= 1,
        gi / pow2(s1.len()) == 1,
    ensures
        restore_root(leaf, s1 + s2, concat_gindex_spec(go, gi)) == restore_root(
            restore_root(leaf, s1, gi),
            s2,
            go,
        ),
    decreases s1.len(),
{
    lemma2_to64();
    if s1.len() == 0 {
        assert(gi / 1 == gi) by {
            lemma_basic_div_is_identity(gi as int);
        }
        lemma_concat_identity(go);
        assert(s1 + s2 =~= s2);
    } else {
        lemma_div_pow2_one(gi, s1.len());
        lemma_pow2_pos((s1.len() - 1) as nat);
        lemma_pow2_unfold(s1.len());
        assert(gi >= 2);
        let c = concat_gindex_spec(go, gi);
        // One descent step agrees in parity and in the halved index.
        assert(c % 2 == gi % 2 && c / 2 == concat_gindex_spec(go, gi / 2) && c >= 2) by {
            crate::gindex::lemma_floor_pow2_bounds(gi);
            crate::gindex::lemma_floor_pow2_bounds(gi / 2);
            assert(crate::gindex::floor_pow2(gi) == 2 * crate::gindex::floor_pow2(gi / 2));
            let f2 = crate::gindex::floor_pow2(gi / 2);
            assert(go * (2 * f2) == 2 * (go * f2)) by (nonlinear_arith);
            assert(gi == 2 * (gi / 2) + gi % 2);
            assert(c == 2 * concat_gindex_spec(go, gi / 2) + (gi % 2));
            assert(go * f2 >= 1 * f2) by (nonlinear_arith)
                requires
                    go >= 1,
                    f2 >= 1,
            ;
        }
        let parent = if gi % 2 == 0 {
            hash2(leaf, s1[0])
        } else {
            hash2(s1[0], leaf)
        };
        assert((s1 + s2)[0] == s1[0]);
        assert((s1 + s2).skip(1) =~= s1.skip(1) + s2);
        assert((gi / 2) / pow2((s1.len() - 1) as nat) == 1) by {
            lemma_div_denominator(gi as int, 2, pow2((s1.len() - 1) as nat) as int);
        }
        lemma_restore_concat(parent, s1.skip(1), s2, go, gi / 2);
        assert(restore_root(leaf, s1 + s2, c) == restore_root(parent, s1.skip(1) + s2, c / 2));
        assert(restore_root(leaf, s1, gi) == restore_root(parent, s1.skip(1), gi / 2));
    }
}

/// Folding one extra step above a content tree: the length chunk is the
/// final sibling, and the target index gains the wrapper level.
pub proof fn lemma_restore_mixed(
    leaf: Seq<u8>,
    sibs: Seq<Seq<u8>>,
    lc: Seq<u8>,
    dc: nat,
    sel: nat,
    content: Seq<u8>,
)
    requires
        sel < pow2(dc),
        sibs.len() == dc,
        restore_root(leaf, sibs, (pow2(dc) + sel) as nat) == content,
    ensures
        restore_root(leaf, sibs.push(lc), (pow2(dc + 1) + sel) as nat) == hash2(content, lc),
        (pow2(dc + 1) + sel) as nat / pow2(dc + 1) == 1,
{
    lemma_pow2_pos(dc);
    lemma_pow2_unfold(dc + 1);
    let g = (pow2(dc + 1) + sel) as nat;
    let g0 = (pow2(dc) + sel) as nat;
    lemma_restore_snoc(leaf, sibs, lc, g);
    assert(g / pow2(dc) == 2) by {
        lemma_hoist_over_denominator(sel as int, 2, pow2(dc));
        assert(2 * pow2(dc) == pow2(dc + 1));
        lemma_basic_div(sel as int, pow2(dc) as int);
    }
    assert forall|k: nat| k < sibs.len() implies #[trigger] ((g / pow2(k)) % 2) == (g0 / pow2(k))
        % 2 by {
        lemma_pow2_pos(k);
        let e1 = pow2((dc + 1 - k) as nat);
        let e0 = pow2((dc - k) as nat);
        assert(g / pow2(k) == e1 + sel / pow2(k)) by {
            lemma_hoist_over_denominator(sel as int, e1 as int, pow2(k));
            lemma_pow2_adds((dc + 1 - k) as nat, k);
        }
        assert(g0 / pow2(k) == e0 + sel / pow2(k)) by {
            lemma_hoist_over_denominator(sel as int, e0 as int, pow2(k));
            lemma_pow2_adds((dc - k) as nat, k);
        }
        assert(e1 % 2 == 0) by {
            lemma_pow2_unfold((dc + 1 - k) as nat);
        }
        assert(e0 % 2 == 0) by {
            lemma_pow2_unfold((dc - k) as nat);
        }
        lemma_mod_multiples_vanish((e1 / 2) as int, (sel / pow2(k)) as int, 2);
        lemma_mod_multiples_vanish((e0 / 2) as int, (sel / pow2(k)) as int, 2);
        assert(2 * (e1 / 2) == e1);
        assert(2 * (e0 / 2) == e0);
    }
    lemma_restore_parity(leaf, sibs, g, g0);
    lemma_div_pow2_one(g, dc + 1);
    lemma_pow2_unfold(dc + 2);
}

/// A proof of one chunk against a value's root: the witness chunk, its
/// sibling path ordered leaf to root, and its generalized index.
#[derive(Debug)]
pub struct Proof {
    /// The chunk being proven.
    pub leaf: Chunk,
    /// The sibling values, one per tree level, leaf to root.
    pub branch: Vec<Chunk>,
    /// The generalized index of the leaf against the value's own root.
    pub gindex: u64,
}

impl TypedValue {
    /// Produces a proof that the chunk the path addresses is consistent
    /// with this value's hash-tree-root.  Succeeds exactly when the
    /// value respects its schema, the path resolves, and the composed
    /// index fits 64 bits; the proof then verifies against
    /// `hash_tree_root` by construction.
    pub fn prove(&self, path: &Vec<u64>) -> (r: Result<Proof, MerkleError>)
        ensures
            r is Ok <==> valid(*self) && path_valid(*self, path@) && path_gindex(*self, path@)
                <= u64::MAX,
            r matches Ok(p) ==> {
                &&& p.gindex as nat == path_gindex(*self, path@)
                &&& p.leaf@ == path_value(*self, path@)
                &&& p.leaf.wf()
                &&& all_wf(p.branch@)
                &&& p.gindex as nat / pow2(p.branch@.len()) == 1
                &&& restore_root(p.leaf@, chunk_views(p.branch@), p.gindex as nat) == root_of(
                    *self,
                )
            },
            r matches Err(e) ==> e == (if !valid(*self) {
                MerkleError::SchemaViolation
            } else if !path_valid(*self, path@) {
                path_error(*self, path@)
            } else {
                MerkleError::IndexOutOfRange
            }),
    {
        if !self.validate() {
            return Err(MerkleError::SchemaViolation);
        }
        proof {
            assert(path@.skip(0) =~= path@);
        }
        self.prove_valid(path, 0)
    }

    fn prove_valid(&self, path: &Vec<u64>, pos: usize) -> (r: Result<Proof, MerkleError>)
        requires
            valid(*self),
            pos <= path@.len(),
        ensures
            r is Ok <==> path_valid(*self, path@.skip(pos as int)) && path_gindex(
                *self,
                path@.skip(pos as int),
            ) <= u64::MAX,
            r matches Ok(p) ==> {
                &&& p.gindex as nat == path_gindex(*self, path@.skip(pos as int))
                &&& p.leaf@ == path_value(*self, path@.skip(pos as int))
                &&& p.leaf.wf()
                &&& all_wf(p.branch@)
                &&& p.gindex as nat / pow2(p.branch@.len()) == 1
                &&& restore_root(p.leaf@, chunk_views(p.branch@), p.gindex as nat) == root_of(
                    *self,
                )
            },
            r matches Err(e) ==> e == (if !path_valid(*self, path@.skip(pos as int)) {
                path_error(*self, path@.skip(pos as int))
            } else {
                MerkleError::IndexOutOfRange
            }),
        decreases *self,
    {
        let ghost sub = path@.skip(pos as int);
        if pos == path.len() {
            let leaf = self.compute_root();
            proof {
                lemma2_to64();
                lemma_basic_div_is_identity(1);
                assert(sub.len() == 0);
            }
            return Ok(Proof { leaf, branch: Vec::new(), gindex: 1 });
        }
        let sel = path[pos];
        proof {
            assert(sub[0] == path@[pos as int]);
            assert(sub.skip(1) =~= path@.skip(pos as int + 1));
        }
        match self {
            TypedValue::Container { fields } => {
                if sel >= fields.len() as u64 {
                    return Err(MerkleError::PathNotFound);
                }
                let child = match fields[sel as usize].prove_valid(path, pos + 1) {
                    Ok(c) => c,
                    Err(e) => {
                        proof {
                            if path_valid(*self, sub) {
                                lemma_path_gindex_pos(fields@[sel as int], sub.skip(1));
                                lemma_pow2_pos(content_depth(*self));
                                lemma_concat_ge_inner(
                                    (pow2(content_depth(*self)) + sel) as nat,
                                    path_gindex(fields@[sel as int], sub.skip(1)),
                                );
                            }
                        }
                        return Err(e);
                    },
                };
                proof {
                    lemma_roots_of(fields@);
                }
                match self.wrap_composite(child, sel, Ghost(sub)) {
                    Some(p) => Ok(p),
                    None => Err(MerkleError::IndexOutOfRange),
                }
            },
            TypedValue::Vector { elems } => {
                if sel >= elems.len() as u64 {
                    return Err(MerkleError::PathNotFound);
                }
                let child = match elems[sel as usize].prove_valid(path, pos + 1) {
                    Ok(c) => c,
                    Err(e) => {
                        proof {
                            if path_valid(*self, sub) {
                                lemma_path_gindex_pos(elems@[sel as int], sub.skip(1));
                                lemma_pow2_pos(content_depth(*self));
                                lemma_concat_ge_inner(
                                    (pow2(content_depth(*self)) + sel) as nat,
                                    path_gindex(elems@[sel as int], sub.skip(1)),
                                );
                            }
                        }
                        return Err(e);
                    },
                };
                proof {
                    lemma_roots_of(elems@);
                }
                match self.wrap_composite(child, sel, Ghost(sub)) {
                    Some(p) => Ok(p),
                    None => Err(MerkleError::IndexOutOfRange),
                }
            },
            TypedValue::List { elems, .. } => {
                if sel >= elems.len() as u64 {
                    return Err(MerkleError::IndexOutOfRange);
                }
                let live = elems.len() as u64;
                let child = match elems[sel as usize].prove_valid(path, pos + 1) {
                    Ok(c) => c,
                    Err(e) => {
                        proof {
                            if path_valid(*self, sub) {
                                lemma_path_gindex_pos(elems@[sel as int], sub.skip(1));
                                lemma_pow2_pos((content_depth(*self) + 1) as nat);
                                lemma_concat_ge_inner(
                                    (pow2(content_depth(*self) + 1) + sel) as nat,
                                    path_gindex(elems@[sel as int], sub.skip(1)),
                                );
                            }
                        }
                        return Err(e);
                    },
                };
                proof {
                    lemma_roots_of(elems@);
                }
                match self.wrap_list(child, sel, live, Ghost(sub)) {
                    Some(p) => Ok(p),
                    None => Err(MerkleError::IndexOutOfRange),
                }
            },
            TypedValue::Bytes { .. } => {
                if pos + 1 != path.len() {
                    return Err(MerkleError::PathNotFound);
                }
                if self.chunk_in_range(sel) {
                    Ok(self.terminal_fixed(sel, Ghost(sub)))
                } else {
                    Err(MerkleError::PathNotFound)
                }
            },
            TypedValue::Bitvector { .. } => {
                if pos + 1 != path.len() {
                    return Err(MerkleError::PathNotFound);
                }
                if self.chunk_in_range(sel) {
                    Ok(self.terminal_fixed(sel, Ghost(sub)))
                } else {
                    Err(MerkleError::PathNotFound)
                }
            },
            TypedValue::ByteList { bytes, .. } => {
                if pos + 1 != path.len() {
                    return Err(MerkleError::PathNotFound);
                }
                let live = bytes.len() as u64;
                if self.chunk_in_range(sel) {
                    Ok(self.terminal_variable(sel, live, Ghost(sub)))
                } else {
                    Err(MerkleError::IndexOutOfRange)
                }
            },
            TypedValue::Bitlist { bits, .. } => {
                if pos + 1 != path.len() {
                    return Err(MerkleError::PathNotFound);
                }
                let live = bits.len() as u64;
                if self.chunk_in_range(sel) {
                    Ok(self.terminal_variable(sel, live, Ghost(sub)))
                } else {
                    Err(MerkleError::IndexOutOfRange)
                }
            },
        }
    }

    /// Whether `sel` addresses a live chunk of a packed shape.
    fn chunk_in_range(&self, sel: u64) -> (r: bool)
        requires
            valid(*self),
        ensures
            r == ((sel as nat) < live_chunk_count(*self)),
    {
        match self {
            TypedValue::Bytes { bytes } => sel < (bytes.len() as u64 + 31) / 32,
            TypedValue::ByteList { bytes, .. } => sel < (bytes.len() as u64 + 31) / 32,
            TypedValue::Bitvector { bits } => sel < ((bits.len() as u64 + 7) / 8 + 31) / 32,
            TypedValue::Bitlist { bits, .. } => sel < ((bits.len() as u64 + 1 + 7) / 8 + 31) / 32,
            TypedValue::Vector { elems } => sel < elems.len() as u64,
            TypedValue::List { elems, .. } => sel < elems.len() as u64,
            TypedValue::Container { fields } => sel < fields.len() as u64,
        }
    }

    /// The terminal step at a fixed packed shape: the target is chunk
    /// `sel` of this value's own tree.
    fn terminal_fixed(&self, sel: u64, Ghost(sub): Ghost<Seq<u64>>) -> (p: Proof)
        requires
            valid(*self),
            !is_variable(*self),
            *self matches TypedValue::Bytes { .. } || *self matches TypedValue::Bitvector { .. },
            sub.len() == 1,
            sub[0] == sel,
            (sel as nat) < live_chunk_count(*self),
        ensures
            p.gindex as nat == path_gindex(*self, sub),
            p.leaf@ == path_value(*self, sub),
            p.leaf.wf(),
            all_wf(p.branch@),
            p.gindex as nat / pow2(p.branch@.len()) == 1,
            restore_root(p.leaf@, chunk_views(p.branch@), p.gindex as nat) == root_of(*self),
    {
        proof {
            lemma_chunks_fit(*self);
            lemma_depth_bound(*self);
        }
        let tree = self.build_tree();
        let leaf = tree.leaf(sel);
        let branch = tree.extract_branch(sel);
        let depth = tree.depth;
        proof {
            lemma_pow2_unfold((content_depth(*self) + 1) as nat);
        }
        let g: u64 = pow2_u64(depth) + sel;
        proof {
            let chunks = value_chunks(*self);
            let d = content_depth(*self);
            lemma_restore_from_tree(chunks, d, sel as nat, chunk_views(branch@));
            crate::merkle::lemma_leaf_value(chunks, sel as nat);
            lemma_div_pow2_one(g as nat, d);
        }
        Proof { leaf, branch, gindex: g }
    }

    /// The terminal step at a variable-length packed shape: the target
    /// is chunk `sel` of the content tree, one wrapper level below the
    /// length-mixing node.
    fn terminal_variable(&self, sel: u64, live_len: u64, Ghost(sub): Ghost<Seq<u64>>) -> (p: Proof)
        requires
            valid(*self),
            *self matches TypedValue::ByteList { .. } || *self matches TypedValue::Bitlist { .. },
            live_len as nat == live_length(*self),
            sub.len() == 1,
            sub[0] == sel,
            (sel as nat) < live_chunk_count(*self),
        ensures
            p.gindex as nat == path_gindex(*self, sub),
            p.leaf@ == path_value(*self, sub),
            p.leaf.wf(),
            all_wf(p.branch@),
            p.gindex as nat / pow2(p.branch@.len()) == 1,
            restore_root(p.leaf@, chunk_views(p.branch@), p.gindex as nat) == root_of(*self),
    {
        proof {
            lemma_chunks_fit(*self);
            lemma_depth_bound(*self);
        }
        let tree = self.build_tree();
        let leaf = tree.leaf(sel);
        let mut branch = tree.extract_branch(sel);
        let depth = tree.depth;
        let ghost content_sibs = chunk_views(branch@);
        let len_chunk = crate::chunk::u64_le_chunk(live_len);
        proof {
            let chunks = value_chunks(*self);
            let d = content_depth(*self);
            lemma_restore_from_tree(chunks, d, sel as nat, content_sibs);
            crate::merkle::lemma_leaf_value(chunks, sel as nat);
        }
        branch.push(len_chunk);
        proof {
            lemma_pow2_unfold((content_depth(*self) + 1) as nat);
            lemma_pow2_unfold((content_depth(*self) + 2) as nat);
        }
        let g: u64 = 2 * pow2_u64(depth) + sel;
        proof {
            let chunks = value_chunks(*self);
            let d = content_depth(*self);
            lemma_pow2_unfold(d + 1);
            lemma_restore_mixed(
                leaf@,
                content_sibs,
                length_chunk(live_len as nat),
                d,
                sel as nat,
                subtree_root(chunks, d),
            );
            assert(chunk_views(branch@) =~= content_sibs.push(length_chunk(live_len as nat)));
        }
        Proof { leaf, branch, gindex: g }
    }

    /// Wraps a child's proof one level out through a container or
    /// vector: the child's root is leaf `sel` of this value's tree.
    /// `None` exactly when the composed index does not fit 64 bits.
    #[verifier::rlimit(100)]
    #[verifier::spinoff_prover]
    fn wrap_composite(&self, child: Proof, sel: u64, Ghost(sub): Ghost<Seq<u64>>) -> (r: Option<
        Proof,
    >)
        requires
            valid(*self),
            *self matches TypedValue::Vector { .. } || *self matches TypedValue::Container { .. },
            sub.len() >= 1,
            sub[0] == sel,
            (sel as nat) < live_chunk_count(*self),
            match *self {
                TypedValue::Vector { elems } => {
                    &&& child.gindex as nat == path_gindex(elems@[sel as int], sub.skip(1))
                    &&& child.leaf@ == path_value(elems@[sel as int], sub.skip(1))
                    &&& restore_root(child.leaf@, chunk_views(child.branch@), child.gindex as nat)
                        == root_of(elems@[sel as int])
                    &&& value_chunks(*self)[sel as int] == root_of(elems@[sel as int])
                },
                TypedValue::Container { fields } => {
                    &&& child.gindex as nat == path_gindex(fields@[sel as int], sub.skip(1))
                    &&& child.leaf@ == path_value(fields@[sel as int], sub.skip(1))
                    &&& restore_root(child.leaf@, chunk_views(child.branch@), child.gindex as nat)
                        == root_of(fields@[sel as int])
                    &&& value_chunks(*self)[sel as int] == root_of(fields@[sel as int])
                },
                _ => false,
            },
            child.gindex as nat / pow2(child.branch@.len()) == 1,
            child.leaf.wf(),
            all_wf(child.branch@),
        ensures
            r is Some <==> path_gindex(*self, sub) <= u64::MAX,
            r matches Some(p) ==> {
                &&& p.gindex as nat == path_gindex(*self, sub)
                &&& p.leaf@ == path_value(*self, sub)
                &&& p.leaf.wf()
                &&& all_wf(p.branch@)
                &&& p.gindex as nat / pow2(p.branch@.len()) == 1
                &&& restore_root(p.leaf@, chunk_views(p.branch@), p.gindex as nat) == root_of(
                    *self,
                )
            },
    {
        proof {
            lemma_chunks_fit(*self);
            lemma_depth_bound(*self);
        }
        let tree = self.build_tree();
        let mut local = tree.extract_branch(sel);
        let depth = tree.depth;
        proof {
            lemma_pow2_unfold((content_depth(*self) + 1) as nat);
        }
        let g_l: u64 = pow2_u64(depth) + sel;
        let ghost gi = child.gindex as nat;
        let ghost d = content_depth(*self);
        proof {
            lemma_pow2_pos(child.branch@.len());
            lemma_div_pow2_one(gi, child.branch@.len());
        }
        let g = match concat_gindex_checked(g_l, child.gindex) {
            Some(g) => g,
            None => {
                return None;
            },
        };
        let leaf = child.leaf;
        let mut branch = child.branch;
        let ghost child_sibs = chunk_views(branch@);
        let ghost local_sibs = chunk_views(local@);
        branch.append(&mut local);
        proof {
            let chunks = value_chunks(*self);
            assert(chunk_views(branch@) =~= child_sibs + local_sibs);
            lemma_restore_concat(leaf@, child_sibs, local_sibs, g_l as nat, gi);
            lemma_restore_from_tree(chunks, d, sel as nat, local_sibs);
            crate::merkle::lemma_leaf_value(chunks, sel as nat);
            // The depth of the combined index matches the branch length.
            lemma_pow2_unfold(d + 1);
            lemma_concat_depth(g_l as nat, gi);
            lemma_gindex_depth_of_range(g_l as nat, d);
            lemma_gindex_depth_of_range(gi, child_sibs.len());
            lemma_concat_ge_inner(g_l as nat, gi);
            lemma_gindex_depth_bounds(g as nat);
            lemma_div_pow2_one(g as nat, (child_sibs.len() + d) as nat);
        }
        Some(Proof { leaf, branch, gindex: g })
    }

    /// Wraps a child's proof one level out through a list: the child's
    /// root is leaf `sel` of the content tree, with the list's live
    /// length mixed in above it.  `None` exactly when the composed
    /// index does not fit 64 bits.
    #[verifier::rlimit(100)]
    #[verifier::spinoff_prover]
    fn wrap_list(&self, child: Proof, sel: u64, live_len: u64, Ghost(sub): Ghost<Seq<u64>>) -> (r:
        Option<Proof>)
        requires
            valid(*self),
            *self matches TypedValue::List { .. },
            sub.len() >= 1,
            sub[0] == sel,
            (sel as nat) < live_chunk_count(*self),
            live_len as nat == live_length(*self),
            match *self {
                TypedValue::List { elems, .. } => {
                    &&& child.gindex as nat == path_gindex(elems@[sel as int], sub.skip(1))
                    &&& child.leaf@ == path_value(elems@[sel as int], sub.skip(1))
                    &&& restore_root(child.leaf@, chunk_views(child.branch@), child.gindex as nat)
                        == root_of(elems@[sel as int])
                    &&& value_chunks(*self)[sel as int] == root_of(elems@[sel as int])
                },
                _ => false,
            },
            child.gindex as nat / pow2(child.branch@.len()) == 1,
            child.leaf.wf(),
            all_wf(child.branch@),
        ensures
            r is Some <==> path_gindex(*self, sub) <= u64::MAX,
            r matches Some(p) ==> {
                &&& p.gindex as nat == path_gindex(*self, sub)
                &&& p.leaf@ == path_value(*self, sub)
                &&& p.leaf.wf()
                &&& all_wf(p.branch@)
                &&& p.gindex as nat / pow2(p.branch@.len()) == 1
                &&& restore_root(p.leaf@, chunk_views(p.branch@), p.gindex as nat) == root_of(
                    *self,
                )
            },
    {
        proof {
            lemma_chunks_fit(*self);
            lemma_depth_bound(*self);
        }
        let tree = self.build_tree();
        let mut local = tree.extract_branch(sel);
        let ghost content_sibs = chunk_views(local@);
        let len_chunk = crate::chunk::u64_le_chunk(live_len);
        local.push(len_chunk);
        let depth = tree.depth;
        proof {
            lemma_pow2_unfold((content_depth(*self) + 1) as nat);
            lemma_pow2_unfold((content_depth(*self) + 2) as nat);
        }
        let g_l: u64 = 2 * pow2_u64(depth) + sel;
        let ghost gi = child.gindex as nat;
        let ghost d = content_depth(*self);
        proof {
            lemma_pow2_pos(child.branch@.len());
            lemma_div_pow2_one(gi, child.branch@.len());
            lemma_pow2_unfold(d + 1);
        }
        let g = match concat_gindex_checked(g_l, child.gindex) {
            Some(g) => g,
            None => {
                return None;
            },
        };
        let leaf = child.leaf;
        let mut branch = child.branch;
        let ghost child_sibs = chunk_views(branch@);
        let ghost local_sibs = chunk_views(local@);
        branch.append(&mut local);
        proof {
            let chunks = value_chunks(*self);
            assert(chunk_views(branch@) =~= child_sibs + local_sibs);
            lemma_restore_concat(leaf@, child_sibs, local_sibs, g_l as nat, gi);
            lemma_restore_from_tree(chunks, d, sel as nat, content_sibs);
            crate::merkle::lemma_leaf_value(chunks, sel as nat);
            lemma_restore_mixed(
                crate::merkle::leaf_value(chunks, sel as nat),
                content_sibs,
                length_chunk(live_len as nat),
                d,
                sel as nat,
                subtree_root(chunks, d),
            );
            assert(local_sibs =~= content_sibs.push(length_chunk(live_len as nat)));
            // The depth of the combined index matches the branch length.
            lemma_concat_depth(g_l as nat, gi);
            lemma_gindex_depth_of_range(g_l as nat, (d + 1) as nat);
            lemma_gindex_depth_of_range(gi, child_sibs.len());
            lemma_concat_ge_inner(g_l as nat, gi);
            lemma_gindex_depth_bounds(g as nat);
            lemma_div_pow2_one(g as nat, (child_sibs.len() + d + 1) as nat);
        }
        Some(Proof { leaf, branch, gindex: g })
    }
}

/// The gindices of the siblings along a target's path: at each level,
/// the node hashed together with the target's ancestor.
pub open spec fn branch_index_set(g: nat) -> Set<nat> {
    Set::new(
        |x: nat| exists|k: nat| k < gindex_depth(g) && x == crate::merkle::flip1(g / pow2(k)),
    )
}

/// The gindices of the target and its proper ancestors below the root.
pub open spec fn path_index_set(g: nat) -> Set<nat> {
    Set::new(|x: nat| exists|k: nat| k < gindex_depth(g) && x == g / pow2(k))
}

/// The sibling nodes a multi-proof must carry for a set of targets:
/// every sibling of every target, except the nodes that lie on some
/// target's own path and are recomputed during verification.
pub open spec fn helper_index_set(gs: Set<nat>) -> Set<nat> {
    Set::new(
        |x: nat|
            (exists|g: nat| gs.contains(g) && branch_index_set(g).contains(x)) && !(exists|g: nat|
                gs.contains(g)
                && path_index_set(g).contains(x)),
    )
}

/// Quotients of a gindex sit at the expected depth.
proof fn lemma_gindex_quotient_depth(g: nat, k: nat)
    requires
        g >= 1,
        k <= gindex_depth(g),
    ensures
        gindex_depth(g / pow2(k)) == gindex_depth(g) - k,
        g / pow2(k) >= 1,
    decreases k,
{
    lemma2_to64();
    if k == 0 {
        lemma_basic_div_is_identity(g as int);
    } else {
        let d = gindex_depth(g);
        lemma_gindex_quotient_depth(g, (k - 1) as nat);
        let q = g / pow2((k - 1) as nat);
        assert(gindex_depth(q) == d - (k - 1) >= 1);
        assert(q / 2 == g / pow2(k)) by {
            lemma_pow2_pos((k - 1) as nat);
            lemma_div_denominator(g as int, pow2((k - 1) as nat) as int, 2);
            lemma_pow2_unfold(k);
            assert(pow2((k - 1) as nat) * 2 == pow2(k));
        }
        assert(q >= 2) by {
            if q <= 1 {
                assert(gindex_depth(q) == 0);
            }
        }
        assert(gindex_depth(q / 2) == gindex_depth(q) - 1);
        assert(q / 2 >= 1) by {
            lemma_gindex_depth_bounds(q);
            lemma_pow2_pos(gindex_depth(q));
        }
    }
}

/// The sibling of a node below the root sits at the node's own depth.
proof fn lemma_flip1_depth(m: nat)
    requires
        m >= 2,
    ensures
        gindex_depth(crate::merkle::flip1(m)) == gindex_depth(m),
        crate::merkle::flip1(m) >= 2,
        crate::merkle::flip1(m) != m,
    decreases m,
{
    lemma2_to64();
    let d = gindex_depth(m);
    lemma_gindex_depth_bounds(m);
    assert(d >= 1) by {
        if d == 0 {
            assert(m < pow2(1));
        }
    }
    lemma_pow2_unfold(d);
    lemma_pow2_unfold(d + 1);
    let f = crate::merkle::flip1(m);
    if m % 2 == 0 {
        assert(pow2(d) <= f < pow2(d + 1)) by {
            assert(m % 2 == 0 && m < pow2(d + 1) && pow2(d + 1) % 2 == 0);
        }
    } else {
        assert(pow2(d) <= f < pow2(d + 1)) by {
            assert(pow2(d) % 2 == 0);
        }
    }
    lemma_gindex_depth_of_range(f, d);
}

/// Division facts shared by the child-step lemmas: quotients of a
/// node's children are quotients of the node.
proof fn lemma_child_quotients(g: nat)
    requires
        g >= 1,
    ensures
        gindex_depth((2 * g) as nat) == gindex_depth(g) + 1,
        gindex_depth((2 * g + 1) as nat) == gindex_depth(g) + 1,
        (2 * g) as nat / pow2(0) == 2 * g,
        (2 * g + 1) as nat / pow2(0) == 2 * g + 1,
        forall|k: nat|
            1 <= k ==> #[trigger] ((2 * g) as nat / pow2(k)) == g / pow2((k - 1) as nat),
        forall|k: nat|
            1 <= k ==> #[trigger] ((2 * g + 1) as nat / pow2(k)) == g / pow2((k - 1) as nat),
{
    lemma2_to64();
    let c0 = (2 * g) as nat;
    let c1 = (2 * g + 1) as nat;
    assert(c0 / 2 == g && c1 / 2 == g);
    lemma_basic_div_is_identity(c0 as int);
    lemma_basic_div_is_identity(c1 as int);
    assert forall|k: nat| 1 <= k implies #[trigger] (c0 / pow2(k)) == g / pow2((k - 1) as nat) by {
        lemma_pow2_pos((k - 1) as nat);
        lemma_pow2_unfold(k);
        lemma_div_denominator(c0 as int, 2, pow2((k - 1) as nat) as int);
    }
    assert forall|k: nat| 1 <= k implies #[trigger] (c1 / pow2(k)) == g / pow2((k - 1) as nat) by {
        lemma_pow2_pos((k - 1) as nat);
        lemma_pow2_unfold(k);
        lemma_div_denominator(c1 as int, 2, pow2((k - 1) as nat) as int);
    }
}

/// The siblings of a child are the other child and the parent's own
/// siblings.
#[verifier::rlimit(100)]
#[verifier::spinoff_prover]
proof fn lemma_branch_set_child(g: nat, x: nat, right: bool)
    requires
        g >= 1,
    ensures
        branch_index_set((if right {
            2 * g + 1
        } else {
            2 * g
        }) as nat).contains(x) <==> (x == (if right {
            2 * g
        } else {
            2 * g + 1
        }) || branch_index_set(g).contains(x)),
{
    lemma_child_quotients(g);
    let c = (if right { 2 * g + 1 } else { 2 * g }) as nat;
    let o = (if right { 2 * g } else { 2 * g + 1 }) as nat;
    if branch_index_set(c).contains(x) {
        let k = choose|k: nat| k < gindex_depth(c) && x == crate::merkle::flip1(c / pow2(k));
        if k == 0 {
            assert(x == o);
        } else {
            assert(c / pow2(k) == g / pow2((k - 1) as nat));
            assert(branch_index_set(g).contains(x)) by {
                assert(((k - 1) as nat) < gindex_depth(g) && x == crate::merkle::flip1(
                    g / pow2((k - 1) as nat),
                ));
            }
        }
    }
    if x == o {
        assert(x == crate::merkle::flip1(c / pow2(0)));
        assert(branch_index_set(c).contains(x));
    }
    if branch_index_set(g).contains(x) {
        let k = choose|k: nat| k < gindex_depth(g) && x == crate::merkle::flip1(g / pow2(k));
        assert(c / pow2((k + 1) as nat) == g / pow2(k));
        assert(branch_index_set(c).contains(x)) by {
            assert(((k + 1) as nat) < gindex_depth(c) && x == crate::merkle::flip1(
                c / pow2((k + 1) as nat),
            ));
        }
    }
}

/// The path of a child is the child itself plus the parent's path.
#[verifier::rlimit(100)]
#[verifier::spinoff_prover]
proof fn lemma_path_set_child(g: nat, x: nat, right: bool)
    requires
        g >= 1,
    ensures
        path_index_set((if right {
            2 * g + 1
        } else {
            2 * g
        }) as nat).contains(x) <==> (x == (if right {
            2 * g + 1
        } else {
            2 * g
        }) || path_index_set(g).contains(x)),
{
    lemma_child_quotients(g);
    let c = (if right { 2 * g + 1 } else { 2 * g }) as nat;
    if path_index_set(c).contains(x) {
        let k = choose|k: nat| k < gindex_depth(c) && x == c / pow2(k);
        if k == 0 {
        } else {
            assert(path_index_set(g).contains(x)) by {
                assert(((k - 1) as nat) < gindex_depth(g) && x == g / pow2((k - 1) as nat));
            }
        }
    }
    if x == c {
        assert(x == c / pow2(0));
        assert(path_index_set(c).contains(x));
    }
    if path_index_set(g).contains(x) {
        let k = choose|k: nat| k < gindex_depth(g) && x == g / pow2(k);
        assert(path_index_set(c).contains(x)) by {
            assert(((k + 1) as nat) < gindex_depth(c) && x == c / pow2((k + 1) as nat));
        }
    }
}

/// Siblings of ancestors of `g`, one step down: every sibling of `2g`
/// beyond its own immediate sibling is a sibling of `g`.
proof fn lemma_branch_set_step(g: nat, x: nat)
    requires
        g >= 1,
    ensures
        branch_index_set((2 * g) as nat).contains(x) <==> (x == 2 * g + 1 || branch_index_set(
            g,
        ).contains(x)),
        branch_index_set((2 * g + 1) as nat).contains(x) <==> (x == 2 * g || branch_index_set(
            g,
        ).contains(x)),
        path_index_set((2 * g) as nat).contains(x) <==> (x == 2 * g || path_index_set(
            g,
        ).contains(x)),
        path_index_set((2 * g + 1) as nat).contains(x) <==> (x == 2 * g + 1 || path_index_set(
            g,
        ).contains(x)),
{
    lemma_branch_set_child(g, x, false);
    lemma_branch_set_child(g, x, true);
    lemma_path_set_child(g, x, false);
    lemma_path_set_child(g, x, true);
}

/// A node's siblings never lie on its own path.
proof fn lemma_branch_path_disjoint(g: nat, x: nat)
    requires
        g >= 1,
    ensures
        !(branch_index_set(g).contains(x) && path_index_set(g).contains(x)),
{
    if branch_index_set(g).contains(x) && path_index_set(g).contains(x) {
        let k1 = choose|k: nat| k < gindex_depth(g) && x == crate::merkle::flip1(g / pow2(k));
        let k2 = choose|k: nat| k < gindex_depth(g) && x == g / pow2(k);
        lemma_gindex_quotient_depth(g, k1);
        lemma_gindex_quotient_depth(g, k2);
        let q1 = g / pow2(k1);
        assert(q1 >= 2) by {
            lemma_gindex_depth_bounds(q1);
            lemma_pow2_unfold(gindex_depth(q1));
            if q1 <= 1 {
                assert(gindex_depth(q1) == 0);
            }
        }
        lemma_flip1_depth(q1);
        assert(gindex_depth(x) == gindex_depth(g) - k1);
        assert(gindex_depth(x) == gindex_depth(g) - k2);
        assert(k1 == k2);
        assert(crate::merkle::flip1(q1) != q1);
    }
}

/// Minimality for a sibling pair: proving the two children of a node
/// `g` needs no helper below `g` at all — the helpers are exactly the
/// siblings along `g`'s own path to the root.
pub proof fn lemma_sibling_pair_helpers(g: nat)
    requires
        g >= 1,
    ensures
        helper_index_set(set![(2 * g) as nat, (2 * g + 1) as nat]) =~= branch_index_set(g),
{
    let c0 = (2 * g) as nat;
    let c1 = (2 * g + 1) as nat;
    let gs = set![c0, c1];
    let h = helper_index_set(gs);
    assert forall|x: nat| h.contains(x) implies branch_index_set(g).contains(x) by {
        lemma_branch_set_step(g, x);
        let t = choose|t: nat| gs.contains(t) && branch_index_set(t).contains(x);
        assert(t == c0 || t == c1);
        if x == c0 {
            assert(gs.contains(c0) && path_index_set(c0).contains(x));
            assert(false);
        }
        if x == c1 {
            assert(gs.contains(c1) && path_index_set(c1).contains(x));
            assert(false);
        }
    }
    assert forall|x: nat| branch_index_set(g).contains(x) implies h.contains(x) by {
        lemma_branch_set_step(g, x);
        assert(branch_index_set(c0).contains(x));
        assert(gs.contains(c0));
        // x is at depth at most g's, so it is neither child, and it is
        // not on g's path either.
        let k = choose|k: nat| k < gindex_depth(g) && x == crate::merkle::flip1(g / pow2(k));
        lemma_gindex_quotient_depth(g, k);
        let q = g / pow2(k);
        assert(q >= 2) by {
            lemma_gindex_depth_bounds(q);
            if q <= 1 {
                assert(gindex_depth(q) == 0);
            }
        }
        lemma_flip1_depth(q);
        assert(gindex_depth(x) <= gindex_depth(g));
        assert(gindex_depth(c0) == gindex_depth(g) + 1 && gindex_depth(c1) == gindex_depth(g)
            + 1) by {
            assert(c0 / 2 == g && c1 / 2 == g);
        }
        assert(x != c0 && x != c1);
        assert(!path_index_set(g).contains(x)) by {
            lemma_branch_path_disjoint(g, x);
        }
        assert forall|t: nat| gs.contains(t) implies !path_index_set(t).contains(x) by {
            lemma_branch_set_step(g, x);
        }
    }
}

/// The ghost view of a key-to-chunk association list.
pub open spec fn pair_views(s: Seq<(u64, Chunk)>) -> Seq<(nat, Seq<u8>)> {
    s.map_values(|p: (u64, Chunk)| (p.0 as nat, p.1@))
}

/// First value stored under `key`, if any.
pub open spec fn assoc_lookup(cache: Seq<(nat, Seq<u8>)>, key: nat) -> Option<Seq<u8>>
    decreases cache.len(),
{
    if cache.len() == 0 {
        None
    } else if cache[0].0 == key {
        Some(cache[0].1)
    } else {
        assoc_lookup(cache.skip(1), key)
    }
}

/// One target's climb to the root during multi-proof verification: at
/// each level the sibling is a cached node — another target's leaf, a
/// node derived earlier, or a sibling already consumed — or else the
/// next unconsumed entry of the sibling list.  Derived parents and
/// consumed siblings are cached for the targets that follow.
pub open spec fn climb_spec(
    cur: Seq<u8>,
    g: nat,
    sibs: Seq<Seq<u8>>,
    pos: int,
    cache: Seq<(nat, Seq<u8>)>,
) -> Option<(Seq<u8>, int, Seq<(nat, Seq<u8>)>)>
    decreases g,
{
    if g == 0 {
        None
    } else if g == 1 {
        Some((cur, pos, cache))
    } else {
        let sk = crate::merkle::flip1(g);
        let step = match assoc_lookup(cache, sk) {
            Some(v) => Some((v, pos, cache)),
            None => if pos < sibs.len() {
                Some((sibs[pos], pos + 1, cache.push((sk, sibs[pos]))))
            } else {
                None
            },
        };
        match step {
            None => None,
            Some(t) => {
                let parent = if g % 2 == 0 {
                    hash2(cur, t.0)
                } else {
                    hash2(t.0, cur)
                };
                climb_spec(parent, g / 2, sibs, t.1, t.2.push((g / 2, parent)))
            },
        }
    }
}

/// The whole multi-proof fold from target `i` on: every chain must
/// reach the expected root, and the sibling list must be consumed
/// exactly.
pub open spec fn multi_restore_spec(
    targets: Seq<(nat, Seq<u8>)>,
    sibs: Seq<Seq<u8>>,
    expected: Seq<u8>,
    i: int,
    pos: int,
    cache: Seq<(nat, Seq<u8>)>,
) -> bool
    decreases targets.len() - i,
{
    if i >= targets.len() {
        pos == sibs.len()
    } else {
        match climb_spec(targets[i].1, targets[i].0, sibs, pos, cache) {
            None => false,
            Some(t) => t.0 == expected && multi_restore_spec(
                targets,
                sibs,
                expected,
                i + 1,
                t.1,
                t.2,
            ),
        }
    }
}

/// The targets of a multi-proof, paired up.
pub open spec fn target_pairs(gindices: Seq<u64>, leaves: Seq<Seq<u8>>) -> Seq<(nat, Seq<u8>)> {
    Seq::new(gindices.len(), |i: int| (gindices[i] as nat, leaves[i]))
}

/// A multi-proof checks out when the fold over all its targets, with
/// the target leaves themselves seeding the cache, reproduces the
/// expected root on every chain and consumes the sibling list exactly.
pub open spec fn verify_multi_spec(
    targets: Seq<(nat, Seq<u8>)>,
    sibs: Seq<Seq<u8>>,
    expected: Seq<u8>,
) -> bool {
    multi_restore_spec(targets, sibs, expected, 0, 0, targets)
}

/// First chunk stored under `key`, as executable code.
fn assoc_get(cache: &Vec<(u64, Chunk)>, key: u64) -> (r: Option<Chunk>)
    ensures
        r is Some <==> assoc_lookup(pair_views(cache@), key as nat) is Some,
        r matches Some(c) ==> assoc_lookup(pair_views(cache@), key as nat) == Some(c@),
{
    let ghost full = pair_views(cache@);
    proof {
        assert(full.skip(0) =~= full);
    }
    let mut j: usize = 0;
    while j < cache.len()
        invariant
            j <= cache@.len(),
            full == pair_views(cache@),
            assoc_lookup(full, key as nat) == assoc_lookup(full.skip(j as int), key as nat),
        decreases cache@.len() - j,
    {
        proof {
            assert(full.skip(j as int)[0] == (cache@[j as int].0 as nat, cache@[j as int].1@));
            assert(full.skip(j as int).skip(1) =~= full.skip(j as int + 1));
        }
        if cache[j].0 == key {
            let c = cache[j].1.clone();
            return Some(c);
        }
        j = j + 1;
    }
    proof {
        assert(full.skip(cache@.len() as int) =~= Seq::<(nat, Seq<u8>)>::empty());
    }
    None
}

/// One target's climb, as executable code; mirrors `climb_spec`.
fn climb(cur: Chunk, g: u64, sibs: &Vec<Chunk>, pos: usize, cache: Vec<(u64, Chunk)>) -> (r:
    Option<(Chunk, usize, Vec<(u64, Chunk)>)>)
    requires
        pos <= sibs@.len(),
    ensures
        ({
            let s = climb_spec(cur@, g as nat, chunk_views(sibs@), pos as int, pair_views(cache@));
            match r {
                None => s is None,
                Some(t) => s == Some((t.0@, t.1 as int, pair_views(t.2@))) && t.1 <= sibs@.len(),
            }
        }),
    decreases g,
{
    let ghost c0 = pair_views(cache@);
    if g == 0 {
        return None;
    }
    if g == 1 {
        return Some((cur, pos, cache));
    }
    let sk: u64 = if g % 2 == 0 {
        g + 1
    } else {
        g - 1
    };
    assert(sk as nat == crate::merkle::flip1(g as nat));
    let found = assoc_get(&cache, sk);
    let sv: Chunk;
    let pos2: usize;
    let mut cache2: Vec<(u64, Chunk)>;
    match found {
        Some(v) => {
            sv = v;
            pos2 = pos;
            cache2 = cache;
        },
        None => {
            if pos >= sibs.len() {
                return None;
            }
            sv = sibs[pos].clone();
            pos2 = pos + 1;
            cache2 = cache;
            let copy = sv.clone();
            cache2.push((sk, copy));
        },
    }
    proof {
        if assoc_lookup(c0, sk as nat) is Some {
            assert(pair_views(cache2@) == c0);
            assert(assoc_lookup(c0, sk as nat) == Some(sv@));
        } else {
            assert(pair_views(cache2@) =~= c0.push((sk as nat, sv@)));
            assert(sv@ == chunk_views(sibs@)[pos as int]);
        }
    }
    let ghost c1 = pair_views(cache2@);
    let parent = if g % 2 == 0 {
        hash_nodes(&cur, &sv)
    } else {
        hash_nodes(&sv, &cur)
    };
    let copy = parent.clone();
    cache2.push((g / 2, copy));
    proof {
        assert((g / 2) as nat == (g as nat) / 2);
        assert(pair_views(cache2@) =~= c1.push(((g as nat) / 2, parent@)));
        assert(climb_spec(cur@, g as nat, chunk_views(sibs@), pos as int, c0) == climb_spec(
            parent@,
            (g as nat) / 2,
            chunk_views(sibs@),
            pos2 as int,
            pair_views(cache2@),
        ));
    }
    climb(parent, g / 2, sibs, pos2, cache2)
}

/// The whole multi-proof fold, as executable code; mirrors
/// `multi_restore_spec`.
fn multi_restore(
    targets: &Vec<(u64, Chunk)>,
    sibs: &Vec<Chunk>,
    expected: &Chunk,
    i: usize,
    pos: usize,
    cache: Vec<(u64, Chunk)>,
) -> (r: bool)
    requires
        i <= targets@.len(),
        pos <= sibs@.len(),
    ensures
        r == multi_restore_spec(
            pair_views(targets@),
            chunk_views(sibs@),
            expected@,
            i as int,
            pos as int,
            pair_views(cache@),
        ),
    decreases targets@.len() - i,
{
    if i == targets.len() {
        return pos == sibs.len();
    }
    let g = targets[i].0;
    let leaf = targets[i].1.clone();
    proof {
        assert(pair_views(targets@)[i as int] == (g as nat, leaf@));
    }
    match climb(leaf, g, sibs, pos, cache) {
        None => false,
        Some((node, pos2, cache2)) => {
            if !node.eq_bytes(expected) {
                return false;
            }
            multi_restore(targets, sibs, expected, i + 1, pos2, cache2)
        },
    }
}

/// Checks a multi-proof: recomputes each target's chain in the order
/// given, reusing the other target leaves and every node already
/// derived or consumed as known siblings, and accepts exactly when all
/// chains reproduce the expected root and the sibling list is consumed
/// exactly.  Any mismatch gives false, never an error.
pub fn verify_multi(
    leaves: &Vec<Chunk>,
    siblings: &Vec<Chunk>,
    gindices: &Vec<u64>,
    expected_root: &Chunk,
) -> (r: bool)
    ensures
        r == (leaves@.len() == gindices@.len() && verify_multi_spec(
            target_pairs(gindices@, chunk_views(leaves@)),
            chunk_views(siblings@),
            expected_root@,
        )),
{
    if leaves.len() != gindices.len() {
        return false;
    }
    let mut targets: Vec<(u64, Chunk)> = Vec::new();
    let mut cache: Vec<(u64, Chunk)> = Vec::new();
    let mut i: usize = 0;
    while i < gindices.len()
        invariant
            i <= gindices@.len(),
            leaves@.len() == gindices@.len(),
            targets@.len() == i,
            cache@.len() == i,
            forall|k: int|
                0 <= k < i ==> pair_views(targets@)[k] == target_pairs(
                    gindices@,
                    chunk_views(leaves@),
                )[k],
            forall|k: int|
                0 <= k < i ==> pair_views(cache@)[k] == target_pairs(
                    gindices@,
                    chunk_views(leaves@),
                )[k],
        decreases gindices@.len() - i,
    {
        let g = gindices[i];
        let a = leaves[i].clone();
        let b = leaves[i].clone();
        let ghost tprev = targets@;
        let ghost cprev = cache@;
        targets.push((g, a));
        cache.push((g, b));
        proof {
            assert(targets@ == tprev.push((g, a)));
            assert(cache@ == cprev.push((g, b)));
            assert(pair_views(targets@)[i as int] == (g as nat, a@));
            assert(pair_views(cache@)[i as int] == (g as nat, b@));
            assert(forall|k: int| 0 <= k < i ==> targets@[k] == tprev[k] && cache@[k] == cprev[k]);
            assert(target_pairs(gindices@, chunk_views(leaves@))[i as int] == (
                gindices@[i as int] as nat,
                chunk_views(leaves@)[i as int],
            ));
            assert forall|k: int| 0 <= k < i + 1 implies pair_views(targets@)[k] == target_pairs(
                gindices@,
                chunk_views(leaves@),
            )[k] by {
                if k < i {
                    assert(pair_views(tprev)[k] == target_pairs(gindices@, chunk_views(leaves@))[k]);
                    assert(pair_views(targets@)[k] == (targets@[k].0 as nat, targets@[k].1@));
                    assert(pair_views(tprev)[k] == (tprev[k].0 as nat, tprev[k].1@));
                }
            }
            assert forall|k: int| 0 <= k < i + 1 implies pair_views(cache@)[k] == target_pairs(
                gindices@,
                chunk_views(leaves@),
            )[k] by {
                if k < i {
                    assert(pair_views(cprev)[k] == target_pairs(gindices@, chunk_views(leaves@))[k]);
                    assert(pair_views(cache@)[k] == (cache@[k].0 as nat, cache@[k].1@));
                    assert(pair_views(cprev)[k] == (cprev[k].0 as nat, cprev[k].1@));
                }
            }
        }
        i = i + 1;
    }
    proof {
        assert(pair_views(targets@) =~= target_pairs(gindices@, chunk_views(leaves@)));
        assert(pair_views(cache@) =~= target_pairs(gindices@, chunk_views(leaves@)));
    }
    multi_restore(&targets, siblings, expected_root, 0, 0, cache)
}

/// A lookup over keys all different from `key` finds nothing.
proof fn lemma_assoc_lookup_none(cache: Seq<(nat, Seq<u8>)>, key: nat)
    requires
        forall|idx: int| 0 <= idx < cache.len() ==> (#[trigger] cache[idx]).0 != key,
    ensures
        assoc_lookup(cache, key) is None,
    decreases cache.len(),
{
    if cache.len() > 0 {
        assert(cache[0].0 != key);
        assert(forall|idx: int| 0 <= idx < cache.skip(1).len() ==> (#[trigger] cache.skip(1)[idx])
            == cache[idx + 1]);
        lemma_assoc_lookup_none(cache.skip(1), key);
    }
}

/// A climb whose cache holds only the root, nodes of the target's own
/// path, and siblings of levels already climbed finds no shareable
/// node: it consumes one sibling from the list per remaining level and
/// folds them exactly as `restore_root` does.
proof fn lemma_climb_fresh(
    cur: Seq<u8>,
    g0: nat,
    m: nat,
    sibs: Seq<Seq<u8>>,
    pos: int,
    cache: Seq<(nat, Seq<u8>)>,
)
    requires
        g0 >= 1,
        m <= gindex_depth(g0),
        0 <= pos <= sibs.len(),
        forall|idx: int|
            0 <= idx < cache.len() ==> ((#[trigger] cache[idx]).0 == 1 || path_index_set(
                g0,
            ).contains(cache[idx].0) || gindex_depth(cache[idx].0) > gindex_depth(g0) - m),
    ensures
        ({
            let g = g0 / pow2(m);
            let d = (gindex_depth(g0) - m) as nat;
            match climb_spec(cur, g, sibs, pos, cache) {
                None => pos + d > sibs.len(),
                Some(t) => pos + d <= sibs.len() && t.0 == restore_root(
                    cur,
                    sibs.subrange(pos, pos + d),
                    g,
                ) && t.1 == pos + d,
            }
        }),
    decreases gindex_depth(g0) - m,
{
    lemma2_to64();
    let g = g0 / pow2(m);
    let d = (gindex_depth(g0) - m) as nat;
    lemma_gindex_quotient_depth(g0, m);
    assert(gindex_depth(g) == d && g >= 1);
    if m == gindex_depth(g0) {
        assert(g == 1) by {
            lemma_gindex_depth_bounds(g);
            if g >= 2 {
                assert(gindex_depth(g) >= 1) by {
                    lemma_pow2_unfold(1);
                }
            }
        }
        assert(sibs.subrange(pos, pos) =~= Seq::<Seq<u8>>::empty());
    } else {
        assert(g >= 2) by {
            if g == 1 {
                assert(gindex_depth(g) == 0);
            }
        }
        let sk = crate::merkle::flip1(g);
        lemma_flip1_depth(g);
        // The needed sibling is cached nowhere: it is not the root, it
        // is off the target's path, and it is deeper than every
        // already-climbed level's sibling is shallow.
        assert forall|idx: int| 0 <= idx < cache.len() implies (#[trigger] cache[idx]).0 != sk by {
            let key = cache[idx].0;
            assert(gindex_depth(sk) == d && sk >= 2);
            if key == 1 {
                assert(gindex_depth(1nat) == 0);
            }
            if path_index_set(g0).contains(key) && key == sk {
                assert(branch_index_set(g0).contains(sk)) by {
                    assert(m < gindex_depth(g0) && sk == crate::merkle::flip1(g0 / pow2(m)));
                }
                lemma_branch_path_disjoint(g0, sk);
            }
        }
        lemma_assoc_lookup_none(cache, sk);
        if pos >= sibs.len() {
            assert(climb_spec(cur, g, sibs, pos, cache) is None);
            assert(pos + d > sibs.len());
        } else {
            let sv = sibs[pos];
            let cache2 = cache.push((sk, sv));
            let parent = if g % 2 == 0 {
                hash2(cur, sv)
            } else {
                hash2(sv, cur)
            };
            let cache3 = cache2.push((g / 2, parent));
            assert(climb_spec(cur, g, sibs, pos, cache) == climb_spec(
                parent,
                g / 2,
                sibs,
                pos + 1,
                cache3,
            ));
            assert(g / 2 == g0 / pow2((m + 1) as nat)) by {
                lemma_pow2_pos(m);
                lemma_pow2_unfold(m + 1);
                lemma_div_denominator(g0 as int, pow2(m) as int, 2);
                assert(pow2(m) * 2 == pow2(m + 1));
            }
            assert forall|idx: int| 0 <= idx < cache3.len() implies ((#[trigger] cache3[idx]).0
                == 1 || path_index_set(g0).contains(cache3[idx].0) || gindex_depth(cache3[idx].0)
                > gindex_depth(g0) - (m + 1)) by {
                if idx < cache.len() {
                    assert(cache3[idx] == cache[idx]);
                } else if idx == cache.len() {
                    assert(cache3[idx].0 == sk && gindex_depth(sk) == d);
                } else {
                    assert(cache3[idx].0 == g / 2);
                    if g / 2 >= 2 {
                        assert(path_index_set(g0).contains(g / 2)) by {
                            lemma_gindex_quotient_depth(g0, (m + 1) as nat);
                            assert(((m + 1) as nat) < gindex_depth(g0) && g / 2 == g0 / pow2(
                                (m + 1) as nat,
                            )) by {
                                if m + 1 == gindex_depth(g0) {
                                    assert(gindex_depth(g / 2) == 0);
                                    lemma_gindex_depth_bounds((g / 2) as nat);
                                    assert(g / 2 < pow2(1)) by {
                                        lemma_pow2_unfold(1);
                                    }
                                }
                            }
                        }
                    }
                }
            }
            lemma_climb_fresh(parent, g0, (m + 1) as nat, sibs, pos + 1, cache3);
            if pos + d <= sibs.len() {
                // Fold the consumed sibling back into the restore shape.
                let window = sibs.subrange(pos, pos + d);
                assert(window[0] == sv);
                assert(window.skip(1) =~= sibs.subrange(pos + 1, pos + 1 + (d - 1)));
                assert(restore_root(cur, window, g) == restore_root(
                    parent,
                    sibs.subrange(pos + 1, pos + 1 + (d - 1)),
                    g / 2,
                ));
            }
        }
    }
}

/// On a single target the multi-proof fold is the single verifier:
/// there is nothing to share, so acceptance means exactly that the
/// sibling count matches the gindex's depth and the plain restore fold
/// reaches the expected root.
pub proof fn lemma_single_target_multiproof(g: nat, leaf: Seq<u8>, sibs: Seq<Seq<u8>>, root: Seq<
    u8,
>)
    requires
        g >= 1,
    ensures
        verify_multi_spec(seq![(g, leaf)], sibs, root) == (gindex_depth(g) == sibs.len()
            && restore_root(leaf, sibs, g) == root),
{
    lemma2_to64();
    let targets = seq![(g, leaf)];
    assert(targets[0] == (g, leaf));
    assert forall|idx: int| 0 <= idx < targets.len() implies ((#[trigger] targets[idx]).0 == 1
        || path_index_set(g).contains(targets[idx].0) || gindex_depth(targets[idx].0)
        > gindex_depth(g)) by {
        if g >= 2 {
            assert(path_index_set(g).contains(g)) by {
                lemma_basic_div_is_identity(g as int);
                assert(gindex_depth(g) >= 1) by {
                    lemma_gindex_depth_bounds(g);
                    if gindex_depth(g) == 0 {
                        assert(g < pow2(1)) by {
                            lemma_pow2_unfold(1);
                        }
                    }
                }
                assert(0nat < gindex_depth(g) && g == g / pow2(0));
            }
        }
    }
    assert(g / pow2(0) == g) by {
        lemma_basic_div_is_identity(g as int);
    }
    lemma_climb_fresh(leaf, g, 0, sibs, 0, targets);
    let d = gindex_depth(g);
    match climb_spec(leaf, g, sibs, 0, targets) {
        None => {
            assert(d > sibs.len());
        },
        Some(t) => {
            assert(multi_restore_spec(targets, sibs, root, 0, 0, targets) == (t.0 == root
                && multi_restore_spec(targets, sibs, root, 1, t.1, t.2)));
            if d == sibs.len() {
                assert(sibs.subrange(0, d as int) =~= sibs);
            } else {
                assert(t.1 != sibs.len());
            }
        },
    }
}

/// Whether `prove` succeeds on a path of a schema-respecting value.
pub open spec fn provable(v: TypedValue, path: Seq<u64>) -> bool {
    path_valid(v, path) && path_gindex(v, path) <= u64::MAX
}

/// The error `prove` returns on a failing path of a schema-respecting
/// value.
pub open spec fn prove_err(v: TypedValue, path: Seq<u64>) -> MerkleError {
    if !path_valid(v, path) {
        path_error(v, path)
    } else {
        MerkleError::IndexOutOfRange
    }
}

/// What each entry of a multi-proof's target lists asserts: some
/// requested path resolves to this gindex and chunk, and the chunk
/// folds to the value's root along its branch.
pub open spec fn target_of_some_path(v: TypedValue, paths: Seq<Seq<u64>>, p: Proof) -> bool {
    exists|i: int|
        0 <= i < paths.len() && p.gindex as nat == path_gindex(v, #[trigger] paths[i])
            && p.leaf@ == path_value(v, paths[i])
}

/// What one emitted target entry asserts: some requested path resolves
/// to this gindex and this chunk.
pub open spec fn entry_of_some_path(
    v: TypedValue,
    paths: Seq<Seq<u64>>,
    g: u64,
    leaf: Seq<u8>,
) -> bool {
    exists|i: int|
        0 <= i < paths.len() && g as nat == path_gindex(v, #[trigger] paths[i]) && leaf
            == path_value(v, paths[i])
}

/// Everything multi-proof emission needs of a single-target proof.
pub open spec fn emission_ready(p: Proof) -> bool {
    &&& p.leaf.wf()
    &&& all_wf(p.branch@)
    &&& p.gindex as nat / pow2(p.branch@.len()) == 1
}

/// Whether some entry of `known` equals `key`.
fn known_contains(known: &Vec<u64>, key: u64) -> (r: bool)
    ensures
        r == known@.contains(key),
{
    let mut j: usize = 0;
    while j < known.len()
        invariant
            j <= known@.len(),
            forall|k: int| 0 <= k < j ==> known@[k] != key,
        decreases known@.len() - j,
    {
        if known[j] == key {
            return true;
        }
        j = j + 1;
    }
    false
}

/// Sorts single-target proofs by gindex, descending.
fn sort_proofs_desc(input: Vec<Proof>, Ghost(v): Ghost<TypedValue>, Ghost(paths): Ghost<
    Seq<Seq<u64>>,
>) -> (out: Vec<Proof>)
    requires
        forall|k: int|
            0 <= k < input@.len() ==> target_of_some_path(v, paths, #[trigger] input@[k])
                && emission_ready(input@[k]),
    ensures
        out@.len() == input@.len(),
        forall|j: int| 0 <= j < out@.len() - 1 ==> (#[trigger] out@[j].gindex) >= out@[j + 1].gindex,
        forall|k: int|
            0 <= k < out@.len() ==> target_of_some_path(v, paths, #[trigger] out@[k])
                && emission_ready(out@[k]),
{
    let mut rest = input;
    let mut out: Vec<Proof> = Vec::new();
    while rest.len() > 0
        invariant
            out@.len() + rest@.len() == input@.len(),
            forall|k: int|
                0 <= k < rest@.len() ==> target_of_some_path(v, paths, #[trigger] rest@[k])
                    && emission_ready(rest@[k]),
            forall|k: int|
                0 <= k < out@.len() ==> target_of_some_path(v, paths, #[trigger] out@[k])
                    && emission_ready(out@[k]),
            forall|j: int| 0 <= j < out@.len() - 1 ==> (#[trigger] out@[j].gindex) >= out@[j
                + 1].gindex,
            forall|j: int, k: int|
                0 <= j < out@.len() && 0 <= k < rest@.len() ==> (#[trigger] out@[j].gindex) >= (
                #[trigger] rest@[k].gindex),
        decreases rest@.len(),
    {
        let mut best: usize = 0;
        let mut j: usize = 1;
        while j < rest.len()
            invariant
                best < j <= rest@.len(),
                rest@.len() > 0,
                forall|k: int| 0 <= k < j ==> rest@[best as int].gindex >= (#[trigger] rest@[
                k].gindex),
            decreases rest@.len() - j,
        {
            if rest[j].gindex > rest[best].gindex {
                best = j;
            }
            j = j + 1;
        }
        let ghost prev_rest = rest@;
        let ghost prev_out = out@;
        let p = rest.remove(best);
        out.push(p);
        proof {
            assert(rest@ == prev_rest.remove(best as int));
            assert(forall|k: int|
                0 <= k < rest@.len() ==> rest@[k] == (if k < best {
                    prev_rest[k]
                } else {
                    prev_rest[k + 1]
                }));
            assert(forall|k: int| 0 <= k < prev_out.len() ==> out@[k] == prev_out[k]);
            assert(out@[prev_out.len() as int] == prev_rest[best as int]);
        }
    }
    out
}

/// A multi-proof: several chunks proven against one root, with every
/// needed sibling carried exactly once, in the order verification
/// consumes it.
#[derive(Debug)]
pub struct MultiProof {
    /// The proven chunks, by gindex descending.
    pub leaves: Vec<Chunk>,
    /// The gindex of each leaf against the value's own root, matching
    /// `leaves`, descending.
    pub gindices: Vec<u64>,
    /// The helper nodes: the targets' siblings, except nodes on some
    /// target's own path, each exactly once, in consumption order.
    pub siblings: Vec<Chunk>,
}

impl TypedValue {
    /// Produces one proof for several paths against this value's root.
    /// Succeeds exactly when the value respects its schema and every
    /// path resolves with its composed index in 64 bits.  Targets are
    /// emitted by gindex descending; of the sibling nodes, those that
    /// are themselves targets or on a target's path are elided, the
    /// rest appear exactly once, in the order `verify_multi` consumes
    /// them.
    pub fn multi_prove(&self, paths: &Vec<Vec<u64>>) -> (r: Result<MultiProof, MerkleError>)
        ensures
            r is Ok <==> valid(*self) && (forall|i: int|
                0 <= i < paths@.len() ==> provable(*self, (#[trigger] paths@[i])@)),
            r matches Ok(mp) ==> {
                &&& mp.leaves@.len() == paths@.len()
                &&& mp.gindices@.len() == paths@.len()
                &&& forall|j: int|
                    0 <= j < mp.gindices@.len() - 1 ==> (#[trigger] mp.gindices@[j])
                        >= mp.gindices@[j + 1]
                &&& forall|j: int|
                    0 <= j < paths@.len() ==> entry_of_some_path(
                        *self,
                        paths@.map_values(|p: Vec<u64>| p@),
                        #[trigger] mp.gindices@[j],
                        mp.leaves@[j]@,
                    )
                &&& all_wf(mp.leaves@)
                &&& all_wf(mp.siblings@)
            },
            r matches Err(e) ==> if !valid(*self) {
                e == MerkleError::SchemaViolation
            } else {
                exists|i: int|
                    0 <= i < paths@.len() && !provable(*self, (#[trigger] paths@[i])@) && (forall|
                        k: int,
                    | 0 <= k < i ==> provable(*self, (#[trigger] paths@[k])@)) && e == prove_err(
                        *self,
                        paths@[i]@,
                    )
            },
    {
        if !self.validate() {
            return Err(MerkleError::SchemaViolation);
        }
        let mut proofs: Vec<Proof> = Vec::new();
        let mut i: usize = 0;
        while i < paths.len()
            invariant
                valid(*self),
                i <= paths@.len(),
                proofs@.len() == i,
                forall|k: int| 0 <= k < i ==> provable(*self, (#[trigger] paths@[k])@),
                forall|k: int|
                    0 <= k < i ==> target_of_some_path(
                        *self,
                        paths@.map_values(|p: Vec<u64>| p@),
                        #[trigger] proofs@[k],
                    ) && emission_ready(proofs@[k]),
            decreases paths@.len() - i,
        {
            match self.prove(&paths[i]) {
                Ok(p) => {
                    proofs.push(p);
                    proof {
                        let ghost ps = paths@.map_values(|p: Vec<u64>| p@);
                        assert(ps[i as int] == paths@[i as int]@);
                        assert(target_of_some_path(*self, ps, proofs@[i as int]));
                    }
                },
                Err(e) => {
                    return Err(e);
                },
            }
            i = i + 1;
        }
        let sorted = sort_proofs_desc(
            proofs,
            Ghost(*self),
            Ghost(paths@.map_values(|p: Vec<u64>| p@)),
        );
        let mut leaves: Vec<Chunk> = Vec::new();
        let mut gindices: Vec<u64> = Vec::new();
        let mut known: Vec<u64> = Vec::new();
        let mut j: usize = 0;
        while j < sorted.len()
            invariant
                j <= sorted@.len(),
                leaves@.len() == j,
                gindices@.len() == j,
                all_wf(leaves@),
                sorted@.len() == paths@.len(),
                forall|k: int|
                    0 <= k < sorted@.len() ==> target_of_some_path(
                        *self,
                        paths@.map_values(|p: Vec<u64>| p@),
                        #[trigger] sorted@[k],
                    ) && emission_ready(sorted@[k]),
                forall|k: int|
                    0 <= k < sorted@.len() - 1 ==> (#[trigger] sorted@[k].gindex) >= sorted@[k
                        + 1].gindex,
                forall|k: int| 0 <= k < j ==> (#[trigger] gindices@[k]) == sorted@[k].gindex,
                forall|k: int| 0 <= k < j ==> (#[trigger] leaves@[k])@ == sorted@[k].leaf@,
            decreases sorted@.len() - j,
        {
            let leaf = sorted[j].leaf.clone();
            let g = sorted[j].gindex;
            leaves.push(leaf);
            gindices.push(g);
            known.push(g);
            j = j + 1;
        }
        let mut siblings: Vec<Chunk> = Vec::new();
        let mut j: usize = 0;
        while j < sorted.len()
            invariant
                j <= sorted@.len(),
                all_wf(siblings@),
                forall|k: int|
                    0 <= k < sorted@.len() ==> target_of_some_path(
                        *self,
                        paths@.map_values(|p: Vec<u64>| p@),
                        #[trigger] sorted@[k],
                    ) && emission_ready(sorted@[k]),
            decreases sorted@.len() - j,
        {
            let mut cur = sorted[j].gindex;
            let mut k: usize = 0;
            proof {
                lemma2_to64();
                lemma_basic_div_is_identity(sorted@[j as int].gindex as int);
            }
            while k < sorted[j].branch.len()
                invariant
                    j < sorted@.len(),
                    k <= sorted@[j as int].branch@.len(),
                    all_wf(siblings@),
                    emission_ready(sorted@[j as int]),
                    cur as nat == sorted@[j as int].gindex as nat / pow2(k as nat),
                decreases sorted@[j as int].branch@.len() - k,
            {
                let sib: u64 = if cur % 2 == 0 {
                    cur + 1
                } else {
                    cur - 1
                };
                if !known_contains(&known, sib) {
                    let c = sorted[j].branch[k].clone();
                    siblings.push(c);
                    known.push(sib);
                }
                known.push(cur / 2);
                proof {
                    lemma_pow2_pos(k as nat);
                    lemma_pow2_unfold((k + 1) as nat);
                    lemma_div_denominator(
                        sorted@[j as int].gindex as int,
                        pow2(k as nat) as int,
                        2,
                    );
                    assert(pow2(k as nat) * 2 == pow2((k + 1) as nat));
                }
                cur = cur / 2;
                k = k + 1;
            }
            j = j + 1;
        }
        let result = MultiProof { leaves, gindices, siblings };
        proof {
            let ps = paths@.map_values(|p: Vec<u64>| p@);
            assert forall|j2: int| 0 <= j2 < paths@.len() implies entry_of_some_path(
                *self,
                ps,
                #[trigger] result.gindices@[j2],
                result.leaves@[j2]@,
            ) by {
                assert(target_of_some_path(*self, ps, sorted@[j2]));
                let i2 = choose|i2: int|
                    0 <= i2 < ps.len() && sorted@[j2].gindex as nat == path_gindex(
                        *self,
                        #[trigger] ps[i2],
                    ) && sorted@[j2].leaf@ == path_value(*self, ps[i2]);
                assert(0 <= i2 < ps.len() && result.gindices@[j2] as nat == path_gindex(
                    *self,
                    ps[i2],
                ) && result.leaves@[j2]@ == path_value(*self, ps[i2]));
            }
        }
        Ok(result)
    }
}

} // verus!
