//! The Merkleizer and its proofs.
//!
//! A tree of depth `d` over a sequence of leaf chunks is the binary hash
//! tree whose leaves are the chunks padded with zero chunks up to `2^d`.
//! `subtree_root` is the mathematical root of such a tree;
//! `restore_root` is the bottom-up fold a verifier runs over a leaf and
//! its sibling path.  The central theorem says that the fold over the
//! sibling values actually found in the tree recovers the tree's root.

use crate::chunk::{all_wf, chunk_views, length_chunk, zero_chunk, Chunk};
use crate::hashing::{hash2, hash_nodes, zero_root};
use vstd::arithmetic::div_mod::{
    lemma_basic_div, lemma_div_denominator, lemma_hoist_over_denominator, lemma_mod_multiples_vanish,
    lemma_multiply_divide_lt,
};
use vstd::arithmetic::power2::{
    lemma2_to64, lemma_pow2_adds, lemma_pow2_pos, lemma_pow2_strictly_increases, lemma_pow2_unfold,
    pow2,
};
use vstd::prelude::*;

verus! {

/// Root of the tree of the given depth over the leaves, padded with zero
/// chunks to `2^depth`; the left subtree takes the first `2^(depth-1)`
/// leaves.  With depth 0 and one leaf the root is that leaf, unhashed.
pub open spec fn subtree_root(leaves: Seq<Seq<u8>>, depth: nat) -> Seq<u8>
    decreases depth,
{
    if depth == 0 {
        if leaves.len() >= 1 {
            leaves[0]
        } else {
            zero_chunk()
        }
    } else {
        let half = pow2((depth - 1) as nat) as int;
        if leaves.len() <= half {
            hash2(subtree_root(leaves, (depth - 1) as nat), zero_root((depth - 1) as nat))
        } else {
            hash2(
                subtree_root(leaves.take(half), (depth - 1) as nat),
                subtree_root(leaves.skip(half), (depth - 1) as nat),
            )
        }
    }
}

pub proof fn lemma_subtree_root_empty(depth: nat)
    ensures
        subtree_root(Seq::<Seq<u8>>::empty(), depth) == zero_root(depth),
    decreases depth,
{
    if depth > 0 {
        lemma_pow2_pos((depth - 1) as nat);
        lemma_subtree_root_empty((depth - 1) as nat);
    }
}

/// The leaves covered by the node at height `k`, index `j` within its
/// level: the slice `[j * 2^k, (j + 1) * 2^k)` of the leaf sequence,
/// clamped to its end.
pub open spec fn leaf_slice(leaves: Seq<Seq<u8>>, k: nat, j: nat) -> Seq<Seq<u8>> {
    let lo = (j * pow2(k)) as int;
    let hi = lo + pow2(k);
    if lo >= leaves.len() {
        Seq::empty()
    } else if hi <= leaves.len() {
        leaves.subrange(lo, hi)
    } else {
        leaves.subrange(lo, leaves.len() as int)
    }
}

/// The node at height 0, index 0 over the whole sequence is the whole
/// sequence, as long as it fits one tree of depth `k`.
pub proof fn lemma_leaf_slice_full(leaves: Seq<Seq<u8>>, k: nat)
    requires
        leaves.len() <= pow2(k),
    ensures
        leaf_slice(leaves, k, 0) == leaves,
{
    assert(0 * pow2(k) == 0) by (nonlinear_arith);
    if leaves.len() == 0 {
        assert(leaf_slice(leaves, k, 0) =~= leaves);
    } else {
        assert(leaf_slice(leaves, k, 0) =~= leaves);
    }
}

/// A node's value is the hash of its two children's values: the slice at
/// height `k` splits into the slices of its children at height `k - 1`.
pub proof fn lemma_subtree_split(leaves: Seq<Seq<u8>>, k: nat, j: nat)
    requires
        k >= 1,
    ensures
        subtree_root(leaf_slice(leaves, k, j), k) == hash2(
            subtree_root(leaf_slice(leaves, (k - 1) as nat, 2 * j), (k - 1) as nat),
            subtree_root(leaf_slice(leaves, (k - 1) as nat, 2 * j + 1), (k - 1) as nat),
        ),
{
    let km1 = (k - 1) as nat;
    let h = pow2(km1) as int;
    let p = pow2(k) as int;
    let n = leaves.len() as int;
    lemma_pow2_pos(km1);
    lemma_pow2_unfold(k);
    assert(p == 2 * h);
    assert((2 * j) * pow2(km1) == j * pow2(k) && (2 * j + 1) * pow2(km1) == j * pow2(k) + pow2(
        km1,
    )) by (nonlinear_arith)
        requires
            pow2(k) == 2 * pow2(km1),
    ;
    let lo = (j * pow2(k)) as int;
    let s = leaf_slice(leaves, k, j);
    if lo >= n {
        assert(s =~= Seq::<Seq<u8>>::empty());
        lemma_subtree_root_empty(k);
        lemma_subtree_root_empty(km1);
        assert(leaf_slice(leaves, km1, 2 * j) =~= Seq::<Seq<u8>>::empty());
        assert(leaf_slice(leaves, km1, 2 * j + 1) =~= Seq::<Seq<u8>>::empty());
    } else {
        let hc = if lo + p <= n {
            lo + p
        } else {
            n
        };
        assert(s == leaves.subrange(lo, hc));
        if hc - lo <= h {
            // Right child covers no real leaf; the left child covers the
            // same slice.
            assert(n <= lo + h);
            assert(leaf_slice(leaves, km1, 2 * j) =~= s);
            assert(leaf_slice(leaves, km1, 2 * j + 1) =~= Seq::<Seq<u8>>::empty());
            lemma_subtree_root_empty(km1);
        } else {
            assert(s.len() > h);
            assert(s.take(h) =~= leaf_slice(leaves, km1, 2 * j));
            assert(s.skip(h) =~= leaf_slice(leaves, km1, 2 * j + 1));
        }
    }
}

/// Restating a node of the left half-tree: slices that lie entirely under
/// the left child of the root are slices of the left child's leaves.
pub proof fn lemma_leaf_slice_left(leaves: Seq<Seq<u8>>, d: nat, k: nat, j: nat)
    requires
        k <= d,
        (j + 1) * pow2(k) <= pow2(d),
    ensures
        leaf_slice(leaves, k, j) == leaf_slice(leaf_slice(leaves, d, 0), k, j),
{
    let n = leaves.len() as int;
    let p = pow2(k) as int;
    let pd = pow2(d) as int;
    lemma_pow2_pos(k);
    lemma_pow2_pos(d);
    assert(0 * pow2(d) == 0) by (nonlinear_arith);
    let lo = (j * pow2(k)) as int;
    assert((j + 1) * pow2(k) == j * pow2(k) + pow2(k)) by (nonlinear_arith);
    assert((j + 1) * pow2(k) == lo + p);
    let left = leaf_slice(leaves, d, 0);
    if n == 0 {
        assert(left =~= Seq::<Seq<u8>>::empty());
        assert(leaf_slice(leaves, k, j) =~= leaf_slice(left, k, j));
    } else {
        let nl = if pd <= n {
            pd
        } else {
            n
        };
        assert(left == leaves.subrange(0, nl));
        if lo >= nl {
            // Both sides empty: lo >= nl means lo >= n or lo >= pd, and
            // lo + p <= pd rules out the latter unless lo >= n too.
            assert(leaf_slice(leaves, k, j) =~= Seq::<Seq<u8>>::empty());
            assert(leaf_slice(left, k, j) =~= Seq::<Seq<u8>>::empty());
        } else {
            assert(leaf_slice(leaves, k, j) =~= leaf_slice(left, k, j));
        }
    }
}

/// Restating a node of the right half-tree: slices that lie entirely
/// under the right child of the root are slices of the right child's
/// leaves, shifted down by `2^(d-k)` node positions.
pub proof fn lemma_leaf_slice_right(leaves: Seq<Seq<u8>>, d: nat, k: nat, j: nat)
    requires
        k <= d,
        (j + 1) * pow2(k) <= pow2(d),
        leaves.len() <= pow2(d + 1),
    ensures
        leaf_slice(leaves, k, (pow2((d - k) as nat) + j) as nat) == leaf_slice(
            leaf_slice(leaves, d, 1),
            k,
            j,
        ),
{
    let n = leaves.len() as int;
    let p = pow2(k) as int;
    let pd = pow2(d) as int;
    lemma_pow2_pos(k);
    lemma_pow2_pos(d);
    lemma_pow2_adds((d - k) as nat, k);
    assert(pow2((d - k) as nat) * pow2(k) == pow2(d));
    let lo = (j * pow2(k)) as int;
    assert((j + 1) * pow2(k) == j * pow2(k) + pow2(k)) by (nonlinear_arith);
    assert((j + 1) * pow2(k) == lo + p);
    assert((pow2((d - k) as nat) + j) * pow2(k) == pow2((d - k) as nat) * pow2(k) + j * pow2(k))
        by (nonlinear_arith);
    assert(((pow2((d - k) as nat) + j) * pow2(k)) as int == pd + lo);
    lemma_pow2_unfold(d + 1);
    assert(1 * pow2(d) == pow2(d)) by (nonlinear_arith);
    assert((1 + 1) * pow2(d) == 2 * pow2(d)) by (nonlinear_arith);
    let right = leaf_slice(leaves, d, 1);
    if n <= pd {
        assert(right =~= Seq::<Seq<u8>>::empty());
        assert(leaf_slice(leaves, k, (pow2((d - k) as nat) + j) as nat) =~= Seq::<Seq<u8>>::empty());
        assert(leaf_slice(right, k, j) =~= Seq::<Seq<u8>>::empty());
    } else {
        assert(right == leaves.subrange(pd, n));
        if lo >= n - pd {
            assert(leaf_slice(leaves, k, (pow2((d - k) as nat) + j) as nat)
                =~= Seq::<Seq<u8>>::empty());
            assert(leaf_slice(right, k, j) =~= Seq::<Seq<u8>>::empty());
        } else {
            assert(leaf_slice(leaves, k, (pow2((d - k) as nat) + j) as nat) =~= leaf_slice(
                right,
                k,
                j,
            ));
        }
    }
}

/// The index of the sibling of node `m` within its level.
pub open spec fn flip1(m: nat) -> nat {
    if m % 2 == 0 {
        m + 1
    } else {
        (m - 1) as nat
    }
}

/// Recomputing a root from a leaf and its sibling path: fold upward,
/// halving the index, hashing left or right by the parity of the current
/// index.
pub open spec fn restore_root(leaf: Seq<u8>, sibs: Seq<Seq<u8>>, g: nat) -> Seq<u8>
    decreases sibs.len(),
{
    if sibs.len() == 0 {
        leaf
    } else {
        let parent = if g % 2 == 0 {
            hash2(leaf, sibs[0])
        } else {
            hash2(sibs[0], leaf)
        };
        restore_root(parent, sibs.skip(1), g / 2)
    }
}

/// The sibling values of leaf `i` in the tree of the given depth: at each
/// height `k`, the value of the node next to the target's ancestor.
pub open spec fn proof_siblings_ok(
    leaves: Seq<Seq<u8>>,
    depth: nat,
    i: nat,
    sibs: Seq<Seq<u8>>,
) -> bool {
    &&& sibs.len() == depth
    &&& forall|k: int|
        0 <= k < depth ==> sibs[k] == subtree_root(
            leaf_slice(leaves, k as nat, flip1(i / pow2(k as nat))),
            k as nat,
        )
}

/// The value of leaf `i` of a padded tree.
pub open spec fn leaf_value(leaves: Seq<Seq<u8>>, i: nat) -> Seq<u8> {
    subtree_root(leaf_slice(leaves, 0, i), 0)
}

pub proof fn lemma_leaf_value(leaves: Seq<Seq<u8>>, i: nat)
    ensures
        leaf_value(leaves, i) == if i < leaves.len() {
            leaves[i as int]
        } else {
            zero_chunk()
        },
{
    lemma2_to64();
    assert(i * 1 == i) by (nonlinear_arith);
    if i < leaves.len() {
        assert(leaf_slice(leaves, 0, i).len() >= 1);
        assert(leaf_slice(leaves, 0, i)[0] == leaves[i as int]);
    }
}

/// Peeling the topmost step off a restore fold.
pub proof fn lemma_restore_snoc(leaf: Seq<u8>, sibs: Seq<Seq<u8>>, s: Seq<u8>, g: nat)
    ensures
        restore_root(leaf, sibs.push(s), g) == ({
            let r = restore_root(leaf, sibs, g);
            if (g / pow2(sibs.len())) % 2 == 0 {
                hash2(r, s)
            } else {
                hash2(s, r)
            }
        }),
    decreases sibs.len(),
{
    lemma2_to64();
    let full = sibs.push(s);
    assert(full.len() == sibs.len() + 1);
    let parent = if g % 2 == 0 {
        hash2(leaf, full[0])
    } else {
        hash2(full[0], leaf)
    };
    assert(restore_root(leaf, full, g) == restore_root(parent, full.skip(1), g / 2));
    if sibs.len() == 0 {
        assert(full[0] == s);
        assert(full.skip(1) =~= Seq::<Seq<u8>>::empty());
        assert(restore_root(parent, full.skip(1), g / 2) == parent);
        assert(restore_root(leaf, sibs, g) == leaf);
        assert(g / pow2(0) == g) by {
            lemma_basic_div_is_identity(g as int);
        }
    } else {
        assert(full[0] == sibs[0]);
        assert(full.skip(1) =~= sibs.skip(1).push(s));
        lemma_restore_snoc(parent, sibs.skip(1), s, g / 2);
        assert(restore_root(leaf, sibs, g) == restore_root(parent, sibs.skip(1), g / 2));
        assert(sibs.skip(1).len() == sibs.len() - 1);
        lemma_pow2_unfold(sibs.len());
        lemma_pow2_pos((sibs.len() - 1) as nat);
        assert((g / 2) / pow2((sibs.len() - 1) as nat) == g / pow2(sibs.len())) by {
            lemma_div_denominator(g as int, 2, pow2((sibs.len() - 1) as nat) as int);
            assert(2 * pow2((sibs.len() - 1) as nat) == pow2(sibs.len()));
        }
    }
}

/// Division by one is the identity.
pub proof fn lemma_basic_div_is_identity(x: int)
    requires
        x >= 0,
    ensures
        x / 1 == x,
{
    vstd::arithmetic::div_mod::lemma_div_by_self(1);
    vstd::arithmetic::div_mod::lemma_fundamental_div_mod(x, 1);
}

/// The restore fold only reads the parities of `g / 2^k`.
pub proof fn lemma_restore_parity(leaf: Seq<u8>, sibs: Seq<Seq<u8>>, g1: nat, g2: nat)
    requires
        forall|k: nat| k < sibs.len() ==> #[trigger] ((g1 / pow2(k)) % 2) == (g2 / pow2(k)) % 2,
    ensures
        restore_root(leaf, sibs, g1) == restore_root(leaf, sibs, g2),
    decreases sibs.len(),
{
    lemma2_to64();
    if sibs.len() > 0 {
        assert((g1 / pow2(0)) % 2 == (g2 / pow2(0)) % 2);
        assert(g1 / 1 == g1 && g2 / 1 == g2) by {
            lemma_basic_div_is_identity(g1 as int);
            lemma_basic_div_is_identity(g2 as int);
        }
        let parent = if g1 % 2 == 0 {
            hash2(leaf, sibs[0])
        } else {
            hash2(sibs[0], leaf)
        };
        assert forall|k: nat| k < sibs.skip(1).len() implies #[trigger] (((g1 / 2) / pow2(k)) % 2)
            == ((g2 / 2) / pow2(k)) % 2 by {
            lemma_pow2_pos(k);
            lemma_pow2_unfold(k + 1);
            lemma_div_denominator(g1 as int, 2, pow2(k) as int);
            lemma_div_denominator(g2 as int, 2, pow2(k) as int);
            assert((g1 / pow2(k + 1)) % 2 == (g2 / pow2(k + 1)) % 2);
        }
        lemma_restore_parity(parent, sibs.skip(1), g1 / 2, g2 / 2);
    }
}

/// The sibling index stays inside an even bound.
proof fn lemma_flip1_bound(m: nat, b: nat)
    requires
        m < b,
        b % 2 == 0,
    ensures
        flip1(m) < b,
{
}

/// Core of the round trip, with the fold keyed by the leaf index itself.
proof fn lemma_restore_from_tree_idx(leaves: Seq<Seq<u8>>, depth: nat, i: nat, sibs: Seq<Seq<u8>>)
    requires
        i < pow2(depth),
        leaves.len() <= pow2(depth),
        proof_siblings_ok(leaves, depth, i, sibs),
    ensures
        restore_root(leaf_value(leaves, i), sibs, i) == subtree_root(leaves, depth),
    decreases depth,
{
    lemma2_to64();
    if depth == 0 {
        lemma_leaf_value(leaves, i);
        assert(i == 0);
        if leaves.len() == 0 {
            assert(leaf_slice(leaves, 0, 0) =~= Seq::<Seq<u8>>::empty());
        } else {
            assert(0 * pow2(0) == 0) by (nonlinear_arith);
            assert(leaf_slice(leaves, 0, 0)[0] == leaves[0]);
        }
    } else {
        let d = (depth - 1) as nat;
        let half = pow2(d);
        lemma_pow2_pos(d);
        lemma_pow2_unfold(depth);
        let leaf = leaf_value(leaves, i);
        let sibs0 = sibs.take(d as int);
        let s_top = sibs[d as int];
        assert(sibs =~= sibs0.push(s_top));
        lemma_restore_snoc(leaf, sibs0, s_top, i);
        assert(sibs0.len() == d);
        if i < half {
            assert(i / half == 0) by {
                lemma_basic_div(i as int, half as int);
            }
            let left = leaf_slice(leaves, d, 0);
            // The lower siblings are siblings within the left half-tree.
            assert forall|k: int| 0 <= k < d implies sibs0[k] == subtree_root(
                leaf_slice(left, k as nat, flip1(i / pow2(k as nat))),
                k as nat,
            ) by {
                let kn = k as nat;
                lemma_pow2_pos(kn);
                lemma_pow2_adds(kn, (d - kn) as nat);
                assert(i / pow2(kn) < pow2((d - kn) as nat)) by {
                    lemma_multiply_divide_lt(i as int, pow2(kn) as int, pow2((d - kn) as nat) as int);
                }
                assert(pow2((d - kn) as nat) % 2 == 0) by {
                    lemma_pow2_unfold((d - kn) as nat);
                }
                lemma_flip1_bound(i / pow2(kn), pow2((d - kn) as nat));
                assert((flip1(i / pow2(kn)) + 1) * pow2(kn) <= pow2(d)) by (nonlinear_arith)
                    requires
                        flip1(i / pow2(kn)) + 1 <= pow2((d - kn) as nat),
                        pow2(kn) >= 1,
                        pow2(kn) * pow2((d - kn) as nat) == pow2(d),
                ;
                lemma_leaf_slice_left(leaves, d, kn, flip1(i / pow2(kn)));
            }
            assert(leaf == leaf_value(left, i)) by {
                assert((i + 1) * pow2(0) <= pow2(d)) by (nonlinear_arith)
                    requires
                        i + 1 <= pow2(d),
                        pow2(0) == 1,
                ;
                lemma_leaf_slice_left(leaves, d, 0, i);
            }
            assert(left.len() <= half);
            lemma_restore_from_tree_idx(left, d, i, sibs0);
            // The top sibling is the right half-tree's root.
            assert(flip1(i / half) == 1);
            let right = leaf_slice(leaves, d, 1);
            assert(s_top == subtree_root(right, d));
            // Recompose against the unfolding of subtree_root(leaves, depth).
            if leaves.len() <= half {
                lemma_leaf_slice_full(leaves, d);
                assert(left == leaves);
                assert(1 * pow2(d) == pow2(d)) by (nonlinear_arith);
                assert(right =~= Seq::<Seq<u8>>::empty());
                lemma_subtree_root_empty(d);
            } else {
                assert(0 * pow2(d) == 0) by (nonlinear_arith);
                assert(1 * pow2(d) == pow2(d)) by (nonlinear_arith);
                assert(left =~= leaves.take(half as int));
                assert(right =~= leaves.skip(half as int));
            }
        } else {
            let i2 = (i - half) as nat;
            assert(i / half == 1) by {
                lemma_hoist_over_denominator(i2 as int, 1, half);
                assert(1 * half == half) by (nonlinear_arith);
                lemma_basic_div(i2 as int, half as int);
            }
            let right = leaf_slice(leaves, d, 1);
            // Shift the lower siblings into the right half-tree.
            assert forall|k: int| 0 <= k < d implies sibs0[k] == subtree_root(
                leaf_slice(right, k as nat, flip1(i2 / pow2(k as nat))),
                k as nat,
            ) by {
                let kn = k as nat;
                lemma_pow2_pos(kn);
                lemma_pow2_adds(kn, (d - kn) as nat);
                let e = pow2((d - kn) as nat);
                assert(i / pow2(kn) == e + i2 / pow2(kn)) by {
                    lemma_hoist_over_denominator(i2 as int, e as int, pow2(kn));
                    assert(e * pow2(kn) == pow2(d)) by {
                        lemma_pow2_adds((d - kn) as nat, kn);
                    }
                }
                assert(e % 2 == 0) by {
                    lemma_pow2_unfold((d - kn) as nat);
                }
                assert(flip1((e + i2 / pow2(kn)) as nat) == e + flip1(i2 / pow2(kn))) by {
                    lemma_mod_multiples_vanish((e / 2) as int, (i2 / pow2(kn)) as int, 2);
                    assert(2 * (e / 2) == e);
                }
                assert(i2 / pow2(kn) < e) by {
                    lemma_multiply_divide_lt(i2 as int, pow2(kn) as int, e as int);
                    assert(pow2(kn) * e == pow2(d)) by {
                        lemma_pow2_adds(kn, (d - kn) as nat);
                    }
                }
                lemma_flip1_bound(i2 / pow2(kn), e);
                assert((flip1(i2 / pow2(kn)) + 1) * pow2(kn) <= pow2(d)) by (nonlinear_arith)
                    requires
                        flip1(i2 / pow2(kn)) + 1 <= pow2((d - kn) as nat),
                        pow2(kn) >= 1,
                        pow2(kn) * pow2((d - kn) as nat) == pow2(d),
                ;
                lemma_leaf_slice_right(leaves, d, kn, flip1(i2 / pow2(kn)));
                assert((pow2((d - kn) as nat) + flip1(i2 / pow2(kn))) as nat == flip1(
                    i / pow2(kn),
                ));
            }
            assert(leaf == leaf_value(right, i2)) by {
                assert((i2 + 1) * pow2(0) <= pow2(d)) by (nonlinear_arith)
                    requires
                        i2 + 1 <= pow2(d),
                        pow2(0) == 1,
                ;
                lemma_leaf_slice_right(leaves, d, 0, i2);
                assert((pow2(d) + i2) as nat == i);
            }
            assert(right.len() <= half) by {
                lemma_pow2_unfold(depth);
            }
            lemma_restore_from_tree_idx(right, d, i2, sibs0);
            // The fold reads only parities, which agree between i and i2.
            assert forall|k: nat| k < sibs0.len() implies #[trigger] ((i / pow2(k)) % 2) == (i2
                / pow2(k)) % 2 by {
                lemma_pow2_pos(k);
                let e = pow2((d - k) as nat);
                assert(i / pow2(k) == e + i2 / pow2(k)) by {
                    lemma_hoist_over_denominator(i2 as int, e as int, pow2(k));
                    assert(e * pow2(k) == pow2(d)) by {
                        lemma_pow2_adds((d - k) as nat, k);
                    }
                }
                assert(e % 2 == 0) by {
                    lemma_pow2_unfold((d - k) as nat);
                }
                lemma_mod_multiples_vanish((e / 2) as int, (i2 / pow2(k)) as int, 2);
                assert(2 * (e / 2) == e);
            }
            lemma_restore_parity(leaf, sibs0, i, i2);
            // The top sibling is the left half-tree's root.
            assert(flip1(i / half) == 0);
            let left = leaf_slice(leaves, d, 0);
            assert(s_top == subtree_root(left, d));
            if leaves.len() <= half {
                lemma_pow2_pos(d);
                assert(i >= half && i < pow2(depth));
                lemma_leaf_slice_full(leaves, d);
                assert(left == leaves);
                assert(1 * pow2(d) == pow2(d)) by (nonlinear_arith);
                assert(right =~= Seq::<Seq<u8>>::empty());
                lemma_subtree_root_empty(d);
            } else {
                assert(0 * pow2(d) == 0) by (nonlinear_arith);
                assert(1 * pow2(d) == pow2(d)) by (nonlinear_arith);
                assert(left =~= leaves.take(half as int));
                assert(right =~= leaves.skip(half as int));
            }
        }
    }
}

/// Round trip of a single-leaf proof: folding the leaf at index `i` with
/// the sibling values found in the tree, keyed by the leaf's gindex
/// `2^depth + i`, recovers the tree's root.
pub proof fn lemma_restore_from_tree(leaves: Seq<Seq<u8>>, depth: nat, i: nat, sibs: Seq<Seq<u8>>)
    requires
        i < pow2(depth),
        leaves.len() <= pow2(depth),
        proof_siblings_ok(leaves, depth, i, sibs),
    ensures
        restore_root(leaf_value(leaves, i), sibs, (pow2(depth) + i) as nat) == subtree_root(
            leaves,
            depth,
        ),
{
    let g = (pow2(depth) + i) as nat;
    assert forall|k: nat| k < sibs.len() implies #[trigger] ((g / pow2(k)) % 2) == (i / pow2(k))
        % 2 by {
        lemma_pow2_pos(k);
        let e = pow2((depth - k) as nat);
        assert(g / pow2(k) == e + i / pow2(k)) by {
            lemma_hoist_over_denominator(i as int, e as int, pow2(k));
            assert(e * pow2(k) == pow2(depth)) by {
                lemma_pow2_adds((depth - k) as nat, k);
            }
        }
        assert(e % 2 == 0) by {
            lemma_pow2_unfold((depth - k) as nat);
        }
        lemma_mod_multiples_vanish((e / 2) as int, (i / pow2(k)) as int, 2);
        assert(2 * (e / 2) == e);
    }
    lemma_restore_parity(leaf_value(leaves, i), sibs, g, i);
    lemma_restore_from_tree_idx(leaves, depth, i, sibs);
}

/// The level length a node table keeps at height `k`: the number of
/// nodes whose subtree covers at least one of the `n` real leaves.
pub open spec fn covers(len: nat, k: nat, n: nat) -> bool {
    &&& n <= len * pow2(k)
    &&& (len == 0 || (len - 1) * pow2(k) < n)
}

proof fn lemma_covers_outside(len: nat, k: nat, n: nat, j: nat)
    requires
        covers(len, k, n),
        j >= len,
    ensures
        j * pow2(k) >= n,
{
    lemma_pow2_pos(k);
    assert(len * pow2(k) <= j * pow2(k)) by (nonlinear_arith)
        requires
            len <= j,
            pow2(k) >= 1,
    ;
}

proof fn lemma_covers_step(m: nat, k: nat, n: nat)
    requires
        covers(m, k, n),
    ensures
        covers(m / 2 + m % 2, (k + 1) as nat, n),
{
    let m2 = m / 2 + m % 2;
    lemma_pow2_pos(k);
    lemma_pow2_unfold(k + 1);
    assert(m <= 2 * m2 && 2 * m2 <= m + 1);
    assert(m * pow2(k) <= m2 * pow2(k + 1)) by (nonlinear_arith)
        requires
            m <= 2 * m2,
            pow2(k) >= 1,
            pow2(k + 1) == 2 * pow2(k),
    ;
    if m2 > 0 {
        assert(m > 0);
        assert((m2 - 1) * pow2(k + 1) <= (m - 1) * pow2(k)) by (nonlinear_arith)
            requires
                m2 >= 1,
                m >= 1,
                2 * m2 <= m + 1,
                pow2(k) >= 1,
                pow2(k + 1) == 2 * pow2(k),
        ;
    }
}

/// The cached node table of one Merkleization: every computed node at
/// every height, together with the all-zero subtree roots standing in
/// for the virtually padded region.  It is built once per value snapshot
/// and read by proof generation.
pub struct MerkleTree {
    /// The nodes at each height, leaves first; level `k` keeps only the
    /// nodes whose subtree covers at least one real leaf.
    pub levels: Vec<Vec<Chunk>>,
    /// The root of an all-zero subtree of each depth up to the tree's.
    pub zeros: Vec<Chunk>,
    /// The tree has `2^depth` virtual leaves.
    pub depth: usize,
}

impl MerkleTree {
    /// The real leaves the tree was built over.
    pub open spec fn leaf_views(&self) -> Seq<Seq<u8>> {
        chunk_views(self.levels@[0]@)
    }

    pub open spec fn wf(&self) -> bool {
        &&& self.levels@.len() == self.depth + 1
        &&& self.zeros@.len() == self.depth + 1
        &&& self.leaf_views().len() <= pow2(self.depth as nat)
        &&& forall|k: int|
            0 <= k <= self.depth ==> (#[trigger] self.zeros@[k])@ == zero_root(k as nat)
                && self.zeros@[k].wf()
        &&& forall|k: int|
            0 <= k <= self.depth ==> covers(
                (#[trigger] self.levels@[k])@.len() as nat,
                k as nat,
                self.leaf_views().len(),
            )
        &&& forall|k: int, j: int|
            0 <= k <= self.depth && 0 <= j < self.levels@[k]@.len() ==> (
            #[trigger] self.levels@[k]@[j])@ == subtree_root(
                leaf_slice(self.leaf_views(), k as nat, j as nat),
                k as nat,
            ) && self.levels@[k]@[j].wf()
    }

    /// The value of the node at height `k`, index `j` within its level:
    /// a stored node where the subtree covers a real leaf, the all-zero
    /// subtree root beyond.
    fn level_node(&self, k: usize, j: u64) -> (c: &Chunk)
        requires
            self.wf(),
            k <= self.depth,
        ensures
            c@ == subtree_root(leaf_slice(self.leaf_views(), k as nat, j as nat), k as nat),
            c.wf(),
    {
        let level_len = self.levels[k].len();
        if j < level_len as u64 {
            &self.levels[k][j as usize]
        } else {
            proof {
                lemma_covers_outside(
                    level_len as nat,
                    k as nat,
                    self.leaf_views().len(),
                    j as nat,
                );
                assert(leaf_slice(self.leaf_views(), k as nat, j as nat)
                    =~= Seq::<Seq<u8>>::empty());
                lemma_subtree_root_empty(k as nat);
            }
            &self.zeros[k]
        }
    }

    /// The tree's root.
    pub fn root(&self) -> (c: Chunk)
        requires
            self.wf(),
        ensures
            c@ == subtree_root(self.leaf_views(), self.depth as nat),
            c.wf(),
    {
        let node = self.level_node(self.depth, 0);
        proof {
            lemma_leaf_slice_full(self.leaf_views(), self.depth as nat);
        }
        node.clone()
    }

    /// The value of leaf `i` (a zero chunk in the padded region).
    pub fn leaf(&self, i: u64) -> (c: Chunk)
        requires
            self.wf(),
        ensures
            c@ == leaf_value(self.leaf_views(), i as nat),
            c.wf(),
    {
        let node = self.level_node(0, i);
        proof {
            lemma_leaf_value(self.leaf_views(), i as nat);
            lemma2_to64();
            assert(i as nat * 1 == i as nat) by (nonlinear_arith);
            if (i as nat) < self.leaf_views().len() {
                assert(leaf_slice(self.leaf_views(), 0, i as nat)[0] == self.leaf_views()[
                    i as int]);
            } else {
                assert(leaf_slice(self.leaf_views(), 0, i as nat) =~= Seq::<Seq<u8>>::empty());
            }
        }
        node.clone()
    }

    /// The sibling path of leaf `i`: for each height from the leaves up,
    /// the value of the node hashed together with the target's ancestor,
    /// ordered leaf to root.
    pub fn extract_branch(&self, i: u64) -> (sibs: Vec<Chunk>)
        requires
            self.wf(),
            (i as nat) < pow2(self.depth as nat),
        ensures
            proof_siblings_ok(
                self.leaf_views(),
                self.depth as nat,
                i as nat,
                chunk_views(sibs@),
            ),
            all_wf(sibs@),
    {
        let mut sibs: Vec<Chunk> = Vec::new();
        let mut cur: u64 = i;
        let mut k: usize = 0;
        proof {
            lemma2_to64();
            lemma_basic_div_is_identity(i as int);
        }
        while k < self.depth
            invariant
                self.wf(),
                k <= self.depth,
                cur as nat == i as nat / pow2(k as nat),
                sibs@.len() == k,
                all_wf(sibs@),
                forall|kk: int|
                    0 <= kk < k ==> chunk_views(sibs@)[kk] == subtree_root(
                        leaf_slice(self.leaf_views(), kk as nat, flip1(i as nat / pow2(kk as nat))),
                        kk as nat,
                    ),
            decreases self.depth - k,
        {
            let sib_index: u64 = if cur % 2 == 0 {
                cur + 1
            } else {
                cur - 1
            };
            assert(sib_index as nat == flip1(i as nat / pow2(k as nat)));
            let node = self.level_node(k, sib_index);
            let node = node.clone();
            let ghost prev = sibs@;
            sibs.push(node);
            proof {
                assert(sibs@ == prev.push(node));
                assert(forall|kk: int| 0 <= kk < k ==> sibs@[kk] == prev[kk]);
                assert(sibs@[k as int] == node);
                lemma_pow2_pos(k as nat);
                lemma_pow2_unfold((k + 1) as nat);
                lemma_div_denominator(i as int, 2, pow2(k as nat) as int);
                assert((i as nat / pow2(k as nat)) / 2 == i as nat / pow2((k + 1) as nat)) by {
                    lemma_div_denominator(i as int, pow2(k as nat) as int, 2);
                    assert(pow2(k as nat) * 2 == pow2((k + 1) as nat));
                }
                assert forall|kk: int| 0 <= kk < k + 1 implies chunk_views(sibs@)[kk]
                    == subtree_root(
                    leaf_slice(self.leaf_views(), kk as nat, flip1(i as nat / pow2(kk as nat))),
                    kk as nat,
                ) by {
                    if kk < k {
                        assert(sibs@[kk] == prev[kk]);
                        assert(chunk_views(sibs@)[kk] == chunk_views(prev)[kk]);
                    } else {
                        assert(chunk_views(sibs@)[kk] == node@);
                    }
                }
            }
            cur = cur / 2;
            k = k + 1;
        }
        sibs
    }
}

/// Builds the node table of the tree of the given depth over the leaves.
pub fn merkleize(leaves: Vec<Chunk>, depth: usize) -> (t: MerkleTree)
    requires
        all_wf(leaves@),
        leaves@.len() <= pow2(depth as nat),
    ensures
        t.wf(),
        t.leaf_views() == chunk_views(leaves@),
        t.depth == depth,
{
    let ghost lviews = chunk_views(leaves@);
    let n = leaves.len();
    // The zero-subtree roots, depth 0 up.
    let mut zeros: Vec<Chunk> = Vec::new();
    zeros.push(Chunk::zero());
    let mut k: usize = 0;
    while k < depth
        invariant
            k <= depth,
            zeros@.len() == k + 1,
            forall|kk: int|
                0 <= kk <= k ==> (#[trigger] zeros@[kk])@ == zero_root(kk as nat)
                    && zeros@[kk].wf(),
        decreases depth - k,
    {
        let z = hash_nodes(&zeros[k], &zeros[k]);
        zeros.push(z);
        k = k + 1;
    }
    // The node levels, bottom up.
    let mut levels: Vec<Vec<Chunk>> = Vec::new();
    proof {
        lemma2_to64();
        assert(n as nat * 1 == n as nat) by (nonlinear_arith);
        assert(covers(n as nat, 0, n as nat)) by {
            if n > 0 {
                assert((n - 1) as nat * 1 == (n - 1) as nat) by (nonlinear_arith);
            }
        }
        assert forall|j: int| 0 <= j < lviews.len() implies #[trigger] subtree_root(
            leaf_slice(lviews, 0, j as nat),
            0,
        ) == lviews[j] by {
            assert(j as nat * pow2(0) == j) by (nonlinear_arith)
                requires
                    pow2(0) == 1,
                    j >= 0,
            ;
            assert(leaf_slice(lviews, 0, j as nat) =~= lviews.subrange(j, j + 1));
        }
    }
    levels.push(leaves);
    let mut k: usize = 0;
    while k < depth
        invariant
            k <= depth,
            levels@.len() == k + 1,
            zeros@.len() == depth + 1,
            n == lviews.len(),
            n as nat <= pow2(depth as nat),
            chunk_views(levels@[0]@) == lviews,
            forall|kk: int|
                0 <= kk <= depth ==> (#[trigger] zeros@[kk])@ == zero_root(kk as nat)
                    && zeros@[kk].wf(),
            forall|kk: int|
                0 <= kk <= k ==> covers((#[trigger] levels@[kk])@.len() as nat, kk as nat, n as nat),
            forall|kk: int, j: int|
                0 <= kk <= k && 0 <= j < levels@[kk]@.len() ==> (#[trigger] levels@[kk]@[j])@
                    == subtree_root(leaf_slice(lviews, kk as nat, j as nat), kk as nat)
                    && levels@[kk]@[j].wf(),
        decreases depth - k,
    {
        let m = levels[k].len();
        let next_len = m / 2 + m % 2;
        let mut next: Vec<Chunk> = Vec::new();
        let mut j: usize = 0;
        while j < next_len
            invariant
                k < depth,
                levels@.len() == k + 1,
                zeros@.len() == depth + 1,
                n == lviews.len(),
                m == levels@[k as int]@.len(),
                next_len == m / 2 + m % 2,
                j <= next_len,
                next@.len() == j,
                covers(m as nat, k as nat, n as nat),
                forall|kk: int|
                    0 <= kk <= depth ==> (#[trigger] zeros@[kk])@ == zero_root(kk as nat)
                        && zeros@[kk].wf(),
                forall|jj: int|
                    0 <= jj < m ==> (#[trigger] levels@[k as int]@[jj])@ == subtree_root(
                        leaf_slice(lviews, k as nat, jj as nat),
                        k as nat,
                    ) && levels@[k as int]@[jj].wf(),
                forall|jj: int|
                    0 <= jj < j ==> (#[trigger] next@[jj])@ == subtree_root(
                        leaf_slice(lviews, (k + 1) as nat, jj as nat),
                        (k + 1) as nat,
                    ) && next@[jj].wf(),
            decreases next_len - j,
        {
            let a = &levels[k][2 * j];
            let parent = if 2 * j + 1 < m {
                hash_nodes(a, &levels[k][2 * j + 1])
            } else {
                proof {
                    lemma_covers_outside(m as nat, k as nat, n as nat, (2 * j + 1) as nat);
                    assert(leaf_slice(lviews, k as nat, (2 * j + 1) as nat)
                        =~= Seq::<Seq<u8>>::empty());
                    lemma_subtree_root_empty(k as nat);
                }
                hash_nodes(a, &zeros[k])
            };
            proof {
                lemma_subtree_split(lviews, (k + 1) as nat, j as nat);
            }
            next.push(parent);
            j = j + 1;
        }
        proof {
            lemma_covers_step(m as nat, k as nat, n as nat);
        }
        levels.push(next);
        k = k + 1;
    }
    MerkleTree { levels, zeros, depth }
}

/// The root of a variable-length collection: one extra hash binding the
/// content root to the collection's length.
pub open spec fn mixed_root(content_root: Seq<u8>, len: nat) -> Seq<u8> {
    hash2(content_root, length_chunk(len))
}

/// Mixes a collection's length into its content root.
pub fn mix_in_length(content_root: &Chunk, len: u64) -> (c: Chunk)
    ensures
        c@ == mixed_root(content_root@, len as nat),
        c.wf(),
{
    let len_chunk = crate::chunk::u64_le_chunk(len);
    hash_nodes(content_root, &len_chunk)
}

/// Recomputes a root from a leaf value, its sibling path ordered leaf to
/// root, and the leaf's generalized index, and compares the result with
/// the expected root.  True exactly when the index's depth matches the
/// number of siblings and the fold reproduces the expected root; any
/// mismatch, including an index of the wrong depth or the index 0, gives
/// false rather than an error.
pub fn verify_branch(leaf: &Chunk, siblings: &Vec<Chunk>, gindex: u64, expected_root: &Chunk) -> (r:
    bool)
    ensures
        r == (gindex as nat / pow2(siblings@.len()) == 1 && restore_root(
            leaf@,
            chunk_views(siblings@),
            gindex as nat,
        ) == expected_root@),
{
    let ghost views = chunk_views(siblings@);
    let mut cur: Chunk = leaf.clone();
    let mut g: u64 = gindex;
    let mut k: usize = 0;
    proof {
        lemma2_to64();
        lemma_basic_div_is_identity(gindex as int);
        assert(views.skip(0) =~= views);
    }
    while k < siblings.len()
        invariant
            k <= siblings@.len(),
            views == chunk_views(siblings@),
            g as nat == gindex as nat / pow2(k as nat),
            restore_root(leaf@, views, gindex as nat) == restore_root(
                cur@,
                views.skip(k as int),
                g as nat,
            ),
        decreases siblings@.len() - k,
    {
        let next = if g % 2 == 0 {
            hash_nodes(&cur, &siblings[k])
        } else {
            hash_nodes(&siblings[k], &cur)
        };
        proof {
            assert(views.skip(k as int)[0] == views[k as int]);
            assert(views.skip(k as int).skip(1) =~= views.skip(k as int + 1));
            lemma_pow2_pos(k as nat);
            lemma_pow2_unfold((k + 1) as nat);
            assert((gindex as nat / pow2(k as nat)) / 2 == gindex as nat / pow2((k + 1) as nat))
                by {
                lemma_div_denominator(gindex as int, pow2(k as nat) as int, 2);
                assert(pow2(k as nat) * 2 == pow2((k + 1) as nat));
            }
        }
        cur = next;
        g = g / 2;
        k = k + 1;
    }
    proof {
        assert(views.skip(siblings@.len() as int) =~= Seq::<Seq<u8>>::empty());
    }
    g == 1 && cur.eq_bytes(expected_root)
}

} // verus!
