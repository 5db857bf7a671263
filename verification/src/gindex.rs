//! Generalized-index algebra.
//!
//! A generalized index (gindex) is a strictly positive integer that names a
//! node of a binary Merkle tree: the root is 1, and the children of node `g`
//! are `2g` (left) and `2g + 1` (right).  The bits of the index below its
//! highest set bit spell the root-to-node path, so the bit length of a
//! gindex is its depth plus one.  Indices of nested trees are composed by
//! replacing the leading one-bit of the inner index with the outer index.

use vstd::prelude::*;
use vstd::arithmetic::power2::pow2;

verus! {

/// Depth of the node addressed by gindex `g`: the number of tree edges
/// between it and the root, i.e. the bit length of `g` minus one.
pub open spec fn gindex_depth(g: nat) -> nat
    decreases g,
{
    if g <= 1 {
        0
    } else {
        1 + gindex_depth(g / 2)
    }
}

/// Value of the highest set bit of `g`: the largest power of two that is
/// at most `g` (0 when `g` is 0, which is not a valid gindex).
pub open spec fn floor_pow2(g: nat) -> nat
    decreases g,
{
    if g == 0 {
        0
    } else if g == 1 {
        1
    } else {
        2 * floor_pow2(g / 2)
    }
}

pub proof fn lemma_floor_pow2_bounds(g: nat)
    requires
        g >= 1,
    ensures
        1 <= floor_pow2(g),
        floor_pow2(g) <= g,
        g < 2 * floor_pow2(g),
    decreases g,
{
    if g > 1 {
        lemma_floor_pow2_bounds(g / 2);
    }
}

pub proof fn lemma_floor_pow2_is_pow2(g: nat)
    requires
        g >= 1,
    ensures
        floor_pow2(g) == pow2(gindex_depth(g)),
    decreases g,
{
    if g > 1 {
        lemma_floor_pow2_is_pow2(g / 2);
        vstd::arithmetic::power2::lemma_pow2_unfold(gindex_depth(g));
    } else {
        vstd::arithmetic::power2::lemma2_to64();
    }
}

/// A gindex of depth `d` lies in `[2^d, 2^(d+1))`, and conversely.
pub proof fn lemma_gindex_depth_bounds(g: nat)
    requires
        g >= 1,
    ensures
        pow2(gindex_depth(g)) <= g,
        g < pow2(gindex_depth(g) + 1),
    decreases g,
{
    lemma_floor_pow2_bounds(g);
    lemma_floor_pow2_is_pow2(g);
    vstd::arithmetic::power2::lemma_pow2_unfold(gindex_depth(g) + 1);
}

pub proof fn lemma_gindex_depth_of_range(g: nat, d: nat)
    requires
        pow2(d) <= g,
        g < pow2(d + 1),
    ensures
        gindex_depth(g) == d,
    decreases d,
{
    vstd::arithmetic::power2::lemma_pow2_unfold(d + 1);
    vstd::arithmetic::power2::lemma_pow2_pos(d);
    if d == 0 {
        vstd::arithmetic::power2::lemma2_to64();
    } else {
        vstd::arithmetic::power2::lemma_pow2_unfold(d);
        lemma_gindex_depth_of_range(g / 2, (d - 1) as nat);
    }
}

/// Largest power of two that is at most `x`, as executable code.
pub fn floor_power_of_two(x: u64) -> (r: u64)
    ensures
        r == floor_pow2(x as nat),
    decreases x,
{
    if x <= 1 {
        x
    } else {
        proof {
            lemma_floor_pow2_bounds((x / 2) as nat);
        }
        2 * floor_power_of_two(x / 2)
    }
}

/// Composition of one nesting step: the gindex, valid against the outer
/// tree's root, of the node that `inner` addresses inside the subtree whose
/// own root sits at node `outer` of the outer tree.  The leading one-bit of
/// `inner` is replaced by the bits of `outer`.
pub open spec fn concat_gindex_spec(outer: nat, inner: nat) -> nat {
    (outer * floor_pow2(inner) + (inner - floor_pow2(inner))) as nat
}

/// Composing with `inner == 1` (the subtree's own root) is the identity:
/// `concat(p, 1) == p` for every gindex `p`.
pub proof fn lemma_concat_identity(p: nat)
    ensures
        concat_gindex_spec(p, 1) == p,
{
    assert(floor_pow2(1) == 1);
    assert(p * 1 == p);
}

/// Composition leaves the low bits (the inner path) unchanged and stacks
/// the depths.
pub proof fn lemma_concat_depth(outer: nat, inner: nat)
    requires
        outer >= 1,
        inner >= 1,
    ensures
        gindex_depth(concat_gindex_spec(outer, inner)) == gindex_depth(outer) + gindex_depth(
            inner,
        ),
    decreases inner,
{
    if inner == 1 {
    } else {
        lemma_concat_depth(outer, inner / 2);
        lemma_floor_pow2_bounds(inner);
        lemma_floor_pow2_bounds(inner / 2);
        assert(concat_gindex_spec(outer, inner) == 2 * concat_gindex_spec(outer, inner / 2) + (
        inner % 2)) by {
            assert(floor_pow2(inner) == 2 * floor_pow2(inner / 2));
            assert(outer * (2 * floor_pow2(inner / 2)) == 2 * (outer * floor_pow2(inner / 2)))
                by (nonlinear_arith);
            assert(inner == 2 * (inner / 2) + inner % 2);
        }
        let c = concat_gindex_spec(outer, inner);
        assert(c / 2 == concat_gindex_spec(outer, inner / 2)) by {
            assert(c == 2 * concat_gindex_spec(outer, inner / 2) + (inner % 2));
            assert(inner % 2 < 2);
        }
        assert(c > 1) by {
            assert(concat_gindex_spec(outer, inner / 2) >= outer * 1) by {
                assert(outer * floor_pow2(inner / 2) >= outer * 1) by (nonlinear_arith)
                    requires floor_pow2(inner / 2) >= 1, outer >= 1;
            }
        }
    }
}

/// Executable composition of two gindices.
pub fn concat_gindex(outer: u64, inner: u64) -> (r: u64)
    requires
        outer >= 1,
        inner >= 1,
        concat_gindex_spec(outer as nat, inner as nat) <= u64::MAX,
    ensures
        r as nat == concat_gindex_spec(outer as nat, inner as nat),
{
    proof {
        lemma_floor_pow2_bounds(inner as nat);
    }
    let f = floor_power_of_two(inner);
    outer * f + (inner - f)
}

/// Folding a whole chain of nesting steps, outermost first, starting from
/// the root index 1.
pub open spec fn concat_fold(s: Seq<u64>) -> nat
    decreases s.len(),
{
    if s.len() == 0 {
        1
    } else {
        concat_gindex_spec(concat_fold(s.drop_last()), s.last() as nat)
    }
}

/// One composition step is monotone in the outer index, and never shrinks
/// it.
proof fn lemma_concat_step_monotone(o1: nat, o2: nat, i: nat)
    requires
        1 <= o1 <= o2,
        1 <= i,
    ensures
        o1 <= concat_gindex_spec(o1, i),
        concat_gindex_spec(o1, i) <= concat_gindex_spec(o2, i),
{
    lemma_floor_pow2_bounds(i);
    let f = floor_pow2(i);
    assert(o1 * 1 <= o1 * f && o1 * f <= o2 * f) by (nonlinear_arith)
        requires 1 <= o1 <= o2, 1 <= f;
}

proof fn lemma_concat_fold_pos(s: Seq<u64>)
    requires
        forall|k: int| 0 <= k < s.len() ==> s[k] >= 1,
    ensures
        concat_fold(s) >= 1,
    decreases s.len(),
{
    if s.len() > 0 {
        lemma_concat_fold_pos(s.drop_last());
        lemma_concat_step_monotone(concat_fold(s.drop_last()), concat_fold(s.drop_last()), s.last() as nat);
    }
}

/// The fold over a prefix never exceeds the fold over the whole sequence.
proof fn lemma_concat_fold_prefix(s: Seq<u64>, j: int)
    requires
        0 <= j <= s.len(),
        forall|k: int| 0 <= k < s.len() ==> s[k] >= 1,
    ensures
        concat_fold(s.take(j)) <= concat_fold(s),
    decreases s.len() - j,
{
    if j < s.len() {
        lemma_concat_fold_prefix(s, j + 1);
        assert(s.take(j + 1).drop_last() =~= s.take(j));
        assert(s.take(j + 1).last() == s[j]);
        lemma_concat_fold_pos(s.take(j));
        lemma_concat_step_monotone(concat_fold(s.take(j)), concat_fold(s.take(j)), s[j] as nat);
    } else {
        assert(s.take(j) =~= s);
    }
}

/// Folds a chain of generalized indices, outermost first, into the single
/// index valid against the outermost root.  Returns `None` exactly when
/// some index is 0 (no such node exists) or the composed index does not
/// fit in 64 bits.
pub fn concat_generalized_indices(indices: &Vec<u64>) -> (r: Option<u64>)
    ensures
        r is Some <==> ((forall|k: int| 0 <= k < indices@.len() ==> indices@[k] >= 1)
            && concat_fold(indices@) <= u64::MAX),
        r is Some ==> r.unwrap() as nat == concat_fold(indices@),
{
    let ghost s = indices@;
    let mut o: u64 = 1;
    let mut j: usize = 0;
    while j < indices.len()
        invariant
            0 <= j <= s.len(),
            s == indices@,
            o as nat == concat_fold(s.take(j as int)),
            forall|k: int| 0 <= k < j ==> s[k] >= 1,
        decreases s.len() - j,
    {
        let i = indices[j];
        if i == 0 {
            return None;
        }
        proof {
            lemma_floor_pow2_bounds(i as nat);
            lemma_concat_fold_pos(s.take(j as int));
        }
        let f = floor_power_of_two(i);
        let step = match o.checked_mul(f) {
            Some(m) => m.checked_add(i - f),
            None => None,
        };
        match step {
            Some(v) => {
                proof {
                    assert(s.take(j + 1).drop_last() =~= s.take(j as int));
                    assert(s.take(j + 1).last() == s[j as int]);
                }
                o = v;
            },
            None => {
                proof {
                    assert(s.take(j + 1).drop_last() =~= s.take(j as int));
                    assert(s.take(j + 1).last() == s[j as int]);
                    assert(concat_fold(s.take(j + 1)) > u64::MAX);
                    if forall|k: int| 0 <= k < s.len() ==> s[k] >= 1 {
                        lemma_concat_fold_prefix(s, j + 1);
                    }
                }
                return None;
            },
        }
        j = j + 1;
    }
    proof {
        assert(s.take(s.len() as int) =~= s);
    }
    Some(o)
}

/// The depth of the smallest tree with at least `n` leaves: the
/// ceiling of the base-2 logarithm (0 when `n` is 0 or 1).
pub open spec fn ceil_log2(n: nat) -> nat
    decreases n,
{
    if n <= 1 {
        0
    } else {
        1 + ceil_log2(n / 2 + n % 2)
    }
}

pub proof fn lemma_ceil_log2_bound(n: nat)
    ensures
        n <= pow2(ceil_log2(n)),
    decreases n,
{
    if n <= 1 {
        vstd::arithmetic::power2::lemma2_to64();
    } else {
        let m = n / 2 + n % 2;
        lemma_ceil_log2_bound(m);
        vstd::arithmetic::power2::lemma_pow2_unfold(ceil_log2(n));
    }
}

pub proof fn lemma_ceil_log2_monotone(a: nat, b: nat)
    requires
        a <= b,
    ensures
        ceil_log2(a) <= ceil_log2(b),
    decreases b,
{
    if a > 1 {
        lemma_ceil_log2_monotone(a / 2 + a % 2, b / 2 + b % 2);
    }
}

/// A bound on the leaf count bounds the depth.
pub proof fn lemma_ceil_log2_le(n: nat, e: nat)
    requires
        n <= pow2(e),
    ensures
        ceil_log2(n) <= e,
    decreases n,
{
    if n > 1 {
        vstd::arithmetic::power2::lemma_pow2_pos(e);
        assert(e >= 1) by {
            vstd::arithmetic::power2::lemma2_to64();
        }
        vstd::arithmetic::power2::lemma_pow2_unfold(e);
        lemma_ceil_log2_le(n / 2 + n % 2, (e - 1) as nat);
    }
}

/// The ceiling of the base-2 logarithm, as executable code.
pub fn ceil_log2_u64(n: u64) -> (d: usize)
    ensures
        d as nat == ceil_log2(n as nat),
    decreases n,
{
    if n <= 1 {
        0
    } else {
        proof {
            vstd::arithmetic::power2::lemma2_to64();
            vstd::arithmetic::power2::lemma_pow2_adds(32, 32);
            assert((n / 2 + n % 2) as nat <= pow2(64));
            lemma_ceil_log2_le((n / 2 + n % 2) as nat, 64);
        }
        1 + ceil_log2_u64(n / 2 + n % 2)
    }
}

/// `2^e`, as executable code.
pub fn pow2_u64(e: usize) -> (r: u64)
    requires
        pow2(e as nat) <= u64::MAX,
    ensures
        r == pow2(e as nat),
{
    let mut r: u64 = 1;
    let mut i: usize = 0;
    proof {
        vstd::arithmetic::power2::lemma2_to64();
    }
    while i < e
        invariant
            i <= e,
            r == pow2(i as nat),
            pow2(e as nat) <= u64::MAX,
        decreases e - i,
    {
        proof {
            if i + 1 < e {
                vstd::arithmetic::power2::lemma_pow2_strictly_increases((i + 1) as nat, e as nat);
            }
            vstd::arithmetic::power2::lemma_pow2_unfold((i + 1) as nat);
        }
        r = 2 * r;
        i = i + 1;
    }
    r
}

/// A gindex divided by `2^l` is 1 exactly when its depth is `l`.
pub proof fn lemma_div_pow2_one(g: nat, l: nat)
    ensures
        (g / pow2(l) == 1) <==> (pow2(l) <= g < pow2(l + 1)),
{
    vstd::arithmetic::power2::lemma_pow2_pos(l);
    vstd::arithmetic::power2::lemma_pow2_unfold(l + 1);
    if g / pow2(l) == 1 {
        vstd::arithmetic::div_mod::lemma_fundamental_div_mod(g as int, pow2(l) as int);
        assert(g == pow2(l) * 1 + g % pow2(l));
        vstd::arithmetic::div_mod::lemma_mod_division_less_than_divisor(g as int, pow2(l) as int);
    }
    if pow2(l) <= g < pow2(l + 1) {
        let r = (g - pow2(l)) as int;
        vstd::arithmetic::div_mod::lemma_hoist_over_denominator(r, 1, pow2(l));
        assert(1 * pow2(l) == pow2(l)) by (nonlinear_arith);
        vstd::arithmetic::div_mod::lemma_basic_div(r, pow2(l) as int);
    }
}

/// Composition never shrinks the inner index.
pub proof fn lemma_concat_ge_inner(outer: nat, inner: nat)
    requires
        outer >= 1,
        inner >= 1,
    ensures
        concat_gindex_spec(outer, inner) >= inner,
{
    lemma_floor_pow2_bounds(inner);
    assert(outer * floor_pow2(inner) >= 1 * floor_pow2(inner)) by (nonlinear_arith)
        requires
            outer >= 1,
            floor_pow2(inner) >= 1,
    ;
    assert(1 * floor_pow2(inner) == floor_pow2(inner)) by (nonlinear_arith);
}

/// Checked composition of two gindices: `None` exactly when the result
/// does not fit in 64 bits.
pub fn concat_gindex_checked(outer: u64, inner: u64) -> (r: Option<u64>)
    requires
        outer >= 1,
        inner >= 1,
    ensures
        r is Some <==> concat_gindex_spec(outer as nat, inner as nat) <= u64::MAX,
        r matches Some(c) ==> c as nat == concat_gindex_spec(outer as nat, inner as nat),
{
    proof {
        lemma_floor_pow2_bounds(inner as nat);
    }
    let f = floor_power_of_two(inner);
    match outer.checked_mul(f) {
        Some(m) => m.checked_add(inner - f),
        None => None,
    }
}

} // verus!
