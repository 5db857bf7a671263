//! The typed data model and its Merkleization.
//!
//! A value is a closed tagged union over byte strings, bit sequences,
//! vectors, lists and containers.  Variable-length shapes carry the
//! capacity their schema declares; the capacity, never the live length,
//! sizes their content tree, and the live length is mixed into the root
//! with one extra hash.  `root_of` is the mathematical hash-tree-root of
//! a value; `hash_tree_root` computes it, rejecting values that break
//! their schema.

use crate::chunk::{
    all_wf, bits_to_bytes, chunk_views, chunkify, le_bytes, pack_bits_to_bytes, pack_bytes, Chunk,
};
use crate::gindex::{ceil_log2, ceil_log2_u64, lemma_ceil_log2_bound};
use crate::hashing::hash2;
use crate::merkle::{merkleize, mix_in_length, mixed_root, subtree_root, MerkleTree};
use vstd::arithmetic::div_mod::{lemma_div_is_ordered, lemma_div_nonincreasing};
use vstd::arithmetic::power2::pow2;
use vstd::prelude::*;

verus! {

/// The reasons the engine rejects an input.
#[derive(Clone, Copy, PartialEq, Eq, Structural, Debug)]
pub enum MerkleError {
    /// A value breaks its schema: a collection longer than its declared
    /// capacity, or a capacity too large for the index arithmetic.
    SchemaViolation,
    /// A proof path names a field or element the schema does not have.
    PathNotFound,
    /// A proof path indexes past the live length of a collection, or a
    /// composed generalized index does not fit in 64 bits.
    IndexOutOfRange,
}

/// The largest capacity a variable-length collection may declare, so
/// that every capacity and generalized-index computation fits in 64
/// bits.
pub const MAX_LIMIT: u64 = 0x2000000000000000;

/// A typed value: the closed set of schema shapes the engine
/// merkleizes.  Each variable-length shape carries its schema-declared
/// capacity; capacities are configuration, never inferred from data.
pub enum TypedValue {
    /// A basic scalar or fixed byte string, already little-endian
    /// encoded: packed into 32-byte chunks, the last zero-padded.
    Bytes { bytes: Vec<u8> },
    /// A variable byte string with a byte capacity: packed chunks
    /// merkleized at capacity depth, then length-mixed.
    ByteList { bytes: Vec<u8>, limit: u64 },
    /// A fixed sequence of bits, packed least-significant-bit first.
    Bitvector { bits: Vec<bool> },
    /// A variable bit sequence with a bit capacity; one sentinel bit
    /// beyond the logical length is set when packing, and the logical
    /// length is mixed into the root.
    Bitlist { bits: Vec<bool>, limit: u64 },
    /// A fixed vector of composite values: one chunk per element root.
    Vector { elems: Vec<TypedValue> },
    /// A variable list of composite values with an element capacity:
    /// element-root chunks merkleized at capacity depth, then
    /// length-mixed.
    List { elems: Vec<TypedValue>, limit: u64 },
    /// Ordered fields: one chunk per field root, never length-mixed.
    Container { fields: Vec<TypedValue> },
}

/// Whether the shape is variable-length, i.e. length-mixed.
pub open spec fn is_variable(v: TypedValue) -> bool {
    match v {
        TypedValue::ByteList { .. } => true,
        TypedValue::Bitlist { .. } => true,
        TypedValue::List { .. } => true,
        _ => false,
    }
}

/// The live length a variable-length value mixes into its root.
pub open spec fn live_length(v: TypedValue) -> nat {
    match v {
        TypedValue::ByteList { bytes, .. } => bytes@.len(),
        TypedValue::Bitlist { bits, .. } => bits@.len(),
        TypedValue::List { elems, .. } => elems@.len(),
        _ => 0,
    }
}

/// The roots of a sequence of values, one chunk each.
pub open spec fn roots_of(elems: Seq<TypedValue>) -> Seq<Seq<u8>>
    decreases elems, 2int,
{
    if elems.len() == 0 {
        Seq::empty()
    } else {
        seq![root_of(elems[0])] + roots_of(elems.skip(1))
    }
}

/// Each entry of `roots_of` is the root of the matching element.
pub proof fn lemma_roots_of(elems: Seq<TypedValue>)
    ensures
        roots_of(elems).len() == elems.len(),
        forall|i: int| 0 <= i < elems.len() ==> roots_of(elems)[i] == root_of(#[trigger] elems[i]),
    decreases elems.len(),
{
    if elems.len() > 0 {
        lemma_roots_of(elems.skip(1));
        assert(forall|i: int|
            1 <= i < elems.len() ==> roots_of(elems)[i] == roots_of(elems.skip(1))[i - 1]);
        assert(forall|i: int| 1 <= i < elems.len() ==> elems.skip(1)[i - 1] == elems[i]);
    }
}

/// The leaf chunks of a value's own (content) tree.
pub open spec fn value_chunks(v: TypedValue) -> Seq<Seq<u8>>
    decreases v, 0int,
{
    match v {
        TypedValue::Bytes { bytes } => chunkify(bytes@),
        TypedValue::ByteList { bytes, .. } => chunkify(bytes@),
        TypedValue::Bitvector { bits } => chunkify(bits_to_bytes(bits@)),
        TypedValue::Bitlist { bits, .. } => chunkify(bits_to_bytes(bits@.push(true))),
        TypedValue::Vector { elems } => roots_of(elems@),
        TypedValue::List { elems, .. } => roots_of(elems@),
        TypedValue::Container { fields } => roots_of(fields@),
    }
}

/// The depth of a value's content tree: sized by the capacity for
/// variable-length shapes and by the data for fixed ones.
pub open spec fn content_depth(v: TypedValue) -> nat {
    match v {
        TypedValue::Bytes { bytes } => ceil_log2((bytes@.len() + 31) as nat / 32),
        TypedValue::ByteList { limit, .. } => ceil_log2(((limit as nat) + 31) / 32),
        TypedValue::Bitvector { bits } => ceil_log2(((bits@.len() + 7) as nat / 8 + 31) / 32),
        TypedValue::Bitlist { limit, .. } => ceil_log2((((limit as nat) + 1 + 7) / 8 + 31) / 32),
        TypedValue::Vector { elems } => ceil_log2(elems@.len()),
        TypedValue::List { limit, .. } => ceil_log2(limit as nat),
        TypedValue::Container { fields } => ceil_log2(fields@.len()),
    }
}

/// The hash-tree-root of a value: the root of its content tree, with
/// the live length mixed in for variable-length shapes.
pub open spec fn root_of(v: TypedValue) -> Seq<u8>
    decreases v, 1int,
{
    if is_variable(v) {
        mixed_root(subtree_root(value_chunks(v), content_depth(v)), live_length(v))
    } else {
        subtree_root(value_chunks(v), content_depth(v))
    }
}

/// A value respects its schema: every collection is within its declared
/// capacity, capacities are within the engine's index range, and sizes
/// leave room for the packing arithmetic of the machine.
pub open spec fn valid(v: TypedValue) -> bool
    decreases v,
{
    match v {
        TypedValue::Bytes { bytes } => bytes@.len() + 32 <= usize::MAX,
        TypedValue::ByteList { bytes, limit } => bytes@.len() <= limit && limit <= MAX_LIMIT
            && bytes@.len() + 32 <= usize::MAX,
        TypedValue::Bitvector { bits } => bits@.len() + 40 <= usize::MAX,
        TypedValue::Bitlist { bits, limit } => bits@.len() <= limit && limit <= MAX_LIMIT && bits@
            .len() + 40 <= usize::MAX,
        TypedValue::Vector { elems } => 1 <= elems@.len() && elems@.len() <= MAX_LIMIT && (forall|
            i: int,
        | 0 <= i < elems@.len() ==> valid(#[trigger] elems@[i])),
        TypedValue::List { elems, limit } => elems@.len() <= limit && limit <= MAX_LIMIT && (forall|
            i: int,
        | 0 <= i < elems@.len() ==> valid(#[trigger] elems@[i])),
        TypedValue::Container { fields } => 1 <= fields@.len() && fields@.len() <= MAX_LIMIT && (
        forall|i: int| 0 <= i < fields@.len() ==> valid(#[trigger] fields@[i])),
    }
}

impl TypedValue {
    /// Checks the value against its schema.
    pub fn validate(&self) -> (b: bool)
        ensures
            b == valid(*self),
        decreases *self,
    {
        match self {
            TypedValue::Bytes { bytes } => bytes.len() <= usize::MAX - 32,
            TypedValue::ByteList { bytes, limit } => bytes.len() as u64 <= *limit && *limit
                <= MAX_LIMIT && bytes.len() <= usize::MAX - 32,
            TypedValue::Bitvector { bits } => bits.len() <= usize::MAX - 40,
            TypedValue::Bitlist { bits, limit } => bits.len() as u64 <= *limit && *limit
                <= MAX_LIMIT && bits.len() <= usize::MAX - 40,
            TypedValue::Vector { elems } => 1 <= elems.len() && elems.len() as u64 <= MAX_LIMIT
                && Self::validate_all(elems),
            TypedValue::List { elems, limit } => elems.len() as u64 <= *limit && *limit <= MAX_LIMIT
                && Self::validate_all(elems),
            TypedValue::Container { fields } => 1 <= fields.len() && fields.len() as u64
                <= MAX_LIMIT && Self::validate_all(fields),
        }
    }

    fn validate_all(elems: &Vec<TypedValue>) -> (b: bool)
        ensures
            b == (forall|i: int| 0 <= i < elems@.len() ==> valid(#[trigger] elems@[i])),
        decreases elems@,
    {
        let mut i: usize = 0;
        while i < elems.len()
            invariant
                i <= elems@.len(),
                forall|k: int| 0 <= k < i ==> valid(#[trigger] elems@[k]),
            decreases elems@.len() - i,
        {
            if !elems[i].validate() {
                return false;
            }
            i = i + 1;
        }
        true
    }

    /// The leaf chunks of the value's content tree, as executable code.
    fn content_chunks(&self) -> (chunks: Vec<Chunk>)
        requires
            valid(*self),
        ensures
            chunk_views(chunks@) == value_chunks(*self),
            all_wf(chunks@),
        decreases *self, 0int,
    {
        match self {
            TypedValue::Bytes { bytes } => pack_bytes(bytes),
            TypedValue::ByteList { bytes, .. } => pack_bytes(bytes),
            TypedValue::Bitvector { bits } => {
                let packed = pack_bits_to_bytes(bits);
                proof {
                    lemma_div_nonincreasing((bits@.len() + 7) as int, 8);
                }
                pack_bytes(&packed)
            },
            TypedValue::Bitlist { bits, .. } => {
                let mut with_sentinel = bits.clone();
                proof {
                    assert(with_sentinel@ =~= bits@);
                }
                with_sentinel.push(true);
                let packed = pack_bits_to_bytes(&with_sentinel);
                proof {
                    lemma_div_nonincreasing((bits@.len() + 1 + 7) as int, 8);
                }
                pack_bytes(&packed)
            },
            TypedValue::Vector { elems } => {
                let chunks = Self::element_roots(elems);
                proof {
                    lemma_roots_of(elems@);
                    assert(chunk_views(chunks@) =~= value_chunks(*self));
                }
                chunks
            },
            TypedValue::List { elems, .. } => {
                let chunks = Self::element_roots(elems);
                proof {
                    lemma_roots_of(elems@);
                    assert(chunk_views(chunks@) =~= value_chunks(*self));
                }
                chunks
            },
            TypedValue::Container { fields } => {
                let chunks = Self::element_roots(fields);
                proof {
                    lemma_roots_of(fields@);
                    assert(chunk_views(chunks@) =~= value_chunks(*self));
                }
                chunks
            },
        }
    }

    fn element_roots(elems: &Vec<TypedValue>) -> (chunks: Vec<Chunk>)
        requires
            forall|i: int| 0 <= i < elems@.len() ==> valid(#[trigger] elems@[i]),
        ensures
            chunks@.len() == elems@.len(),
            forall|i: int|
                0 <= i < elems@.len() ==> (#[trigger] chunks@[i])@ == root_of(elems@[i])
                    && chunks@[i].wf(),
        decreases elems@, 0int,
    {
        let mut chunks: Vec<Chunk> = Vec::new();
        let mut i: usize = 0;
        while i < elems.len()
            invariant
                i <= elems@.len(),
                chunks@.len() == i,
                forall|k: int| 0 <= k < elems@.len() ==> valid(#[trigger] elems@[k]),
                forall|k: int|
                    0 <= k < i ==> (#[trigger] chunks@[k])@ == root_of(elems@[k])
                        && chunks@[k].wf(),
            decreases elems@.len() - i,
        {
            let r = elems[i].compute_root();
            chunks.push(r);
            i = i + 1;
        }
        chunks
    }

    /// The depth of the value's content tree, as executable code.
    fn content_depth_exec(&self) -> (d: usize)
        requires
            valid(*self),
        ensures
            d as nat == content_depth(*self),
    {
        match self {
            TypedValue::Bytes { bytes } => ceil_log2_u64((bytes.len() as u64 + 31) / 32),
            TypedValue::ByteList { limit, .. } => ceil_log2_u64((*limit + 31) / 32),
            TypedValue::Bitvector { bits } => ceil_log2_u64(
                ((bits.len() as u64 + 7) / 8 + 31) / 32,
            ),
            TypedValue::Bitlist { limit, .. } => ceil_log2_u64(((*limit + 1 + 7) / 8 + 31) / 32),
            TypedValue::Vector { elems } => ceil_log2_u64(elems.len() as u64),
            TypedValue::List { limit, .. } => ceil_log2_u64(*limit),
            TypedValue::Container { fields } => ceil_log2_u64(fields.len() as u64),
        }
    }

    /// Builds and retains the node table of the value's content tree:
    /// for variable-length shapes, the capacity-depth tree just below
    /// the length-mixing node.
    pub fn build_tree(&self) -> (t: MerkleTree)
        requires
            valid(*self),
        ensures
            t.wf(),
            t.leaf_views() == value_chunks(*self),
            t.depth as nat == content_depth(*self),
        decreases *self, 1int,
    {
        let chunks = self.content_chunks();
        let depth = self.content_depth_exec();
        proof {
            let n = chunk_views(chunks@).len();
            match self {
                TypedValue::Bytes { bytes } => {
                    lemma_ceil_log2_bound(n);
                },
                TypedValue::ByteList { bytes, limit } => {
                    lemma_div_is_ordered(
                        (bytes@.len() + 31) as int,
                        (limit + 31) as int,
                        32,
                    );
                    lemma_ceil_log2_bound(((limit as nat) + 31) / 32);
                },
                TypedValue::Bitvector { bits } => {
                    lemma_ceil_log2_bound(n);
                },
                TypedValue::Bitlist { bits, limit } => {
                    lemma_div_is_ordered(
                        (bits@.len() + 1 + 7) as int,
                        (limit + 1 + 7) as int,
                        8,
                    );
                    lemma_div_is_ordered(
                        ((bits@.len() + 1 + 7) as nat / 8 + 31) as int,
                        (((limit as nat) + 1 + 7) / 8 + 31) as int,
                        32,
                    );
                    lemma_ceil_log2_bound((((limit as nat) + 1 + 7) / 8 + 31) / 32);
                },
                TypedValue::Vector { elems } => {
                    lemma_roots_of(elems@);
                    lemma_ceil_log2_bound(n);
                },
                TypedValue::List { elems, limit } => {
                    lemma_roots_of(elems@);
                    lemma_ceil_log2_bound(limit as nat);
                },
                TypedValue::Container { fields } => {
                    lemma_roots_of(fields@);
                    lemma_ceil_log2_bound(n);
                },
            }
        }
        merkleize(chunks, depth)
    }

    /// The hash-tree-root of a value known to respect its schema.
    pub fn compute_root(&self) -> (c: Chunk)
        requires
            valid(*self),
        ensures
            c@ == root_of(*self),
            c.wf(),
        decreases *self, 2int,
    {
        let tree = self.build_tree();
        let content = tree.root();
        match self {
            TypedValue::ByteList { bytes, .. } => mix_in_length(&content, bytes.len() as u64),
            TypedValue::Bitlist { bits, .. } => mix_in_length(&content, bits.len() as u64),
            TypedValue::List { elems, .. } => mix_in_length(&content, elems.len() as u64),
            _ => content,
        }
    }

    /// The canonical 32-byte commitment to the value.  Succeeds exactly
    /// when the value respects its schema; a value over capacity is
    /// rejected, never truncated.
    pub fn hash_tree_root(&self) -> (r: Result<Chunk, MerkleError>)
        ensures
            r is Ok <==> valid(*self),
            r matches Ok(c) ==> c@ == root_of(*self) && c.wf(),
            r is Err ==> r == Err::<Chunk, MerkleError>(MerkleError::SchemaViolation),
    {
        if self.validate() {
            Ok(self.compute_root())
        } else {
            Err(MerkleError::SchemaViolation)
        }
    }
}

/// Length mixing separates lists of different live lengths: the final
/// hash of the two roots is applied to inputs whose length chunks
/// differ.  (That the digests themselves then differ is collision
/// resistance of the hash, which nothing here can prove.)
pub proof fn lemma_length_mixing_distinct_inputs(c1: Seq<u8>, c2: Seq<u8>, n1: u64, n2: u64)
    requires
        n1 != n2,
    ensures
        mixed_root(c1, n1 as nat) == hash2(c1, crate::chunk::length_chunk(n1 as nat)),
        mixed_root(c2, n2 as nat) == hash2(c2, crate::chunk::length_chunk(n2 as nat)),
        crate::chunk::length_chunk(n1 as nat) != crate::chunk::length_chunk(n2 as nat),
{
    crate::chunk::lemma_length_chunk_injective(n1, n2);
}

/// A list's root is its content root with the live length mixed in:
/// two schema-respecting lists with equal content roots but different
/// lengths hand the final hash different second arguments.
pub proof fn lemma_list_root_shape(v: TypedValue)
    requires
        valid(v),
        is_variable(v),
    ensures
        root_of(v) == hash2(
            subtree_root(value_chunks(v), content_depth(v)),
            crate::chunk::length_chunk(live_length(v)),
        ),
{
}

impl TypedValue {
    /// A 64-bit unsigned scalar, encoded little-endian over 8 bytes.
    pub fn uint64(x: u64) -> (v: TypedValue)
        ensures
            v matches TypedValue::Bytes { bytes } && bytes@ == le_bytes(x as nat, 8),
            valid(v),
    {
        proof {
            crate::chunk::lemma_le_bytes_len(x as nat, 8);
        }
        TypedValue::Bytes { bytes: crate::chunk::u64_le_bytes(x, 8) }
    }

    /// A boolean scalar: one byte, 1 for true and 0 for false.
    pub fn boolean(b: bool) -> (v: TypedValue)
        ensures
            v matches TypedValue::Bytes { bytes } && bytes@ == seq![if b {
                1u8
            } else {
                0u8
            }],
            valid(v),
    {
        let mut bytes: Vec<u8> = Vec::new();
        if b {
            bytes.push(1u8);
        } else {
            bytes.push(0u8);
        }
        proof {
            assert(bytes@ =~= seq![if b { 1u8 } else { 0u8 }]);
        }
        TypedValue::Bytes { bytes }
    }
}

/// A container with exactly one field has that field's root: its
/// content tree has depth 0 and a single leaf, and no hash is applied.
pub proof fn lemma_single_field_container(v: TypedValue)
    requires
        v matches TypedValue::Container { fields } && fields@.len() == 1,
    ensures
        match v {
            TypedValue::Container { fields } => root_of(v) == root_of(fields@[0]),
            _ => false,
        },
{
    match v {
        TypedValue::Container { fields } => {
            assert(value_chunks(v) == Seq::new(1, |i: int| root_of(fields@[i])));
            assert(content_depth(v) == 0);
            assert(value_chunks(v)[0] == root_of(fields@[0]));
        },
        _ => {},
    }
}

} // verus!
