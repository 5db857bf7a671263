//! Chunks and the packing rules that turn raw data into them.
//!
//! A chunk is the 32-byte atomic unit of Merkleization.  Byte strings are
//! cut into chunks with zero padding; little-endian scalars are laid down
//! and right-padded; bit sequences are packed least-significant-bit first
//! into bytes and then into chunks.

use vstd::prelude::*;
use vstd::arithmetic::power2::pow2;

verus! {

/// A 32-byte Merkle tree node value: a leaf chunk or an internal hash.
#[derive(Debug)]
pub struct Chunk {
    pub bytes: Vec<u8>,
}

impl View for Chunk {
    type V = Seq<u8>;

    open spec fn view(&self) -> Seq<u8> {
        self.bytes@
    }
}

impl Clone for Chunk {
    fn clone(&self) -> (r: Chunk)
        ensures
            r@ == self@,
    {
        let bytes = self.bytes.clone();
        proof {
            assert(bytes@ =~= self.bytes@);
        }
        Chunk { bytes }
    }
}

/// The all-zero 32-byte chunk used to pad trees.
pub open spec fn zero_chunk() -> Seq<u8> {
    Seq::new(32, |i: int| 0u8)
}

impl Chunk {
    /// A chunk holds exactly 32 bytes.
    pub open spec fn wf(&self) -> bool {
        self@.len() == 32
    }

    /// The all-zero chunk.
    pub fn zero() -> (c: Chunk)
        ensures
            c@ == zero_chunk(),
            c.wf(),
    {
        let mut bytes: Vec<u8> = Vec::new();
        let mut j: usize = 0;
        while j < 32
            invariant
                j <= 32,
                bytes@.len() == j,
                forall|k: int| 0 <= k < j ==> bytes@[k] == 0u8,
            decreases 32 - j,
        {
            bytes.push(0u8);
            j = j + 1;
        }
        proof {
            assert(bytes@ =~= zero_chunk());
        }
        Chunk { bytes }
    }

    /// A chunk from at most 32 bytes, right-padded with zeros: the leaf of
    /// a basic scalar or short byte array.
    pub fn from_padded_bytes(data: &Vec<u8>) -> (c: Chunk)
        requires
            data@.len() <= 32,
        ensures
            c@ == padded32(data@),
            c.wf(),
    {
        let mut bytes: Vec<u8> = Vec::new();
        let mut j: usize = 0;
        while j < 32
            invariant
                j <= 32,
                data@.len() <= 32,
                bytes@.len() == j,
                forall|k: int| 0 <= k < j ==> bytes@[k] == padded32(data@)[k],
            decreases 32 - j,
        {
            if j < data.len() {
                bytes.push(data[j]);
            } else {
                bytes.push(0u8);
            }
            j = j + 1;
        }
        proof {
            assert(bytes@ =~= padded32(data@));
        }
        Chunk { bytes }
    }

    /// Byte-wise equality of two chunks.
    pub fn eq_bytes(&self, other: &Chunk) -> (r: bool)
        ensures
            r == (self@ == other@),
    {
        if self.bytes.len() != other.bytes.len() {
            return false;
        }
        let mut j: usize = 0;
        while j < self.bytes.len()
            invariant
                j <= self@.len(),
                self@.len() == other@.len(),
                forall|k: int| 0 <= k < j ==> self@[k] == other@[k],
            decreases self@.len() - j,
        {
            if self.bytes[j] != other.bytes[j] {
                return false;
            }
            j = j + 1;
        }
        proof {
            assert(self@ =~= other@);
        }
        true
    }
}

/// A byte string extended with zeros to exactly 32 bytes.
pub open spec fn padded32(b: Seq<u8>) -> Seq<u8> {
    Seq::new(32, |j: int| if j < b.len() { b[j] } else { 0u8 })
}

/// The little-endian byte string of `x`, `n` bytes long.
pub open spec fn le_bytes(x: nat, n: nat) -> Seq<u8>
    decreases n,
{
    if n == 0 {
        Seq::empty()
    } else {
        seq![(x % 256) as u8] + le_bytes(x / 256, (n - 1) as nat)
    }
}

pub proof fn lemma_le_bytes_len(x: nat, n: nat)
    ensures
        le_bytes(x, n).len() == n,
    decreases n,
{
    if n > 0 {
        lemma_le_bytes_len(x / 256, (n - 1) as nat);
    }
}

/// Distinct values below `2^(8n)` have distinct little-endian encodings.
pub proof fn lemma_le_bytes_injective(x: nat, y: nat, n: nat)
    requires
        x < pow2(8 * n),
        y < pow2(8 * n),
        le_bytes(x, n) == le_bytes(y, n),
    ensures
        x == y,
    decreases n,
{
    vstd::arithmetic::power2::lemma2_to64();
    if n == 0 {
    } else {
        assert(le_bytes(x, n)[0] == (x % 256) as u8);
        assert(le_bytes(y, n)[0] == (y % 256) as u8);
        assert(x % 256 == y % 256);
        let xs = le_bytes(x / 256, (n - 1) as nat);
        let ys = le_bytes(y / 256, (n - 1) as nat);
        lemma_le_bytes_len(x / 256, (n - 1) as nat);
        lemma_le_bytes_len(y / 256, (n - 1) as nat);
        assert(xs =~= ys) by {
            assert(forall|k: int| 0 <= k < n - 1 ==> xs[k] == le_bytes(x, n)[k + 1] && ys[k]
                == le_bytes(y, n)[k + 1]);
        }
        assert(pow2(8 * n) == 256 * pow2((8 * (n - 1)) as nat)) by {
            vstd::arithmetic::power2::lemma_pow2_adds(8, (8 * (n - 1)) as nat);
        }
        assert(x / 256 < pow2((8 * (n - 1)) as nat)) by {
            vstd::arithmetic::div_mod::lemma_multiply_divide_lt(
                x as int,
                256,
                pow2((8 * (n - 1)) as nat) as int,
            );
        }
        assert(y / 256 < pow2((8 * (n - 1)) as nat)) by {
            vstd::arithmetic::div_mod::lemma_multiply_divide_lt(
                y as int,
                256,
                pow2((8 * (n - 1)) as nat) as int,
            );
        }
        lemma_le_bytes_injective(x / 256, y / 256, (n - 1) as nat);
        vstd::arithmetic::div_mod::lemma_fundamental_div_mod(x as int, 256);
        vstd::arithmetic::div_mod::lemma_fundamental_div_mod(y as int, 256);
    }
}

/// The 32-byte chunk that encodes a length for length mixing.
pub open spec fn length_chunk(n: nat) -> Seq<u8> {
    le_bytes(n, 32)
}

/// Distinct lengths give distinct length chunks.
pub proof fn lemma_length_chunk_injective(a: u64, b: u64)
    requires
        a != b,
    ensures
        length_chunk(a as nat) != length_chunk(b as nat),
{
    vstd::arithmetic::power2::lemma2_to64();
    assert(pow2(64) <= pow2(8 * 32)) by {
        vstd::arithmetic::power2::lemma_pow2_strictly_increases(64, 8 * 32);
    }
    if length_chunk(a as nat) == length_chunk(b as nat) {
        lemma_le_bytes_injective(a as nat, b as nat, 32);
    }
}

/// The little-endian bytes of a 64-bit value, `n` of them.
pub fn u64_le_bytes(x: u64, n: usize) -> (v: Vec<u8>)
    ensures
        v@ == le_bytes(x as nat, n as nat),
{
    let mut bytes: Vec<u8> = Vec::new();
    let mut cur: u64 = x;
    let mut j: usize = 0;
    proof {
        lemma_le_bytes_len(x as nat, n as nat);
        assert(Seq::<u8>::empty() + le_bytes(x as nat, n as nat) =~= le_bytes(x as nat, n as nat));
    }
    while j < n
        invariant
            j <= n,
            bytes@.len() == j,
            bytes@ + le_bytes(cur as nat, (n - j) as nat) == le_bytes(x as nat, n as nat),
        decreases n - j,
    {
        proof {
            assert(le_bytes(cur as nat, (n - j) as nat) =~= seq![(cur % 256) as u8] + le_bytes(
                cur as nat / 256,
                (n - j - 1) as nat,
            ));
            assert(bytes@.push((cur % 256) as u8) + le_bytes(cur as nat / 256, (n - j - 1) as nat)
                =~= bytes@ + le_bytes(cur as nat, (n - j) as nat));
        }
        bytes.push((cur % 256) as u8);
        cur = cur / 256;
        j = j + 1;
    }
    proof {
        assert(bytes@ + le_bytes(cur as nat, 0) =~= bytes@);
    }
    bytes
}

/// The 32-byte little-endian chunk of a 64-bit value.
pub fn u64_le_chunk(x: u64) -> (c: Chunk)
    ensures
        c@ == le_bytes(x as nat, 32),
        c.wf(),
{
    let mut bytes: Vec<u8> = Vec::new();
    let mut cur: u64 = x;
    let mut j: usize = 0;
    proof {
        lemma_le_bytes_len(x as nat, 32);
        assert(Seq::<u8>::empty() + le_bytes(x as nat, 32) =~= le_bytes(x as nat, 32));
    }
    while j < 32
        invariant
            j <= 32,
            bytes@.len() == j,
            bytes@ + le_bytes(cur as nat, (32 - j) as nat) == le_bytes(x as nat, 32),
        decreases 32 - j,
    {
        proof {
            assert(le_bytes(cur as nat, (32 - j) as nat) =~= seq![(cur % 256) as u8] + le_bytes(
                cur as nat / 256,
                (32 - j - 1) as nat,
            ));
            assert(bytes@.push((cur % 256) as u8) + le_bytes(cur as nat / 256, (32 - j - 1) as nat)
                =~= bytes@ + le_bytes(cur as nat, (32 - j) as nat));
        }
        bytes.push((cur % 256) as u8);
        cur = cur / 256;
        j = j + 1;
    }
    proof {
        assert(bytes@ + le_bytes(cur as nat, 0) =~= bytes@);
    }
    Chunk { bytes }
}

/// The views of a sequence of chunks.
pub open spec fn chunk_views(cs: Seq<Chunk>) -> Seq<Seq<u8>> {
    cs.map_values(|c: Chunk| c@)
}

pub open spec fn all_wf(cs: Seq<Chunk>) -> bool {
    forall|i: int| 0 <= i < cs.len() ==> (#[trigger] cs[i]).wf()
}

/// The 32-byte chunks of a byte string: `ceil(len / 32)` chunks, the last
/// one zero-padded.
pub open spec fn chunkify(b: Seq<u8>) -> Seq<Seq<u8>> {
    Seq::new(
        (b.len() + 31) as nat / 32,
        |i: int| Seq::new(32, |j: int| if 32 * i + j < b.len() { b[32 * i + j] } else { 0u8 }),
    )
}

/// Cuts a byte string into zero-padded 32-byte chunks.
pub fn pack_bytes(data: &Vec<u8>) -> (chunks: Vec<Chunk>)
    requires
        data@.len() + 32 <= usize::MAX,
    ensures
        chunk_views(chunks@) == chunkify(data@),
        all_wf(chunks@),
{
    let n: usize = data.len();
    let n_chunks: usize = n / 32 + (if n % 32 != 0 {
        1
    } else {
        0
    });
    assert(n_chunks == (n + 31) as nat / 32);
    let mut chunks: Vec<Chunk> = Vec::new();
    let mut i: usize = 0;
    while i < n_chunks
        invariant
            i <= n_chunks,
            n == data@.len(),
            n_chunks == (n + 31) as nat / 32,
            n + 32 <= usize::MAX,
            chunks@.len() == i,
            all_wf(chunks@),
            forall|k: int| 0 <= k < i ==> (#[trigger] chunks@[k])@ == chunkify(data@)[k],
        decreases n_chunks - i,
    {
        let mut piece: Vec<u8> = Vec::new();
        let mut j: usize = 0;
        while j < 32
            invariant
                j <= 32,
                i < n_chunks,
                n == data@.len(),
                n_chunks == (n + 31) as nat / 32,
                n + 32 <= usize::MAX,
                piece@.len() == j,
                forall|k: int| 0 <= k < j ==> piece@[k] == chunkify(data@)[i as int][k],
            decreases 32 - j,
        {
            let pos: usize = i * 32 + j;
            if pos < n {
                piece.push(data[pos]);
            } else {
                piece.push(0u8);
            }
            proof {
                assert(chunkify(data@)[i as int][j as int] == (if 32 * i + j < data@.len() {
                    data@[32 * i + j]
                } else {
                    0u8
                }));
            }
            j = j + 1;
        }
        proof {
            assert(piece@ =~= chunkify(data@)[i as int]);
        }
        chunks.push(Chunk { bytes: piece });
        i = i + 1;
    }
    proof {
        assert(chunk_views(chunks@) =~= chunkify(data@));
    }
    chunks
}

/// 1 if bit `k` of the sequence is set, 0 otherwise (bits beyond the end
/// count as 0).
pub open spec fn bit_at(bits: Seq<bool>, k: int) -> nat {
    if 0 <= k < bits.len() && bits[k] {
        1
    } else {
        0
    }
}

/// The byte whose bit `j` is bit `base + j` of the sequence, least
/// significant bit first.
pub open spec fn byte_of_bits(bits: Seq<bool>, base: int) -> u8 {
    (bit_at(bits, base) + 2 * bit_at(bits, base + 1) + 4 * bit_at(bits, base + 2) + 8 * bit_at(
        bits,
        base + 3,
    ) + 16 * bit_at(bits, base + 4) + 32 * bit_at(bits, base + 5) + 64 * bit_at(bits, base + 6)
        + 128 * bit_at(bits, base + 7)) as u8
}

/// LSB-first bit packing into bytes: bit `k` lands in byte `k / 8` at bit
/// position `k % 8`; the last byte is zero-padded.
pub open spec fn bits_to_bytes(bits: Seq<bool>) -> Seq<u8> {
    Seq::new((bits.len() + 7) as nat / 8, |i: int| byte_of_bits(bits, 8 * i))
}

fn bit_val(bits: &Vec<bool>, k: usize) -> (r: u8)
    ensures
        r as nat == bit_at(bits@, k as int),
{
    if k < bits.len() && bits[k] {
        1
    } else {
        0
    }
}

/// Packs a bit sequence into bytes, least significant bit first.
pub fn pack_bits_to_bytes(bits: &Vec<bool>) -> (bytes: Vec<u8>)
    requires
        bits@.len() + 8 <= usize::MAX,
    ensures
        bytes@ == bits_to_bytes(bits@),
{
    let n: usize = bits.len();
    let n_bytes: usize = n / 8 + (if n % 8 != 0 {
        1
    } else {
        0
    });
    assert(n_bytes == (n + 7) as nat / 8);
    let mut bytes: Vec<u8> = Vec::new();
    let mut i: usize = 0;
    while i < n_bytes
        invariant
            i <= n_bytes,
            n == bits@.len(),
            n_bytes == (n + 7) as nat / 8,
            n + 8 <= usize::MAX,
            bytes@.len() == i,
            forall|k: int| 0 <= k < i ==> bytes@[k] == bits_to_bytes(bits@)[k],
        decreases n_bytes - i,
    {
        let base: usize = i * 8;
        let b0 = bit_val(bits, base);
        let b1 = bit_val(bits, base + 1);
        let b2 = bit_val(bits, base + 2);
        let b3 = bit_val(bits, base + 3);
        let b4 = bit_val(bits, base + 4);
        let b5 = bit_val(bits, base + 5);
        let b6 = bit_val(bits, base + 6);
        let b7 = bit_val(bits, base + 7);
        let byte: u8 = b0 + 2 * b1 + 4 * b2 + 8 * b3 + 16 * b4 + 32 * b5 + 64 * b6 + 128 * b7;
        bytes.push(byte);
        i = i + 1;
    }
    proof {
        assert(bytes@ =~= bits_to_bytes(bits@));
    }
    bytes
}

} // verus!
