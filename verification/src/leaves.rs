//! Leaf derivation: a byte image becomes an ordered, power-of-two long sequence of
//! block hashes.

use vstd::prelude::*;
use crate::hash::{blake3_digest, Blake3Hasher};

verus! {

/// The block size, in bytes, of the live protocol.
pub const CHUNK_SIZE: usize = 2048;

/// Why a leaf sequence cannot be built or used.
#[derive(Clone, Copy, Debug, PartialEq, Eq, Structural)]
pub enum StructuralError {
    /// The image holds no complete block, so there is no leaf to commit to.
    NoContent,
    /// The leaf count is zero or not a power of two.
    InvalidLeafCount,
    /// The leaf index lies beyond the last leaf.
    IndexOutOfRange,
}

/// `n` is one of 1, 2, 4, 8, ...
pub open spec fn is_power_of_two(n: nat) -> bool
    decreases n,
{
    n == 1 || (n > 1 && n % 2 == 0 && is_power_of_two(n / 2))
}

/// The smallest power of two that is at least `n`.
pub open spec fn next_power_of_two(n: nat) -> nat
    decreases n,
{
    if n <= 1 {
        1
    } else {
        2 * next_power_of_two((n + 1) / 2)
    }
}

/// The padding leaf: 32 zero bytes.
pub open spec fn zero_leaf() -> [u8; 32] {
    vstd::array::spec_array_fill_for_copy_type::<u8, 32>(0u8)
}

/// Every byte of the padding leaf is zero.
pub proof fn lemma_zero_leaf_bytes()
    ensures
        zero_leaf()@ == Seq::new(32, |i: int| 0u8),
{
    assert(zero_leaf()@ =~= Seq::new(32, |i: int| 0u8));
}

/// The number of complete blocks of `chunk_size` bytes in an image of `len` bytes.
pub open spec fn content_leaf_count(len: nat, chunk_size: nat) -> nat {
    len / chunk_size
}

/// The `i`-th complete block of the image.
pub open spec fn chunk_at(bytes: Seq<u8>, chunk_size: nat, i: int) -> Seq<u8> {
    bytes.subrange(i * chunk_size, (i + 1) * chunk_size)
}

/// The leaves of an image: the hash of each complete block in image order, then zero
/// leaves up to the next power of two. Bytes after the last complete block are left out.
pub open spec fn leaves_of(bytes: Seq<u8>, chunk_size: nat) -> Seq<[u8; 32]> {
    let n = content_leaf_count(bytes.len(), chunk_size);
    Seq::new(
        next_power_of_two(n),
        |i: int|
            if i < n {
                blake3_digest(chunk_at(bytes, chunk_size, i))
            } else {
                zero_leaf()
            },
    )
}

/// The next power of two is a power of two, is at least `n`, and no power of two at
/// least `n` is smaller.
pub proof fn lemma_next_power_of_two(n: nat)
    ensures
        is_power_of_two(next_power_of_two(n)),
        n <= next_power_of_two(n),
        forall|p: nat| is_power_of_two(p) && n <= p ==> next_power_of_two(n) <= p,
    decreases n,
{
    if n > 1 {
        let half = ((n + 1) / 2) as nat;
        lemma_next_power_of_two(half);
        let q = next_power_of_two(half);
        assert(is_power_of_two(2 * q)) by {
            assert((2 * q) / 2 == q);
        }
        assert forall|p: nat| is_power_of_two(p) && n <= p implies next_power_of_two(n) <= p by {
            assert(is_power_of_two(p / 2));
            assert(half <= p / 2);
        }
    }
}

/// The shape of an image's leaves: their number is the next power of two at or above
/// the number of complete blocks, which is a power of two; the first leaves are the
/// hashes of the blocks, each taken on its own and in image order; the rest are padding.
pub proof fn lemma_leaves_shape(bytes: Seq<u8>, chunk_size: nat)
    ensures
        leaves_of(bytes, chunk_size).len() == next_power_of_two(bytes.len() / chunk_size),
        is_power_of_two(leaves_of(bytes, chunk_size).len()),
        forall|i: int|
            0 <= i < bytes.len() / chunk_size ==> #[trigger] leaves_of(bytes, chunk_size)[i]
                == blake3_digest(bytes.subrange(i * chunk_size, (i + 1) * chunk_size)),
        forall|i: int|
            bytes.len() / chunk_size <= i < leaves_of(bytes, chunk_size).len()
                ==> #[trigger] leaves_of(bytes, chunk_size)[i] == zero_leaf(),
{
    lemma_next_power_of_two(bytes.len() / chunk_size);
}

/// Whether `n` is a power of two.
pub fn power_of_two(n: usize) -> (yes: bool)
    ensures
        yes == is_power_of_two(n as nat),
{
    if n == 0 {
        return false;
    }
    let mut m: usize = n;
    while m % 2 == 0
        invariant
            m >= 1,
            is_power_of_two(m as nat) == is_power_of_two(n as nat),
        decreases m,
    {
        m = m / 2;
    }
    m == 1
}

/// Cuts `bytes` into blocks of `chunk_size` bytes and hashes each complete block, in
/// order. The bytes after the last complete block are dropped, not hashed short. Zero
/// leaves are then appended until the count is a power of two.
///
/// An image shorter than one block has no leaf and is refused, and so is a block size
/// of zero, which cuts no blocks.
pub fn derive_leaves(bytes: &[u8], chunk_size: usize) -> (result: Result<
    Vec<[u8; 32]>,
    StructuralError,
>)
    ensures
        result is Err <==> chunk_size == 0 || bytes@.len() < chunk_size,
        result matches Err(e) ==> e == StructuralError::NoContent,
        result matches Ok(leaves) ==> leaves@ == leaves_of(bytes@, chunk_size as nat),
{
    let len = bytes.len();
    if chunk_size == 0 || len < chunk_size {
        return Err(StructuralError::NoContent);
    }
    let mut leaves: Vec<[u8; 32]> = Vec::new();
    let mut offset: usize = 0;
    while len - offset >= chunk_size
        invariant
            chunk_size > 0,
            len == bytes@.len(),
            offset <= len,
            offset == leaves@.len() * chunk_size,
            forall|j: int|
                0 <= j < leaves@.len() ==> leaves@[j] == blake3_digest(
                    chunk_at(bytes@, chunk_size as nat, j),
                ),
        decreases len - offset,
    {
        let ghost i = leaves@.len() as int;
        assert((i + 1) * chunk_size == i * chunk_size + chunk_size) by (nonlinear_arith);
        let block = vstd::slice::slice_subrange(bytes, offset, offset + chunk_size);
        let leaf = Blake3Hasher::hash(block);
        leaves.push(leaf);
        offset = offset + chunk_size;
    }
    let ghost n = leaves@.len();
    assert(n == content_leaf_count(bytes@.len(), chunk_size as nat)) by {
        vstd::arithmetic::div_mod::lemma_fundamental_div_mod_converse(
            len as int,
            chunk_size as int,
            n as int,
            len - offset,
        );
    }
    assert(n >= 1) by {
        if n == 0 {
            assert(0 * chunk_size == 0) by (nonlinear_arith);
        }
    }
    proof {
        lemma_next_power_of_two(n);
    }
    while !power_of_two(leaves.len())
        invariant
            n <= leaves@.len() <= next_power_of_two(n),
            is_power_of_two(next_power_of_two(n)),
            forall|p: nat| is_power_of_two(p) && n <= p ==> next_power_of_two(n) <= p,
            forall|j: int|
                0 <= j < n ==> leaves@[j] == blake3_digest(chunk_at(bytes@, chunk_size as nat, j)),
            forall|j: int| n <= j < leaves@.len() ==> leaves@[j] == zero_leaf(),
        decreases next_power_of_two(n) - leaves@.len(),
    {
        leaves.push([0u8; 32]);
    }
    assert(leaves@ =~= leaves_of(bytes@, chunk_size as nat));
    Ok(leaves)
}

/// The leaves of a memory image at the protocol's block size.
pub fn generate_leaves_from_memory(mem: &[u8]) -> (result: Result<Vec<[u8; 32]>, StructuralError>)
    ensures
        result is Err <==> mem@.len() < CHUNK_SIZE,
        result matches Err(e) ==> e == StructuralError::NoContent,
        result matches Ok(leaves) ==> leaves@ == leaves_of(mem@, CHUNK_SIZE as nat),
{
    derive_leaves(mem, CHUNK_SIZE)
}

/// The leaves of a stored memory image, together with its first block, which is the
/// segment that a reveal discloses.
///
/// An image shorter than one block is refused.
pub fn generate_leaves_from_file(mem: &[u8]) -> (result: Result<
    (Vec<[u8; 32]>, Vec<u8>),
    StructuralError,
>)
    ensures
        result is Err <==> mem@.len() < CHUNK_SIZE,
        result matches Err(e) ==> e == StructuralError::NoContent,
        result matches Ok((leaves, segment)) ==> {
            &&& leaves@ == leaves_of(mem@, CHUNK_SIZE as nat)
            &&& segment@ == mem@.subrange(0, CHUNK_SIZE as int)
        },
{
    if mem.len() < CHUNK_SIZE {
        return Err(StructuralError::NoContent);
    }
    let segment = vstd::slice::slice_to_vec(vstd::slice::slice_subrange(mem, 0, CHUNK_SIZE));
    match generate_leaves_from_memory(mem) {
        Ok(leaves) => Ok((leaves, segment)),
        Err(e) => Err(e),
    }
}

} // verus!
