//! Content hashing and the hexadecimal text form of hashes.

use vstd::prelude::*;

verus! {

/// The BLAKE3 digest of `data`, in its default 32-byte output form.
pub uninterp spec fn blake3_digest(data: Seq<u8>) -> [u8; 32];

/// Calls `blake3::hash` and copies the 32 bytes out of the `Hash` it returns.
/// Trusted: the bytes are the BLAKE3 digest of exactly `data`, the same on every call.
#[verifier::external_body]
fn blake3_hash(data: &[u8]) -> (digest: [u8; 32])
    ensures
        digest == blake3_digest(data@),
{
    *blake3::hash(data).as_bytes()
}

/// The lowercase hexadecimal digit of a value below sixteen.
pub open spec fn hex_char(nibble: int) -> char {
    seq!['0', '1', '2', '3', '4', '5', '6', '7', '8', '9', 'a', 'b', 'c', 'd', 'e', 'f'][nibble]
}

/// Two lowercase hexadecimal digits per byte, high nibble first.
pub open spec fn hex_string(bytes: Seq<u8>) -> Seq<char> {
    Seq::new(
        2 * bytes.len(),
        |i: int|
            if i % 2 == 0 {
                hex_char(bytes[i / 2] as int / 16)
            } else {
                hex_char(bytes[i / 2] as int % 16)
            },
    )
}

/// Calls `hex::encode`.
/// Trusted: every byte becomes two lowercase hexadecimal digits, high nibble first,
/// in the order of the bytes.
#[verifier::external_body]
fn hex_encode(bytes: &[u8]) -> (text: String)
    ensures
        text@ == hex_string(bytes@),
{
    hex::encode(bytes)
}

/// The BLAKE3 content hash under which blocks of memory and pairs of tree nodes are
/// committed.
#[derive(Clone, Copy, Debug)]
pub struct Blake3Hasher;

impl Blake3Hasher {
    /// Hashes `data` to its 32-byte digest.
    pub fn hash(data: &[u8]) -> (digest: [u8; 32])
        ensures
            digest == blake3_digest(data@),
    {
        blake3_hash(data)
    }
}

/// The hexadecimal text of `bytes`, as it travels in messages.
pub fn to_hex(bytes: &[u8]) -> (text: String)
    ensures
        text@ == hex_string(bytes@),
{
    hex_encode(bytes)
}

/// Whether two hashes hold the same 32 bytes.
pub fn hash_eq(a: &[u8; 32], b: &[u8; 32]) -> (same: bool)
    ensures
        same == (*a == *b),
{
    let mut i: usize = 0;
    while i < 32
        invariant
            i <= 32,
            forall|j: int| 0 <= j < i ==> a[j] == b[j],
        decreases 32 - i,
    {
        if a[i] != b[i] {
            return false;
        }
        i += 1;
    }
    assert(*a =~= *b);
    true
}

} // verus!
