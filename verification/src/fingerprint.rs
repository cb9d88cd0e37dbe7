//! Chunk fingerprints: the SHA-256 digest of a chunk's bytes, written as 64
//! lowercase hexadecimal characters.

use sha2::{Digest, Sha256};
use vstd::prelude::*;

verus! {

/// The SHA-256 digest of `data`, as computed by the `sha2` crate.
pub uninterp spec fn sha256_of(data: Seq<u8>) -> Seq<u8>;

/// The sixteen lowercase hexadecimal digits, indexed by their value.
pub open spec fn hex_digits() -> Seq<char> {
    seq!['0', '1', '2', '3', '4', '5', '6', '7', '8', '9', 'a', 'b', 'c', 'd', 'e', 'f']
}

/// The value of the hexadecimal digit at position `i` of the encoding of
/// `data`: the high half of a byte at even positions, the low half at odd ones.
pub open spec fn nibble_at(data: Seq<u8>, i: int) -> int {
    if i % 2 == 0 {
        data[i / 2] as int / 16
    } else {
        data[i / 2] as int % 16
    }
}

/// Lowercase hexadecimal encoding: two digits per byte, high half first.
pub open spec fn hex_lower(data: Seq<u8>) -> Seq<char> {
    Seq::new(2 * data.len(), |i: int| hex_digits()[nibble_at(data, i)])
}

/// Whether `c` is one of `0`-`9` or `a`-`f`.
pub open spec fn is_lower_hex_digit(c: char) -> bool {
    exists|n: int| 0 <= n < 16 && hex_digits()[n] == c
}

/// The fingerprint of a chunk with content `data`.
pub open spec fn fingerprint_of(data: Seq<u8>) -> Seq<char> {
    hex_lower(sha256_of(data))
}

/// Calls `Sha256::new`, `update` and `finalize` of the `sha2` crate on `data`.
/// Trusted: the returned bytes are the SHA-256 digest of `data`, which is
/// always 32 bytes long.
#[verifier::external_body]
fn sha256(data: &[u8]) -> (digest: Vec<u8>)
    ensures
        digest@ == sha256_of(data@),
        digest@.len() == 32,
{
    let mut hasher = Sha256::new();
    hasher.update(data);
    hasher.finalize().to_vec()
}

/// Calls `hex::encode`. Trusted: every byte becomes two characters, the digit
/// of its high four bits and then the digit of its low four bits, taken from
/// `0123456789abcdef`.
#[verifier::external_body]
fn hex_encode(data: &[u8]) -> (text: String)
    ensures
        text@ == hex_lower(data@),
{
    hex::encode(data)
}

/// Every character of a hexadecimal encoding is a lowercase hexadecimal digit,
/// and there are two of them per byte.
pub proof fn lemma_hex_lower_shape(data: Seq<u8>)
    ensures
        hex_lower(data).len() == 2 * data.len(),
        forall|i: int| 0 <= i < hex_lower(data).len() ==> is_lower_hex_digit(#[trigger] hex_lower(data)[i]),
{
    assert forall|i: int| 0 <= i < hex_lower(data).len() implies is_lower_hex_digit(
        #[trigger] hex_lower(data)[i],
    ) by {
        let n = nibble_at(data, i);
        assert(0 <= n < 16);
        assert(hex_digits()[n] == hex_lower(data)[i]);
    }
}

/// Writes a digest as lowercase hexadecimal text.
pub fn digest_to_hex(digest: &[u8]) -> (text: String)
    ensures
        text@ == hex_lower(digest@),
        text@.len() == 2 * digest@.len(),
{
    hex_encode(digest)
}

/// Computes the fingerprint of a chunk: the SHA-256 digest of its bytes in
/// lowercase hexadecimal. The result depends on the bytes alone.
pub fn fingerprint(chunk_bytes: &[u8]) -> (text: String)
    ensures
        text@ == fingerprint_of(chunk_bytes@),
        text@.len() == 64,
        forall|i: int| 0 <= i < 64 ==> is_lower_hex_digit(#[trigger] text@[i]),
{
    let digest = sha256(chunk_bytes);
    proof {
        lemma_hex_lower_shape(digest@);
    }
    digest_to_hex(digest.as_slice())
}

} // verus!
