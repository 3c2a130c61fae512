//! Content fingerprints: the SHA-256 digest of a file's bytes, written as
//! lowercase hexadecimal.

use vstd::prelude::*;
use sha2::Digest;

verus! {

/// The SHA-256 digest of a byte sequence (FIPS 180-4).
pub uninterp spec fn sha256(data: Seq<u8>) -> Seq<u8>;

/// `sha2::Sha256::digest`: the digest of `data`, which is 32 bytes long.
#[verifier::external_body]
fn sha256_digest(data: &[u8]) -> (d: Vec<u8>)
    ensures
        d@ == sha256(data@),
        d@.len() == 32,
{
    sha2::Sha256::digest(data).to_vec()
}

/// The lowercase hexadecimal digit for `n < 16`.
pub open spec fn hex_digit(n: int) -> char {
    if n < 10 {
        (48 + n) as char
    } else {
        (87 + n) as char
    }
}

/// Two lowercase hexadecimal digits per byte, high nibble first.
pub open spec fn hex_lower(data: Seq<u8>) -> Seq<char> {
    Seq::new(
        2 * data.len(),
        |i: int|
            if i % 2 == 0 {
                hex_digit((data[i / 2] / 16) as int)
            } else {
                hex_digit((data[i / 2] % 16) as int)
            },
    )
}

/// `hex::encode`: each byte becomes two lowercase hexadecimal digits,
/// high nibble first.
#[verifier::external_body]
fn hex_encode(data: &[u8]) -> (s: String)
    ensures
        s@ == hex_lower(data@),
{
    hex::encode(data)
}

/// A digest written as lowercase hexadecimal, two digits per byte.
pub fn hex_fingerprint(digest: &[u8]) -> (h: String)
    ensures
        h@ == hex_lower(digest@),
        h@.len() == 2 * digest@.len(),
{
    hex_encode(digest)
}

/// The fingerprint of a file's contents: its SHA-256 digest as 64
/// lowercase hexadecimal digits.
pub fn hash_contents(data: &[u8]) -> (h: String)
    ensures
        h@ == hex_lower(sha256(data@)),
        h@.len() == 64,
{
    let d = sha256_digest(data);
    hex_fingerprint(d.as_slice())
}

} // verus!
