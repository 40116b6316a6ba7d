//! Content fingerprints: the lowercase hexadecimal SHA-256 digest of a file's bytes.

use sha2::Digest;
use vstd::prelude::*;

verus! {

/// The SHA-256 digest of `data`.
pub uninterp spec fn sha256(data: Seq<u8>) -> Seq<u8>;

/// Number of bytes in a SHA-256 digest.
pub const DIGEST_LEN: usize = 32;

/// Number of characters in a fingerprint.
pub const FINGERPRINT_LEN: usize = 64;

/// The sixteen lowercase hexadecimal digits, in order of value.
pub open spec fn hex_digits() -> Seq<char> {
    seq!['0', '1', '2', '3', '4', '5', '6', '7', '8', '9', 'a', 'b', 'c', 'd', 'e', 'f']
}

/// Lowercase hexadecimal rendering of `data`: two digits per byte, the high
/// nibble first.
pub open spec fn lower_hex(data: Seq<u8>) -> Seq<char> {
    Seq::new(
        2 * data.len(),
        |i: int|
            if i % 2 == 0 {
                hex_digits()[data[i / 2] as int / 16]
            } else {
                hex_digits()[data[i / 2] as int % 16]
            },
    )
}

/// The fingerprint of a file holding exactly `bytes`.
pub open spec fn fingerprint_of(bytes: Seq<u8>) -> Seq<char> {
    lower_hex(sha256(bytes))
}

/// Computes the digest with `sha2::Sha256::digest`.
///
/// Trusted: the returned bytes are the SHA-256 digest of `data`, which is
/// always 32 bytes long.
#[verifier::external_body]
fn sha256_digest(data: &[u8]) -> (digest: Vec<u8>)
    ensures
        digest@ == sha256(data@),
        digest@.len() == DIGEST_LEN,
{
    sha2::Sha256::digest(data).to_vec()
}

/// Renders bytes with `hex::encode`.
///
/// Trusted: the result holds two lowercase hexadecimal digits for each byte
/// of `data`, in order, the high nibble first.
#[verifier::external_body]
fn hex_encode(data: &[u8]) -> (text: String)
    ensures
        text@ == lower_hex(data@),
{
    hex::encode(data)
}

/// Fingerprints the exact bytes of a file; no normalisation is applied.
pub fn fingerprint(bytes: &[u8]) -> (hash: String)
    ensures
        hash@ == fingerprint_of(bytes@),
        hash@.len() == FINGERPRINT_LEN,
{
    let digest = sha256_digest(bytes);
    hex_encode(digest.as_slice())
}

/// Distinct nibbles are rendered by distinct digits.
proof fn lemma_hex_digits_distinct(a: int, b: int)
    requires
        0 <= a < 16,
        0 <= b < 16,
        hex_digits()[a] == hex_digits()[b],
    ensures
        a == b,
{
}

/// Hexadecimal rendering loses nothing: equal renderings come from equal bytes.
pub proof fn lemma_lower_hex_injective(a: Seq<u8>, b: Seq<u8>)
    requires
        lower_hex(a) == lower_hex(b),
    ensures
        a == b,
{
    assert(lower_hex(a).len() == 2 * a.len());
    assert(lower_hex(b).len() == 2 * b.len());
    assert(a.len() == b.len());
    assert forall|i: int| 0 <= i < a.len() implies a[i] == b[i] by {
        let x = a[i] as int;
        let y = b[i] as int;
        assert(lower_hex(a)[2 * i] == hex_digits()[x / 16]);
        assert(lower_hex(b)[2 * i] == hex_digits()[y / 16]);
        assert(lower_hex(a)[2 * i + 1] == hex_digits()[x % 16]);
        assert(lower_hex(b)[2 * i + 1] == hex_digits()[y % 16]);
        lemma_hex_digits_distinct(x / 16, y / 16);
        lemma_hex_digits_distinct(x % 16, y % 16);
    }
    assert(a =~= b);
}

/// Files with identical bytes have identical fingerprints, and two
/// fingerprints are equal exactly when the underlying digests are equal.
pub proof fn lemma_fingerprints_follow_content(a: Seq<u8>, b: Seq<u8>)
    ensures
        a == b ==> fingerprint_of(a) == fingerprint_of(b),
        fingerprint_of(a) == fingerprint_of(b) <==> sha256(a) == sha256(b),
{
    if fingerprint_of(a) == fingerprint_of(b) {
        lemma_lower_hex_injective(sha256(a), sha256(b));
    }
}

} // verus!
