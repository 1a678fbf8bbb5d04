//! The hash by which content is known.

use vstd::prelude::*;

verus! {

/// SHA-1 takes messages of fewer than 2^64 bits: fewer bytes than this.
pub const SHA1_LIMIT: u64 = 0x2000_0000_0000_0000;

/// The SHA-1 digest of `bytes`, written as hexadecimal digits.
pub uninterp spec fn sha1_hex(bytes: Seq<u8>) -> Seq<char>;

/// A digit, or a letter from `a` to `f`.
pub open spec fn is_hex_digit(c: char) -> bool {
    ('0' <= c && c <= '9') || ('a' <= c && c <= 'f')
}

/// Forty hexadecimal digits, the letters in lower case: the 160 bits of a
/// digest.
pub open spec fn is_digest(hex: Seq<char>) -> bool {
    &&& hex.len() == 40
    &&& forall|i: int| 0 <= i < hex.len() ==> is_hex_digit(#[trigger] hex[i])
}

/// `sha1::Sha1::new`, `update` and `digest`, and the digest's `to_string`:
/// one hasher, fed `bytes` in one piece, gives the digest of `bytes`, and
/// the digest prints as its five words of 32 bits, each as eight hexadecimal
/// digits in lower case. Nothing but `bytes` goes into the result. The hasher
/// counts the message's bits in 64 bits, which is why longer messages are
/// kept out.
#[verifier::external_body]
fn digest_hex(bytes: &[u8]) -> (hex: String)
    requires
        bytes@.len() < SHA1_LIMIT,
    ensures
        hex@ == sha1_hex(bytes@),
        is_digest(hex@),
{
    let mut hasher = sha1::Sha1::new();
    hasher.update(bytes);
    hasher.digest().to_string()
}

/// The hash of a file's content.
pub fn sha1sum(bytes: &[u8]) -> (hash: String)
    requires
        bytes@.len() < SHA1_LIMIT,
    ensures
        hash@ == sha1_hex(bytes@),
        is_digest(hash@),
{
    digest_hex(bytes)
}

} // verus!
