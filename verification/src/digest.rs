//! SHA-256 digests of framed identity inputs.

use sha2::Digest;
use crate::text::{hex_digit, lower_hex, str_chars};
use vstd::prelude::*;

verus! {

/// The SHA-256 digest of a byte string.
pub uninterp spec fn sha256_digest(data: Seq<u8>) -> Seq<u8>;

/// `sha2::Sha256::digest`: the 32-byte SHA-256 digest of `data`, a function
/// of `data` alone.
#[verifier::external_body]
pub(crate) fn sha256(data: &[u8]) -> (r: Vec<u8>)
    ensures
        r@ == sha256_digest(data@),
        r@.len() == 32,
{
    sha2::Sha256::digest(data).to_vec()
}


/// Whether text is a canonical digest: 64 lowercase hex characters.
pub open spec fn is_canonical_digest(text: Seq<char>) -> bool {
    text.len() == 64 && forall|i: int| 0 <= i < text.len() ==> ('0' <= #[trigger] text[i] <= '9') || ('a' <= text[i] <= 'f')
}

/// Lowercase hex of bytes has two digits per byte, each `0`-`9` or `a`-`f`.
pub proof fn lemma_lower_hex_digits(b: Seq<u8>)
    ensures
        lower_hex(b).len() == 2 * b.len(),
        forall|i: int| 0 <= i < lower_hex(b).len() ==> ('0' <= #[trigger] lower_hex(b)[i] <= '9') || ('a' <= lower_hex(b)[i] <= 'f'),
    decreases b.len(),
{
    if b.len() > 0 {
        lemma_lower_hex_digits(b.drop_last());
        let hi = b.last() as int / 16;
        let lo = b.last() as int % 16;
        assert(('0' <= hex_digit(hi) <= '9') || ('a' <= hex_digit(hi) <= 'f'));
        assert(('0' <= hex_digit(lo) <= '9') || ('a' <= hex_digit(lo) <= 'f'));
    }
}

/// The lowercase hex of a SHA-256 digest is a canonical digest.
pub proof fn lemma_digest_hex_canonical(data: Seq<u8>)
    requires
        sha256_digest(data).len() == 32,
    ensures
        is_canonical_digest(lower_hex(sha256_digest(data))),
{
    lemma_lower_hex_digits(sha256_digest(data));
}

/// Check that text is a canonical digest.
pub fn canonical_digest(text: &str) -> (r: bool)
    ensures
        r == is_canonical_digest(text@),
{
    let chars = str_chars(text);
    if chars.len() != 64 {
        return false;
    }
    let mut i: usize = 0;
    while i < chars.len()
        invariant
            i <= chars@.len(),
            chars@ == text@,
            chars@.len() == 64,
            forall|j: int| 0 <= j < i ==> ('0' <= #[trigger] chars@[j] <= '9') || ('a' <= chars@[j] <= 'f'),
        decreases chars@.len() - i,
    {
        let c = chars[i];
        if !(('0' <= c && c <= '9') || ('a' <= c && c <= 'f')) {
            return false;
        }
        i = i + 1;
    }
    true
}

/// Append bytes to a buffer.
pub fn append_bytes(v: &mut Vec<u8>, b: &[u8])
    ensures
        final(v)@ == old(v)@ + b@,
{
    let ghost v0 = v@;
    let mut i: usize = 0;
    while i < b.len()
        invariant
            i <= b@.len(),
            v@ == v0 + b@.subrange(0, i as int),
        decreases b@.len() - i,
    {
        v.push(b[i]);
        i = i + 1;
        assert(v@ =~= v0 + b@.subrange(0, i as int));
    }
    assert(b@.subrange(0, b@.len() as int) =~= b@);
}
} // verus!
