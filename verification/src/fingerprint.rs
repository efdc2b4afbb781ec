use vstd::prelude::*;

verus! {

/// The fingerprint of a migration script: the lowercase-hex rendering of
/// the MD5 digest of the script's text. The digest is a pure function of
/// the text — the same content always fingerprints identically — which is
/// all the reconciliation logic relies on; the algorithm itself lives in
/// the `md5` crate and is deliberately left unspecified here.
pub uninterp spec fn md5_hex(content: Seq<char>) -> Seq<char>;

/// Computes the fingerprint of a migration script's content.
///
/// Relies on `md5::compute`, a deterministic function of the input bytes
/// alone, and on the `LowerHex` rendering of `md5::Digest`, which prints
/// each of the 16 digest bytes as exactly two lowercase hex digits.
#[verifier::external_body]
pub(crate) fn fingerprint(content: &str) -> (r: String)
    ensures
        r@ == md5_hex(content@),
        r@.len() == 32,
{
    format!("{:x}", md5::compute(content.as_bytes()))
}

} // verus!
