//! SHA-256 digests of texts.

use sha2::Digest;
use vstd::prelude::*;
use vstd::string::*;
use vstd::utf8::*;

use crate::number::{hex, hex_text, lemma_hex_length};

verus! {

/// The SHA-256 digest of a list of bytes.
pub uninterp spec fn sha256(bytes: Seq<u8>) -> Seq<u8>;

/// The SHA-256 digest of `bytes`.
///
/// `sha2::Sha256::digest`, which depends on the bytes alone and gives 32 of
/// them.
#[verifier::external_body]
fn digest(bytes: &[u8]) -> (r: Vec<u8>)
    ensures
        r@ == sha256(bytes@),
        r@.len() == 32,
{
    sha2::Sha256::digest(bytes).to_vec()
}

/// The SHA-256 digest of a text in hexadecimal: 64 digits.
pub fn sha256_hex(text: &str) -> (r: String)
    ensures
        r@ == hex(sha256(encode_utf8(text@))),
        r@.len() == 64,
{
    let d = digest(text.as_bytes());
    proof {
        lemma_hex_length(d@);
    }
    hex_text(d.as_slice())
}

}
