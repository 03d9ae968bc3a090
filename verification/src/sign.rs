//! The keyed signature over a token's first two segments.
use crate::b64::b64_seq;
use vstd::prelude::*;

verus! {

/// The base64url text of the HMAC-SHA256 tag of `msg` under `key`.
/// A function of the two arguments alone: the same key and message
/// always give the same signature text.
pub uninterp spec fn hs256_sig(key: Seq<u8>, msg: Seq<u8>) -> Seq<char>;

/// Relies on `jsonwebtoken::crypto::sign` with `Algorithm::HS256` and a
/// key from `EncodingKey::from_secret`: it returns the base64url
/// (`URL_SAFE_NO_PAD`, so characters of the base64url alphabet only)
/// text of the HMAC-SHA256 tag of `msg` under `key`, a deterministic
/// function of the two arguments; for an HMAC secret key the signing
/// path cannot fail, so the error branch below is never taken.
#[verifier::external_body]
pub(crate) fn hs256_sign(msg: &[u8], key: &[u8]) -> (r: String)
    ensures
        r@ == hs256_sig(key@, msg@),
        b64_seq(r@),
{
    let k = jsonwebtoken::EncodingKey::from_secret(key);
    match jsonwebtoken::crypto::sign(msg, &k, jsonwebtoken::Algorithm::HS256) {
        Ok(sig) => sig,
        Err(_) => String::new(),
    }
}

} // verus!
