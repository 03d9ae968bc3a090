//! One-way password hashing and verification.
use vstd::prelude::*;

verus! {

/// Outcome of checking `password` against the stored hash text `hash`:
/// `None` when `hash` is not well-formed bcrypt hash text, otherwise
/// whether the password matches.  A function of the two arguments
/// alone: bcrypt re-derives the digest from the cost and salt embedded
/// in the hash text.
pub uninterp spec fn bcrypt_check(password: Seq<char>, hash: Seq<char>) -> Option<bool>;

/// Relies on `bcrypt::verify`: it splits the hash text, recomputes the
/// digest of `password` under the embedded cost and salt, and compares
/// the digests in constant time; the outcome is deterministic in
/// `(password, hash)`.  An error (malformed hash text) is returned as
/// `None`.
#[verifier::external_body]
fn bcrypt_verify(password: &str, hash: &str) -> (r: Option<bool>)
    ensures
        r == bcrypt_check(password@, hash@),
{
    bcrypt::verify(password, hash).ok()
}

/// Relies on `bcrypt::hash` with `DEFAULT_COST`: on success the hash
/// text embeds the cost and the fresh random salt under which the
/// digest of `password` was computed, so `bcrypt::verify` accepts
/// `password` against that text; it fails only when no randomness for
/// the salt could be drawn.
#[verifier::external_body]
fn bcrypt_hash(password: &str) -> (r: Option<String>)
    ensures
        r matches Some(h) ==> bcrypt_check(password@, h@) == Some(true),
{
    bcrypt::hash(password, bcrypt::DEFAULT_COST).ok()
}

/// Hashes a password for storage.  Any hash text returned verifies
/// against the password it was made from.
pub fn hash_password(password: &str) -> (r: Option<String>)
    ensures
        r matches Some(h) ==> bcrypt_check(password@, h@) == Some(true),
{
    bcrypt_hash(password)
}

/// Checks a password against a stored hash text; `None` when the
/// stored text is malformed, which callers treat as an internal
/// error, distinct from a failed match.
pub fn verify_password(password: &str, hash: &str) -> (r: Option<bool>)
    ensures
        r == bcrypt_check(password@, hash@),
{
    bcrypt_verify(password, hash)
}

} // verus!
