//! Stateless bearer-credential core: password hashing, signed token
//! claims (subject + expiry), token issuance, and request-time
//! authentication, with the orchestration of login and registration.
//!
//! The token format is three dot-separated base64url segments
//! (header, payload, signature); the payload carries exactly the
//! fields `sub` and `exp`.  Signing is HMAC-SHA256 under a single
//! shared secret that callers supply; the clock is likewise supplied
//! by the caller as unix-epoch seconds.
pub mod b64;
pub mod claims;
pub mod codec;
pub mod digits;
pub mod passwords;
pub mod service;
pub mod sign;
pub mod text;
