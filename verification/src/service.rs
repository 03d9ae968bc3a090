//! Credential service and request authentication: login, registration,
//! token issuance, and the extraction of an authenticated identity
//! from an authorization header.
use crate::b64::b64_seq;
use crate::claims::Claims;
use crate::codec::CodecError;
use crate::codec::ascii_bytes;
use crate::codec::decode_token;
use crate::codec::encode_token;
use crate::codec::genuine_token;
use crate::codec::token_chars;
use crate::codec::token_prefix;
use crate::passwords::bcrypt_check;
use crate::passwords::hash_password;
use crate::passwords::verify_password;
use crate::sign::hs256_sig;
use vstd::prelude::*;
use vstd::string::StrSliceExecFns;

verus! {

/// Fixed validity window of an issued token, in seconds (24 hours).
pub const TOKEN_TTL_SECS: usize = 86400;

/// A stored user, as the external store hands it over: unique email
/// and the bcrypt hash of the password.
pub struct User {
    pub id: i32,
    pub email: String,
    pub password_hash: String,
}

/// A user row to be inserted by the external store.
pub struct NewUser {
    pub email: String,
    pub password_hash: String,
}

/// The body of a login request.
pub struct LoginRequest {
    pub email: String,
    pub password: String,
}

/// The body of a successful login response.
pub struct LoginResponse {
    pub token: String,
}

/// The body of a registration request.
pub struct RegisterRequest {
    pub email: String,
    pub password: String,
}

/// The authenticated identity of a request, valid for that request
/// alone.
#[derive(Clone, Copy, PartialEq, Eq, Structural, Debug)]
pub struct AuthUser {
    pub user_id: i32,
}

/// Internal failure taxonomy.  Only `Unauthorized` is caused by the
/// client; the rest are internal and are never described to it.
#[derive(Clone, Copy, PartialEq, Eq, Structural, Debug)]
pub enum AuthError {
    Unauthorized,
    HashingError,
    IssuanceError,
    StorageError,
}

/// Maps an error to the HTTP status and body sent to the client.
/// Internal failures are collapsed to one generic message: no internal
/// error text ever reaches a client.
pub fn error_response(e: &AuthError) -> (r: (u16, String))
    ensures
        *e == AuthError::Unauthorized ==> r.0 == 401 && r.1@ == "Invalid credentials"@,
        *e != AuthError::Unauthorized ==> r.0 == 500 && r.1@ == "Internal server error"@,
{
    match e {
        AuthError::Unauthorized => (401, "Invalid credentials".to_owned()),
        _ => (500, "Internal server error".to_owned()),
    }
}

/// Issues the token of `user_id`: expiry is `now` plus the fixed TTL,
/// signed under `secret`.  Fails only when the expiry would not fit.
pub fn create_token(user_id: i32, secret: &[u8], now: usize) -> (r: Result<String, AuthError>)
    ensures
        now + TOKEN_TTL_SECS <= usize::MAX ==> (r matches Ok(t) && t@ == token_chars(
            user_id as int,
            now + TOKEN_TTL_SECS,
            secret@,
        ) && b64_seq(
            hs256_sig(secret@, ascii_bytes(token_prefix(user_id as int, now + TOKEN_TTL_SECS))),
        )),
        now + TOKEN_TTL_SECS > usize::MAX ==> r == Err::<String, AuthError>(
            AuthError::IssuanceError,
        ),
{
    if now > usize::MAX - TOKEN_TTL_SECS {
        return Err(AuthError::IssuanceError);
    }
    let exp: usize = now + TOKEN_TTL_SECS;
    Ok(encode_token(user_id, exp, secret))
}

/// Logs a user in: the caller has already looked `user` up by email in
/// the external store (`None` when no row matched).  An absent user
/// and a wrong password are rejected identically, so that an attacker
/// cannot tell registered emails apart from unregistered ones.
pub fn login(user: Option<&User>, password: &str, secret: &[u8], now: usize) -> (r: Result<
    String,
    AuthError,
>)
    ensures
        user is None ==> r == Err::<String, AuthError>(AuthError::Unauthorized),
        user matches Some(u) ==> match bcrypt_check(password@, u.password_hash@) {
            Option::None => r == Err::<String, AuthError>(AuthError::HashingError),
            Option::Some(ok) => if !ok {
                r == Err::<String, AuthError>(AuthError::Unauthorized)
            } else {
                (now + TOKEN_TTL_SECS <= usize::MAX ==> (r matches Ok(t) && t@ == token_chars(
                    u.id as int,
                    now + TOKEN_TTL_SECS,
                    secret@,
                ))) && (now + TOKEN_TTL_SECS > usize::MAX ==> r == Err::<String, AuthError>(
                    AuthError::IssuanceError,
                ))
            },
        },
{
    match user {
        None => Err(AuthError::Unauthorized),
        Some(u) => {
            match verify_password(password, u.password_hash.as_str()) {
                None => Err(AuthError::HashingError),
                Some(false) => Err(AuthError::Unauthorized),
                Some(true) => create_token(u.id, secret, now),
            }
        },
    }
}

/// Registers a user: hashes the password and hands back the row for
/// the external store to insert.  The store alone enforces email
/// uniqueness; its refusal is the caller's `StorageError`.
pub fn register(email: String, password: &str) -> (r: Result<NewUser, AuthError>)
    ensures
        r matches Ok(nu) ==> nu.email@ == email@ && bcrypt_check(password@, nu.password_hash@)
            == Some(true),
        r is Err ==> r == Err::<NewUser, AuthError>(AuthError::HashingError),
{
    match hash_password(password) {
        None => Err(AuthError::HashingError),
        Some(h) => Ok(NewUser { email, password_hash: h }),
    }
}

/// The authorization header names the bearer scheme and carries a
/// token after `Bearer `.
pub open spec fn has_bearer(h: Seq<char>) -> bool {
    h.len() >= 7 && h.take(7) == seq!['B', 'e', 'a', 'r', 'e', 'r', ' ']
}

/// The token carried by a bearer header.
pub open spec fn bearer_token(h: Seq<char>) -> Seq<char> {
    h.skip(7)
}

/// `t` is the token of `uid` for some expiry still ahead of `now`.
pub open spec fn names_valid_token(t: Seq<char>, key: Seq<u8>, uid: i32, now: usize) -> bool {
    exists|exp: usize| #![auto] t == token_chars(uid as int, exp as int, key) && exp > now
}

/// Turns an inbound request's authorization header into an
/// authenticated identity, or a rejection carrying the HTTP status
/// and message.  The three decoding failures are deliberately not
/// distinguished in the rejection.
pub fn authenticate(header: Option<&str>, secret: &[u8], now: usize) -> (r: Result<
    AuthUser,
    (u16, String),
>)
    ensures
        header is None ==> (r matches Err(rej) && rej.0 == 401 && rej.1@
            == "Missing authorization header"@),
        header matches Some(h) ==> (!has_bearer(h@) ==> (r matches Err(rej) && rej.0 == 401
            && rej.1@ == "Missing authorization header"@)),
        header matches Some(h) ==> (has_bearer(h@) ==> ((r matches Ok(au) ==> names_valid_token(
            bearer_token(h@),
            secret@,
            au.user_id,
            now,
        )) && (r matches Err(rej) ==> rej.0 == 401 && rej.1@ == "Invalid token"@))),
        header matches Some(h) ==> (forall|sub: i32, exp: usize|
            #![auto]
            has_bearer(h@) && genuine_token(bearer_token(h@), secret@, sub, exp) ==> (if exp
                > now {
                r matches Ok(au) && au.user_id == sub
            } else {
                r matches Err(rej) && rej.0 == 401 && rej.1@ == "Invalid token"@
            })),
{
    let h = match header {
        None => {
            return Err((401, "Missing authorization header".to_owned()));
        },
        Some(h) => h,
    };
    let n = h.unicode_len();
    let bearer_ok = n >= 7 && h.get_char(0) == 'B' && h.get_char(1) == 'e' && h.get_char(2) == 'a'
        && h.get_char(3) == 'r' && h.get_char(4) == 'e' && h.get_char(5) == 'r' && h.get_char(6)
        == ' ';
    proof {
        if n >= 7 {
            assert(forall|k: int| 0 <= k < 7 ==> h@.take(7)[k] == h@[k]);
        }
    }
    if !bearer_ok {
        proof {
            if has_bearer(h@) {
                let lit = seq!['B', 'e', 'a', 'r', 'e', 'r', ' '];
                assert(h@.take(7) == lit);
                assert(h@[0] == lit[0] && h@[1] == lit[1] && h@[2] == lit[2] && h@[3] == lit[3]
                    && h@[4] == lit[4] && h@[5] == lit[5] && h@[6] == lit[6]);
                assert(false);
            }
        }
        return Err((401, "Missing authorization header".to_owned()));
    }
    proof {
        assert(h@.take(7) =~= seq!['B', 'e', 'a', 'r', 'e', 'r', ' ']);
        assert(has_bearer(h@));
    }
    let token = h.substring_char(7, n);
    proof {
        assert(token@ =~= bearer_token(h@));
    }
    match decode_token(token, secret, now) {
        Ok(c) => {
            proof {
                assert(names_valid_token(bearer_token(h@), secret@, c.sub, now)) by {
                    assert(bearer_token(h@) == token_chars(c.sub as int, c.exp as int, secret@)
                        && c.exp > now);
                }
            }
            Ok(AuthUser { user_id: c.sub })
        },
        Err(_) => Err((401, "Invalid token".to_owned())),
    }
}

/// Law: issuing a token and decoding it round-trips the subject, for
/// any subject, secret, and clock; and the token is accepted strictly
/// before `issued_at + TOKEN_TTL_SECS` and rejected as expired from
/// that moment on.
pub fn issue_then_decode(user_id: i32, secret: &[u8], issued_at: usize, at: usize) -> (r: Result<
    Claims,
    CodecError,
>)
    requires
        issued_at + TOKEN_TTL_SECS <= usize::MAX,
    ensures
        at < issued_at + TOKEN_TTL_SECS ==> (r matches Ok(c) && c.sub == user_id && c.exp
            == issued_at + TOKEN_TTL_SECS),
        at >= issued_at + TOKEN_TTL_SECS ==> r == Err::<Claims, CodecError>(CodecError::Expired),
{
    let token = match create_token(user_id, secret, issued_at) {
        Ok(t) => t,
        Err(_) => {
            proof {
                assert(false);
            }
            return Err(CodecError::Malformed);
        },
    };
    proof {
        let expv: usize = (issued_at + TOKEN_TTL_SECS) as usize;
        assert(genuine_token(token@, secret@, user_id, expv));
    }
    decode_token(token.as_str(), secret, at)
}

/// Law: a login against an unknown email and a login with a wrong
/// password yield one and the same rejection, status and message
/// alike.
pub fn login_rejections_match(user: &User, password: &str, secret: &[u8], now: usize) -> (r: (
    (u16, String),
    (u16, String),
))
    ensures
        bcrypt_check(password@, user.password_hash@) == Some(false) ==> r.0.0 == r.1.0 && r.0.1@
            == r.1.1@ && r.0.0 == 401 && r.0.1@ == "Invalid credentials"@,
{
    let absent = login(None, password, secret, now);
    let wrong = login(Some(user), password, secret, now);
    let ra = match absent {
        Ok(_) => (0u16, String::new()),
        Err(e) => error_response(&e),
    };
    let rw = match wrong {
        Ok(_) => (
            0u16,
            String::new(),
        ),
        Err(e) => error_response(&e),
    };
    (ra, rw)
}

} // verus!
