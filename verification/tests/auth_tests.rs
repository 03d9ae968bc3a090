use auth_core::b64::b64_decode_span;
use auth_core::b64::b64_push;
use auth_core::claims::build_payload;
use auth_core::claims::parse_payload;
use auth_core::codec::decode_token;
use auth_core::codec::encode_token;
use auth_core::codec::CodecError;
use auth_core::digits::parse_i32_span;
use auth_core::digits::parse_u64_span;
use auth_core::digits::push_dec_i32;
use auth_core::digits::push_dec_u64;
use auth_core::passwords::hash_password;
use auth_core::passwords::verify_password;
use auth_core::service::authenticate;
use auth_core::service::create_token;
use auth_core::service::error_response;
use auth_core::service::login;
use auth_core::service::register;
use auth_core::service::AuthError;
use auth_core::service::User;
use auth_core::service::TOKEN_TTL_SECS;
use std::collections::HashMap;

const SECRET: &[u8] = b"test-secret-key";
const NOW: usize = 1_700_000_000;

#[test]
fn decimal_rendering_exact() {
    let mut v: Vec<u8> = Vec::new();
    push_dec_u64(&mut v, 0);
    assert_eq!(v, b"0".to_vec());
    let mut v: Vec<u8> = Vec::new();
    push_dec_u64(&mut v, 1700000000);
    assert_eq!(v, b"1700000000".to_vec());
    let mut v: Vec<u8> = Vec::new();
    push_dec_i32(&mut v, -42);
    assert_eq!(v, b"-42".to_vec());
    let mut v: Vec<u8> = Vec::new();
    push_dec_i32(&mut v, i32::MIN);
    assert_eq!(v, b"-2147483648".to_vec());
}

#[test]
fn decimal_parsing_exact() {
    let b = b"12345";
    assert_eq!(parse_u64_span(b, 0, 5), Some(12345));
    assert_eq!(parse_u64_span(b, 0, 0), None);
    assert_eq!(parse_u64_span(b"12a45", 0, 5), None);
    assert_eq!(parse_u64_span(b"18446744073709551615", 0, 20), Some(u64::MAX));
    assert_eq!(parse_u64_span(b"18446744073709551616", 0, 20), None);
    assert_eq!(parse_i32_span(b"-2147483648", 0, 11), Some(i32::MIN));
    assert_eq!(parse_i32_span(b"-2147483649", 0, 11), None);
    assert_eq!(parse_i32_span(b"2147483647", 0, 10), Some(i32::MAX));
    assert_eq!(parse_i32_span(b"-", 0, 1), None);
}

#[test]
fn base64url_known_vectors() {
    let mut s = String::new();
    b64_push(&mut s, b"Man");
    assert_eq!(s, "TWFu");
    let mut s = String::new();
    b64_push(&mut s, b"Ma");
    assert_eq!(s, "TWE");
    let mut s = String::new();
    b64_push(&mut s, b"M");
    assert_eq!(s, "TQ");
    let mut s = String::new();
    b64_push(&mut s, &[251u8, 239u8, 190u8]);
    assert_eq!(s, "----");
    let decoded = b64_decode_span("TWFu", 0, 4).unwrap();
    assert_eq!(decoded, b"Man".to_vec());
    assert!(b64_decode_span("TW!u", 0, 4).is_none());
    assert_eq!(b64_decode_span("TWE", 0, 3).unwrap(), b"Ma".to_vec());
    // non-canonical trailing bits are refused
    assert!(b64_decode_span("TWF", 0, 3).is_none());
    assert!(b64_decode_span("TR", 0, 2).is_none());
}

#[test]
fn payload_roundtrip_and_shape() {
    let p = build_payload(17, 1700086400);
    assert_eq!(p, b"{\"sub\":17,\"exp\":1700086400}".to_vec());
    assert_eq!(parse_payload(&p), Some((17, 1700086400)));
    let p = build_payload(-5, 0);
    assert_eq!(p, b"{\"sub\":-5,\"exp\":0}".to_vec());
    assert_eq!(parse_payload(&p), Some((-5, 0)));
    assert_eq!(parse_payload(b"{\"sub\":1}"), None);
    assert_eq!(parse_payload(b""), None);
}

#[test]
fn token_has_standard_header_segment() {
    let t = encode_token(1, NOW, SECRET);
    let parts: Vec<&str> = t.split('.').collect();
    assert_eq!(parts.len(), 3);
    // base64url of {"typ":"JWT","alg":"HS256"}
    assert_eq!(parts[0], "eyJ0eXAiOiJKV1QiLCJhbGciOiJIUzI1NiJ9");
    assert!(!parts[1].is_empty() && !parts[2].is_empty());
}

#[test]
fn signature_matches_reference_implementation() {
    let t = encode_token(9, NOW, SECRET);
    let dot = t.rfind('.').unwrap();
    let (prefix, sig) = (&t[..dot], &t[dot + 1..]);
    let key = jsonwebtoken::EncodingKey::from_secret(SECRET);
    let expected =
        jsonwebtoken::crypto::sign(prefix.as_bytes(), &key, jsonwebtoken::Algorithm::HS256)
            .unwrap();
    assert_eq!(sig, expected);
}

#[test]
fn issued_token_round_trips() {
    let token = create_token(7, SECRET, NOW).unwrap();
    let c = decode_token(&token, SECRET, NOW).unwrap();
    assert_eq!(c.sub, 7);
    assert_eq!(c.exp, NOW + TOKEN_TTL_SECS);
}

#[test]
fn token_expiry_window() {
    let token = create_token(7, SECRET, NOW).unwrap();
    // one minute before the 24h mark: still valid
    assert!(decode_token(&token, SECRET, NOW + TOKEN_TTL_SECS - 60).is_ok());
    assert!(decode_token(&token, SECRET, NOW + TOKEN_TTL_SECS - 1).is_ok());
    // at and after the mark: expired
    assert_eq!(
        decode_token(&token, SECRET, NOW + TOKEN_TTL_SECS),
        Err(CodecError::Expired)
    );
    assert_eq!(
        decode_token(&token, SECRET, NOW + TOKEN_TTL_SECS + 60),
        Err(CodecError::Expired)
    );
}

#[test]
fn any_signature_bit_flip_is_rejected() {
    let token = create_token(3, SECRET, NOW).unwrap();
    let dot = token.rfind('.').unwrap();
    let bytes = token.as_bytes();
    for i in dot + 1..bytes.len() {
        for bit in 0..7 {
            let mut mutated = bytes.to_vec();
            mutated[i] ^= 1u8 << bit;
            let Ok(m) = String::from_utf8(mutated) else {
                continue;
            };
            assert!(decode_token(&m, SECRET, NOW).is_err(), "bit {bit} of byte {i}");
        }
    }
}

#[test]
fn wrong_key_and_malformed_tokens_are_rejected() {
    let token = create_token(3, SECRET, NOW).unwrap();
    assert_eq!(
        decode_token(&token, b"another-secret", NOW),
        Err(CodecError::InvalidSignature)
    );
    assert_eq!(decode_token("", SECRET, NOW), Err(CodecError::Malformed));
    assert_eq!(decode_token("a.b", SECRET, NOW), Err(CodecError::Malformed));
    assert_eq!(decode_token("a.b.c.d", SECRET, NOW), Err(CodecError::Malformed));
    assert_eq!(decode_token("á.é.í", SECRET, NOW), Err(CodecError::Malformed));
}

#[test]
fn password_hash_verifies_only_the_right_password() {
    let h = hash_password("secret123").unwrap();
    assert_eq!(verify_password("secret123", &h), Some(true));
    assert_eq!(verify_password("secret124", &h), Some(false));
    assert_eq!(verify_password("", &h), Some(false));
    // malformed stored hash is an error, not a mismatch
    assert_eq!(verify_password("secret123", "not-a-bcrypt-hash"), None);
}

#[test]
fn login_rejections_are_uniform() {
    let h = hash_password("right-password").unwrap();
    let user = User {
        id: 1,
        email: "a@x.com".to_string(),
        password_hash: h,
    };
    let absent = login(None, "whatever", SECRET, NOW);
    let wrong = login(Some(&user), "wrong-password", SECRET, NOW);
    assert_eq!(absent, Err(AuthError::Unauthorized));
    assert_eq!(wrong, Err(AuthError::Unauthorized));
    let ra = error_response(&absent.unwrap_err());
    let rw = error_response(&wrong.unwrap_err());
    assert_eq!(ra, rw);
    assert_eq!(ra, (401, "Invalid credentials".to_string()));
    // a corrupt stored hash is an internal error, not a 401
    let broken = User {
        id: 2,
        email: "b@x.com".to_string(),
        password_hash: "not-a-hash".to_string(),
    };
    let internal = login(Some(&broken), "right-password", SECRET, NOW);
    assert_eq!(internal, Err(AuthError::HashingError));
    assert_eq!(error_response(&internal.unwrap_err()).0, 500);
}

#[test]
fn register_then_login_then_protected_route() {
    // register {email: "a@x.com", password: "secret123"}
    let nu = register("a@x.com".to_string(), "secret123").unwrap();
    assert_eq!(nu.email, "a@x.com");
    // the store assigns an id
    let user = User {
        id: 42,
        email: nu.email,
        password_hash: nu.password_hash,
    };
    // login with the same credentials yields a non-empty token
    let token = login(Some(&user), "secret123", SECRET, NOW).unwrap();
    assert!(!token.is_empty());
    // a protected request with the bearer header identifies the user
    let header = format!("Bearer {token}");
    let au = authenticate(Some(&header), SECRET, NOW).unwrap();
    assert_eq!(au.user_id, 42);
    // the same call with the token truncated by one character is rejected
    let truncated = &header[..header.len() - 1];
    let rej = authenticate(Some(truncated), SECRET, NOW).unwrap_err();
    assert_eq!(rej.0, 401);
    assert_eq!(rej.1, "Invalid token");
}

#[test]
fn authenticate_header_rejections() {
    let rej = authenticate(None, SECRET, NOW).unwrap_err();
    assert_eq!(rej, (401, "Missing authorization header".to_string()));
    let rej = authenticate(Some("Basic abc"), SECRET, NOW).unwrap_err();
    assert_eq!(rej, (401, "Missing authorization header".to_string()));
    let rej = authenticate(Some("Bearer not.a.token"), SECRET, NOW).unwrap_err();
    assert_eq!(rej, (401, "Invalid token".to_string()));
}

#[test]
fn issuance_fails_only_on_clock_overflow() {
    assert_eq!(
        create_token(1, SECRET, usize::MAX - TOKEN_TTL_SECS + 1),
        Err(AuthError::IssuanceError)
    );
    assert!(create_token(1, SECRET, usize::MAX - TOKEN_TTL_SECS).is_ok());
    assert_eq!(error_response(&AuthError::IssuanceError).0, 500);
    assert_eq!(
        error_response(&AuthError::StorageError),
        (500, "Internal server error".to_string())
    );
}

#[test]
fn concurrent_registrations_one_wins() {
    // The store alone enforces email uniqueness: two registrations of
    // the same email race, both hash their password first, and the
    // store's constraint decides the insert order.  Exactly one row
    // lands; the loser gets a storage error, not a crash.
    let mut store: HashMap<String, (i32, String)> = HashMap::new();
    let first = register("dup@x.com".to_string(), "pw-123456").unwrap();
    let second = register("dup@x.com".to_string(), "pw-123456").unwrap();
    let mut outcomes: Vec<Result<(), AuthError>> = Vec::new();
    for nu in [first, second] {
        if store.contains_key(&nu.email) {
            outcomes.push(Err(AuthError::StorageError));
        } else {
            let id = store.len() as i32 + 1;
            store.insert(nu.email, (id, nu.password_hash));
            outcomes.push(Ok(()));
        }
    }
    assert_eq!(outcomes[0], Ok(()));
    assert_eq!(outcomes[1], Err(AuthError::StorageError));
    assert_eq!(store.len(), 1);
    assert_eq!(error_response(&AuthError::StorageError).0, 500);
}
