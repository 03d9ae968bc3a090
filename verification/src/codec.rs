//! Encoding and decoding of signed tokens: three dot-separated
//! base64url segments (header, payload, signature).
use crate::b64::b64_chars;
use crate::b64::b64_decode_span;
use crate::b64::b64_push;
use crate::b64::b64_seq;
use crate::b64::char_sextet;
use crate::b64::is_b64_char;
use crate::b64::lemma_b64_chars_alphabet;
use crate::b64::lemma_b64_roundtrip;
use crate::claims::Claims;
use crate::claims::build_payload;
use crate::claims::parse_payload;
use crate::claims::payload_bytes;
use crate::sign::hs256_sig;
use crate::sign::hs256_sign;
use vstd::prelude::*;
use vstd::string::StrSliceExecFns;
use vstd::string::StringExecFns;

verus! {

broadcast use vstd::string::group_string_axioms;

/// Why a token was rejected.  The three reasons are collapsed into one
/// opaque rejection before they reach a client, so that a caller
/// cannot probe which failure occurred.
#[derive(Clone, Copy, PartialEq, Eq, Structural, Debug)]
pub enum CodecError {
    Malformed,
    InvalidSignature,
    Expired,
}

/// Bytes of an ASCII character sequence.
pub open spec fn ascii_bytes(s: Seq<char>) -> Seq<u8> {
    Seq::new(s.len(), |i: int| s[i] as u8)
}

/// No `.` occurs in `s`.
pub open spec fn dot_free(s: Seq<char>) -> bool {
    forall|i: int| 0 <= i < s.len() ==> s[i] != '.'
}

/// JSON bytes of the fixed token header `{"typ":"JWT","alg":"HS256"}`.
pub open spec fn header_json() -> Seq<u8> {
    seq![
        123u8, 34u8, 116u8, 121u8, 112u8, 34u8, 58u8, 34u8, 74u8, 87u8, 84u8, 34u8, 44u8, 34u8,
        97u8, 108u8, 103u8, 34u8, 58u8, 34u8, 72u8, 83u8, 50u8, 53u8, 54u8, 34u8, 125u8,
    ]
}

/// Renders the fixed header.
fn build_header() -> (r: Vec<u8>)
    ensures
        r@ == header_json(),
{
    let mut out: Vec<u8> = Vec::new();
    out.push(123);
    out.push(34);
    out.push(116);
    out.push(121);
    out.push(112);
    out.push(34);
    out.push(58);
    out.push(34);
    out.push(74);
    out.push(87);
    out.push(84);
    out.push(34);
    out.push(44);
    out.push(34);
    out.push(97);
    out.push(108);
    out.push(103);
    out.push(34);
    out.push(58);
    out.push(34);
    out.push(72);
    out.push(83);
    out.push(50);
    out.push(53);
    out.push(54);
    out.push(34);
    out.push(125);
    proof {
        assert(out@ =~= header_json());
    }
    out
}

/// The first two segments of the token of `(sub, exp)`: base64url
/// header and payload, joined by a dot.
pub open spec fn token_prefix(sub: int, exp: int) -> Seq<char> {
    b64_chars(header_json()) + seq!['.'] + b64_chars(payload_bytes(sub, exp))
}

/// The whole token of `(sub, exp)` under `key`: the prefix, a dot, and
/// the signature of the prefix.
pub open spec fn token_chars(sub: int, exp: int, key: Seq<u8>) -> Seq<char> {
    token_prefix(sub, exp) + seq!['.'] + hs256_sig(key, ascii_bytes(token_prefix(sub, exp)))
}

/// `t` splits as `h.p.s` with dot-free `h` and `p`, where `s` is the
/// signature of `h.p` under `key`.  This is the trust guarantee of a
/// token: whoever produced it signed its first two segments with the
/// key.
pub open spec fn properly_signed(t: Seq<char>, key: Seq<u8>) -> bool {
    exists|h: Seq<char>, p: Seq<char>, s: Seq<char>|
        #![auto]
        dot_free(h) && dot_free(p) && t == h + seq!['.'] + p + seq!['.'] + s && s == hs256_sig(
            key,
            ascii_bytes(h + seq!['.'] + p),
        )
}

/// The claims value `(sub, exp)`.
pub open spec fn claims_of(sub: i32, exp: usize) -> Claims {
    Claims { sub, exp }
}

/// The token `token` is exactly the one issued for `(sub, exp)` under
/// `key`, with a signature that stays in the base64url alphabet.
pub open spec fn genuine_token(token: Seq<char>, key: Seq<u8>, sub: i32, exp: usize) -> bool {
    token == token_chars(sub as int, exp as int, key) && b64_seq(
        hs256_sig(key, ascii_bytes(token_prefix(sub as int, exp as int))),
    )
}

/// Pointwise description of a three-segment text.
proof fn lemma_decomp_index(h: Seq<char>, p: Seq<char>, s: Seq<char>)
    ensures
        ({
            let t = h + seq!['.'] + p + seq!['.'] + s;
            &&& t.len() == h.len() + p.len() + s.len() + 2
            &&& forall|q: int| 0 <= q < h.len() ==> t[q] == h[q]
            &&& t[h.len() as int] == '.'
            &&& forall|q: int|
                h.len() < q < h.len() + 1 + p.len() ==> t[q] == p[q - h.len() - 1]
            &&& t[h.len() + 1 + p.len() as int] == '.'
            &&& forall|q: int|
                h.len() + p.len() + 2 <= q < t.len() ==> t[q] == s[q - h.len() - p.len() - 2]
        }),
{
    let t = h + seq!['.'] + p + seq!['.'] + s;
    assert(t.len() == h.len() + p.len() + s.len() + 2);
}

/// A three-segment text with dot-free first two segments determines
/// them: equal texts have equal segments.
pub proof fn lemma_split_unique(
    h1: Seq<char>,
    p1: Seq<char>,
    s1: Seq<char>,
    h2: Seq<char>,
    p2: Seq<char>,
    s2: Seq<char>,
)
    requires
        dot_free(h1),
        dot_free(p1),
        dot_free(h2),
        dot_free(p2),
        h1 + seq!['.'] + p1 + seq!['.'] + s1 == h2 + seq!['.'] + p2 + seq!['.'] + s2,
    ensures
        h1 == h2,
        p1 == p2,
        s1 == s2,
{
    let t = h1 + seq!['.'] + p1 + seq!['.'] + s1;
    lemma_decomp_index(h1, p1, s1);
    lemma_decomp_index(h2, p2, s2);
    if h1.len() < h2.len() {
        assert(t[h1.len() as int] == '.');
        assert(t[h1.len() as int] == h2[h1.len() as int]);
        assert(false);
    }
    if h2.len() < h1.len() {
        assert(t[h2.len() as int] == '.');
        assert(t[h2.len() as int] == h1[h2.len() as int]);
        assert(false);
    }
    assert(h1 =~= h2);
    if p1.len() < p2.len() {
        assert(t[h1.len() + 1 + p1.len() as int] == '.');
        assert(t[h1.len() + 1 + p1.len() as int] == p2[p1.len() as int]);
        assert(false);
    }
    if p2.len() < p1.len() {
        assert(t[h1.len() + 1 + p2.len() as int] == '.');
        assert(t[h1.len() + 1 + p2.len() as int] == p1[p2.len() as int]);
        assert(false);
    }
    assert forall|q: int| 0 <= q < p1.len() implies p1[q] == p2[q] by {
        assert(t[h1.len() + 1 + q] == p1[q]);
        assert(t[h1.len() + 1 + q] == p2[q]);
    }
    assert(p1 =~= p2);
    assert(s1.len() == s2.len());
    assert forall|q: int| 0 <= q < s1.len() implies s1[q] == s2[q] by {
        assert(t[h1.len() + p1.len() + 2 + q] == s1[q]);
        assert(t[h1.len() + p1.len() + 2 + q] == s2[q]);
    }
    assert(s1 =~= s2);
}

/// A token whose signature segment is anything but the genuine
/// signature of its first two segments is not properly signed, so
/// decoding rejects it: no altered signature, not even by a single
/// bit, is accepted.
pub proof fn lemma_sig_tamper(h: Seq<char>, p: Seq<char>, s2: Seq<char>, key: Seq<u8>)
    requires
        dot_free(h),
        dot_free(p),
        s2 != hs256_sig(key, ascii_bytes(h + seq!['.'] + p)),
    ensures
        !properly_signed(h + seq!['.'] + p + seq!['.'] + s2, key),
{
    let t = h + seq!['.'] + p + seq!['.'] + s2;
    if properly_signed(t, key) {
        let (h2, p2, s3): (Seq<char>, Seq<char>, Seq<char>) = choose|
            h2: Seq<char>,
            p2: Seq<char>,
            s3: Seq<char>,
        |
            #![auto]
            dot_free(h2) && dot_free(p2) && t == h2 + seq!['.'] + p2 + seq!['.'] + s3 && s3
                == hs256_sig(key, ascii_bytes(h2 + seq!['.'] + p2));
        lemma_split_unique(h, p, s2, h2, p2, s3);
        assert(false);
    }
}

/// The characters of a base64url segment are not dots.
proof fn lemma_b64_seq_dot_free(s: Seq<char>)
    requires
        b64_seq(s),
    ensures
        dot_free(s),
{
    assert forall|i: int| 0 <= i < s.len() implies s[i] != '.' by {
        assert(is_b64_char(s[i]));
        assert(('.' as u32) == 46);
    }
}

/// Characters below 128 are ASCII.
proof fn lemma_ascii_char(c: char)
    requires
        (c as u32) < 128,
    ensures
        '\0' <= c <= '\u{7f}',
{
    vstd::utf8::char_u32_cast(c, c as u32);
    assert(('\u{7f}' as u32) == 127);
    assert(('\0' as u32) == 0);
}

/// A base64url character sits below 128.
proof fn lemma_b64_char_ascii(c: char)
    requires
        is_b64_char(c),
    ensures
        '\0' <= c <= '\u{7f}',
{
    assert((c as u32) < 128) by {
        assert(char_sextet(c) >= 0);
    }
    lemma_ascii_char(c);
}

/// The shape of a genuine token: segments, dot positions, and where
/// its only dots are.
proof fn lemma_genuine_shape(token: Seq<char>, key: Seq<u8>, sub: i32, exp: usize)
    requires
        genuine_token(token, key, sub, exp),
    ensures
        ({
            let h = b64_chars(header_json());
            let p = b64_chars(payload_bytes(sub as int, exp as int));
            let sg = hs256_sig(key, ascii_bytes(token_prefix(sub as int, exp as int)));
            &&& token == h + seq!['.'] + p + seq!['.'] + sg
            &&& dot_free(h)
            &&& dot_free(p)
            &&& dot_free(sg)
            &&& token.len() == h.len() + p.len() + sg.len() + 2
            &&& token[h.len() as int] == '.'
            &&& token[h.len() + 1 + p.len() as int] == '.'
            &&& forall|q: int|
                0 <= q < token.len() && token[q] == '.' ==> q == h.len() || q == h.len() + 1
                    + p.len()
            &&& token.subrange(0, h.len() as int) == h
            &&& token.subrange(h.len() as int + 1, h.len() + 1 + p.len() as int) == p
            &&& token.subrange(h.len() + p.len() as int + 2, token.len() as int) == sg
            &&& token.subrange(0, h.len() + 1 + p.len() as int) == token_prefix(sub as int, exp as int)
        }),
{
    let h = b64_chars(header_json());
    let p = b64_chars(payload_bytes(sub as int, exp as int));
    let sg = hs256_sig(key, ascii_bytes(token_prefix(sub as int, exp as int)));
    lemma_b64_chars_alphabet(header_json());
    lemma_b64_chars_alphabet(payload_bytes(sub as int, exp as int));
    lemma_b64_seq_dot_free(h);
    lemma_b64_seq_dot_free(p);
    lemma_b64_seq_dot_free(sg);
    assert(token =~= h + seq!['.'] + p + seq!['.'] + sg);
    lemma_decomp_index(h, p, sg);
    assert forall|q: int|
        0 <= q < token.len() && token[q] == '.' implies q == h.len() || q == h.len() + 1
        + p.len() by {
        if q < h.len() {
            assert(token[q] == h[q]);
        } else if h.len() < q < h.len() + 1 + p.len() {
            assert(token[q] == p[q - h.len() - 1]);
        } else if h.len() + p.len() + 2 <= q {
            assert(token[q] == sg[q - h.len() - p.len() - 2]);
        }
    }
    assert(token.subrange(0, h.len() as int) =~= h);
    assert(token.subrange(h.len() as int + 1, h.len() + 1 + p.len() as int) =~= p);
    assert(token.subrange(h.len() + p.len() as int + 2, token.len() as int) =~= sg);
    assert(token.subrange(0, h.len() + 1 + p.len() as int) =~= token_prefix(sub as int, exp as int));
}

/// Finds the two dots of a three-segment text.  `None` means the text
/// does not consist of exactly three dot-separated segments.
fn split_dots(s: &str) -> (r: Option<(usize, usize)>)
    ensures
        r matches Some(d) ==> ({
            &&& d.0 < d.1 < s@.len()
            &&& s@[d.0 as int] == '.'
            &&& s@[d.1 as int] == '.'
            &&& forall|q: int| 0 <= q < s@.len() && q != d.0 && q != d.1 ==> s@[q] != '.'
        }),
        r is None ==> forall|h: Seq<char>, p: Seq<char>, sg: Seq<char>|
            #![auto]
            dot_free(h) && dot_free(p) && dot_free(sg) ==> s@ != h + seq!['.'] + p + seq!['.']
                + sg,
{
    let n = s.unicode_len();
    let mut i: usize = 0;
    let mut nd: usize = 0;
    let mut d1: usize = 0;
    let mut d2: usize = 0;
    while i < n
        invariant
            i <= n,
            n == s@.len(),
            nd <= 2,
            nd == 0 ==> forall|q: int| 0 <= q < i ==> s@[q] != '.',
            nd == 1 ==> d1 < i && s@[d1 as int] == '.' && forall|q: int|
                0 <= q < i && q != d1 ==> s@[q] != '.',
            nd == 2 ==> d1 < d2 < i && s@[d1 as int] == '.' && s@[d2 as int] == '.' && forall|
                q: int,
            |
                0 <= q < i && q != d1 && q != d2 ==> s@[q] != '.',
        decreases n - i,
    {
        let c = s.get_char(i);
        if c == '.' {
            if nd == 0 {
                d1 = i;
                nd = 1;
            } else if nd == 1 {
                d2 = i;
                nd = 2;
            } else {
                proof {
                    assert forall|h: Seq<char>, p: Seq<char>, sg: Seq<char>|
                        #![auto]
                        dot_free(h) && dot_free(p) && dot_free(sg) implies s@ != h + seq!['.'] + p
                        + seq!['.'] + sg by {
                        if s@ == h + seq!['.'] + p + seq!['.'] + sg {
                            lemma_decomp_index(h, p, sg);
                            let a = h.len() as int;
                            let b = h.len() + 1 + p.len() as int;
                            assert forall|q: int|
                                0 <= q < s@.len() && s@[q] == '.' implies q == a || q == b by {
                                if q < a {
                                    assert(s@[q] == h[q]);
                                } else if a < q < b {
                                    assert(s@[q] == p[q - a - 1]);
                                } else if b < q {
                                    assert(s@[q] == sg[q - b - 1]);
                                }
                            }
                            assert(s@[d1 as int] == '.' && s@[d2 as int] == '.' && s@[i as int]
                                == '.');
                            assert(false);
                        }
                    }
                }
                return None;
            }
        }
        i = i + 1;
    }
    if nd == 2 {
        Some((d1, d2))
    } else {
        proof {
            assert forall|h: Seq<char>, p: Seq<char>, sg: Seq<char>|
                #![auto]
                dot_free(h) && dot_free(p) && dot_free(sg) implies s@ != h + seq!['.'] + p
                + seq!['.'] + sg by {
                if s@ == h + seq!['.'] + p + seq!['.'] + sg {
                    lemma_decomp_index(h, p, sg);
                    let a = h.len() as int;
                    let b = h.len() + 1 + p.len() as int;
                    assert(s@[a] == '.' && s@[b as int] == '.' && a != b);
                    assert(false);
                }
            }
        }
        None
    }
}

/// Compares the character span `[from, to)` of `s` with the whole of
/// `t`, inspecting every position: no early exit on a mismatch, so the
/// time depends only on the lengths.
fn span_eq(s: &str, from: usize, to: usize, t: &str) -> (r: bool)
    requires
        from <= to <= s@.len(),
    ensures
        r == (s@.subrange(from as int, to as int) == t@),
{
    let m = t.unicode_len();
    if m != to - from {
        proof {
            assert(s@.subrange(from as int, to as int).len() != t@.len());
        }
        return false;
    }
    let mut diff: bool = false;
    let mut i: usize = 0;
    while i < m
        invariant
            i <= m,
            m == t@.len(),
            from + m == to <= s@.len(),
            diff == exists|j: int| 0 <= j < i && s@[from + j] != t@[j],
        decreases m - i,
    {
        let a = s.get_char(from + i);
        let b = t.get_char(i);
        if a != b {
            diff = true;
            proof {
                assert(s@[from + i] != t@[i as int]);
            }
        }
        i = i + 1;
    }
    if diff {
        proof {
            let j = choose|j: int| 0 <= j < m && s@[from + j] != t@[j];
            assert(s@.subrange(from as int, to as int)[j] == s@[from + j]);
        }
        !diff
    } else {
        proof {
            assert(s@.subrange(from as int, to as int) =~= t@);
        }
        !diff
    }
}

/// Renders the first two segments of the token of `(sub, exp)` and the
/// signature over them.
fn encode_parts(sub: i32, exp: usize, key: &[u8]) -> (r: (String, String))
    ensures
        r.0@ == token_prefix(sub as int, exp as int),
        r.1@ == hs256_sig(key@, ascii_bytes(token_prefix(sub as int, exp as int))),
        b64_seq(r.1@),
{
    let hj = build_header();
    let pj = build_payload(sub, exp);
    let mut prefix = String::new();
    b64_push(&mut prefix, hj.as_slice());
    prefix.push('.');
    b64_push(&mut prefix, pj.as_slice());
    proof {
        assert(prefix@ =~= token_prefix(sub as int, exp as int));
        lemma_b64_chars_alphabet(header_json());
        lemma_b64_chars_alphabet(payload_bytes(sub as int, exp as int));
        let h = b64_chars(header_json());
        let p = b64_chars(payload_bytes(sub as int, exp as int));
        assert forall|q: int|
            0 <= q < prefix@.len() implies '\0' <= #[trigger] prefix@[q] <= '\u{7f}' by {
            if q < h.len() {
                assert(prefix@[q] == h[q]);
                lemma_b64_char_ascii(h[q]);
            } else if q == h.len() {
                assert(prefix@[q] == '.');
                assert(('.' as u32) == 46);
                lemma_ascii_char('.');
            } else {
                assert(prefix@[q] == p[q - h.len() - 1]);
                lemma_b64_char_ascii(p[q - h.len() - 1]);
            }
        }
    }
    let sb = prefix.as_str();
    let msg: &[u8] = sb.as_bytes();
    proof {
        vstd::string::is_ascii_spec_bytes(sb);
        assert(msg@ =~= ascii_bytes(prefix@));
    }
    let sig = hs256_sign(msg, key);
    (prefix, sig)
}

/// Serializes and signs the claims `(sub, exp)` under `key`, producing
/// the token text.
pub fn encode_token(sub: i32, exp: usize, key: &[u8]) -> (r: String)
    ensures
        r@ == token_chars(sub as int, exp as int, key@),
        b64_seq(hs256_sig(key@, ascii_bytes(token_prefix(sub as int, exp as int)))),
{
    let (mut out, sig) = encode_parts(sub, exp, key);
    out.push('.');
    out.append(sig.as_str());
    proof {
        assert(out@ =~= token_chars(sub as int, exp as int, key@));
    }
    out
}

/// Splits, checks, and reads back a token under `key` at time `now`.
///
/// Acceptance is the sole authorization signal: a token is accepted
/// exactly when it is the genuine token of some claims, unexpired at
/// `now`; and whatever is accepted is properly signed under `key`.
pub fn decode_token(token: &str, key: &[u8], now: usize) -> (r: Result<Claims, CodecError>)
    ensures
        r matches Ok(c) ==> token@ == token_chars(c.sub as int, c.exp as int, key@) && c.exp > now
            && properly_signed(token@, key@),
        r == Err::<Claims, CodecError>(CodecError::InvalidSignature) ==> !properly_signed(
            token@,
            key@,
        ),
        r == Err::<Claims, CodecError>(CodecError::Expired) ==> exists|sub: i32, exp: usize|
            #![auto]
            token@ == token_chars(sub as int, exp as int, key@) && exp <= now,
        forall|sub: i32, exp: usize|
            genuine_token(token@, key@, sub, exp) ==> if exp > now {
                r == Ok::<Claims, CodecError>(claims_of(sub, exp))
            } else {
                r == Err::<Claims, CodecError>(CodecError::Expired)
            },
{
    let n = token.unicode_len();
    let (d1, d2) = match split_dots(token) {
        None => {
            proof {
                assert forall|sub: i32, exp: usize| !genuine_token(token@, key@, sub, exp) by {
                    if genuine_token(token@, key@, sub, exp) {
                        lemma_genuine_shape(token@, key@, sub, exp);
                    }
                }
            }
            return Err(CodecError::Malformed);
        },
        Some(d) => d,
    };
    proof {
        assert forall|sub: i32, exp: usize|
            genuine_token(token@, key@, sub, exp) implies ({
            &&& token@.subrange(d1 + 1, d2 as int) == b64_chars(
                payload_bytes(sub as int, exp as int),
            )
            &&& token@.subrange(0, d2 as int) == token_prefix(sub as int, exp as int)
            &&& token@.subrange(d2 + 1, token@.len() as int) == hs256_sig(
                key@,
                ascii_bytes(token_prefix(sub as int, exp as int)),
            )
        }) by {
            lemma_genuine_shape(token@, key@, sub, exp);
            let h = b64_chars(header_json());
            let p = b64_chars(payload_bytes(sub as int, exp as int));
            let a = h.len() as int;
            let b = h.len() + 1 + p.len() as int;
            assert(d1 == a || d1 == b);
            assert(d2 == a || d2 == b);
            assert(token@[a] == '.' && token@[b as int] == '.');
            assert(a == d1 || a == d2);
            assert(b == d1 || b == d2);
            assert(d1 == a && d2 == b);
            assert(token@.subrange(d1 + 1, d2 as int) =~= token@.subrange(
                h.len() as int + 1,
                h.len() + 1 + p.len() as int,
            ));
        }
    }
    let pb = match b64_decode_span(token, d1 + 1, d2) {
        None => {
            proof {
                assert forall|sub: i32, exp: usize| !genuine_token(token@, key@, sub, exp) by {
                    if genuine_token(token@, key@, sub, exp) {
                        lemma_b64_roundtrip(payload_bytes(sub as int, exp as int));
                    }
                }
            }
            return Err(CodecError::Malformed);
        },
        Some(v) => v,
    };
    let parsed = match parse_payload(pb.as_slice()) {
        None => {
            proof {
                assert forall|sub: i32, exp: usize| !genuine_token(token@, key@, sub, exp) by {
                    if genuine_token(token@, key@, sub, exp) {
                        lemma_b64_roundtrip(payload_bytes(sub as int, exp as int));
                        assert(pb@ == payload_bytes(sub as int, exp as int));
                    }
                }
            }
            return Err(CodecError::Malformed);
        },
        Some(v) => v,
    };
    let sub = parsed.0;
    let exp = parsed.1;
    proof {
        assert forall|sub0: i32, exp0: usize|
            genuine_token(token@, key@, sub0, exp0) implies sub0 == sub && exp0 == exp by {
            lemma_b64_roundtrip(payload_bytes(sub0 as int, exp0 as int));
            assert(pb@ == payload_bytes(sub0 as int, exp0 as int));
        }
    }
    let parts = encode_parts(sub, exp, key);
    if !span_eq(token, 0, d2, parts.0.as_str()) {
        proof {
            assert forall|sub0: i32, exp0: usize| !genuine_token(token@, key@, sub0, exp0) by {
                if genuine_token(token@, key@, sub0, exp0) {
                    assert(token@.subrange(0, d2 as int) == token_prefix(
                        sub0 as int,
                        exp0 as int,
                    ));
                }
            }
        }
        return Err(CodecError::Malformed);
    }
    if !span_eq(token, d2 + 1, n, parts.1.as_str()) {
        proof {
            assert forall|sub0: i32, exp0: usize| !genuine_token(token@, key@, sub0, exp0) by {
                if genuine_token(token@, key@, sub0, exp0) {
                    assert(token@.subrange(d2 + 1, token@.len() as int) == hs256_sig(
                        key@,
                        ascii_bytes(token_prefix(sub0 as int, exp0 as int)),
                    ));
                }
            }
            let h = token@.subrange(0, d1 as int);
            let p = token@.subrange(d1 + 1, d2 as int);
            let sg = token@.subrange(d2 + 1, token@.len() as int);
            assert(dot_free(h)) by {
                assert(forall|q: int| 0 <= q < h.len() ==> h[q] == token@[q]);
            }
            assert(dot_free(p)) by {
                assert(forall|q: int| 0 <= q < p.len() ==> p[q] == token@[d1 + 1 + q]);
            }
            assert(h + seq!['.'] + p =~= token@.subrange(0, d2 as int));
            assert(sg != hs256_sig(key@, ascii_bytes(h + seq!['.'] + p)));
            lemma_sig_tamper(h, p, sg, key@);
            assert(token@ =~= h + seq!['.'] + p + seq!['.'] + sg);
        }
        return Err(CodecError::InvalidSignature);
    }
    proof {
        assert(token@ =~= token@.subrange(0, d2 as int) + seq!['.'] + token@.subrange(
            d2 + 1,
            token@.len() as int,
        ));
        assert(token@ == token_chars(sub as int, exp as int, key@));
    }
    if exp <= now {
        return Err(CodecError::Expired);
    }
    proof {
        let h = token@.subrange(0, d1 as int);
        let p = token@.subrange(d1 + 1, d2 as int);
        let sg = token@.subrange(d2 + 1, token@.len() as int);
        assert(dot_free(h)) by {
            assert(forall|q: int| 0 <= q < h.len() ==> h[q] == token@[q]);
        }
        assert(dot_free(p)) by {
            assert(forall|q: int| 0 <= q < p.len() ==> p[q] == token@[d1 + 1 + q]);
        }
        assert(token@ =~= h + seq!['.'] + p + seq!['.'] + sg);
        assert(h + seq!['.'] + p =~= token@.subrange(0, d2 as int));
        assert(sg == hs256_sig(key@, ascii_bytes(h + seq!['.'] + p)));
        assert(properly_signed(token@, key@));
    }
    Ok(Claims { sub, exp })
}

} // verus!
