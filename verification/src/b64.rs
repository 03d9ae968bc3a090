//! Base64url (no padding) rendering of byte strings, and its inverse,
//! as used for the segments of a token.
use vstd::prelude::*;
use vstd::string::StrSliceExecFns;

verus! {

/// ASCII code of the base64url character of the sextet `v`
/// (meaningful for `0 <= v < 64`).
pub open spec fn sextet_byte(v: int) -> u8 {
    if v < 26 {
        (65 + v) as u8  // 'A'..'Z'
    } else if v < 52 {
        (71 + v) as u8  // 'a'..'z'
    } else if v < 62 {
        (v - 4) as u8  // '0'..'9'
    } else if v == 62 {
        45u8  // '-'
    } else {
        95u8  // '_'
    }
}

/// The base64url character of the sextet `v`.
pub open spec fn sextet_char(v: int) -> char {
    sextet_byte(v) as char
}

/// The sextet of a base64url character; `-1` for any other character.
pub open spec fn char_sextet(c: char) -> int {
    let u = c as u32;
    if 65 <= u <= 90 {
        u - 65
    } else if 97 <= u <= 122 {
        u - 97 + 26
    } else if 48 <= u <= 57 {
        u - 48 + 52
    } else if u == 45 {
        62
    } else if u == 95 {
        63
    } else {
        -1
    }
}

pub open spec fn is_b64_char(c: char) -> bool {
    char_sextet(c) >= 0
}

/// All characters of `s` belong to the base64url alphabet.
pub open spec fn b64_seq(s: Seq<char>) -> bool {
    forall|i: int| 0 <= i < s.len() ==> is_b64_char(#[trigger] s[i])
}

/// Base64url rendering of a byte string, without padding.
pub open spec fn b64_chars(bytes: Seq<u8>) -> Seq<char>
    decreases bytes.len(),
{
    if bytes.len() == 0 {
        Seq::<char>::empty()
    } else if bytes.len() == 1 {
        let b0 = bytes[0];
        seq![sextet_char((b0 >> 2) as int), sextet_char(((b0 & 3) << 4) as int)]
    } else if bytes.len() == 2 {
        let b0 = bytes[0];
        let b1 = bytes[1];
        seq![
            sextet_char((b0 >> 2) as int),
            sextet_char((((b0 & 3) << 4) | (b1 >> 4)) as int),
            sextet_char(((b1 & 15) << 2) as int),
        ]
    } else {
        let b0 = bytes[0];
        let b1 = bytes[1];
        let b2 = bytes[2];
        seq![
            sextet_char((b0 >> 2) as int),
            sextet_char((((b0 & 3) << 4) | (b1 >> 4)) as int),
            sextet_char((((b1 & 15) << 2) | (b2 >> 6)) as int),
            sextet_char((b2 & 63) as int),
        ] + b64_chars(bytes.skip(3))
    }
}

/// Inverse of [`b64_chars`]: bytes of a base64url string, `None` when a
/// character is outside the alphabet, the length is 1 more than a
/// multiple of 4, or an unused trailing bit is set.
pub open spec fn b64_dec(s: Seq<char>) -> Option<Seq<u8>>
    decreases s.len(),
{
    if s.len() == 0 {
        Some(Seq::<u8>::empty())
    } else if s.len() == 1 {
        None
    } else if s.len() == 2 {
        let v0 = char_sextet(s[0]);
        let v1 = char_sextet(s[1]);
        if v0 >= 0 && v1 >= 0 && (v1 as u8) & 15 == 0 {
            Some(seq![((v0 as u8) << 2) | ((v1 as u8) >> 4)])
        } else {
            None
        }
    } else if s.len() == 3 {
        let v0 = char_sextet(s[0]);
        let v1 = char_sextet(s[1]);
        let v2 = char_sextet(s[2]);
        if v0 >= 0 && v1 >= 0 && v2 >= 0 && (v2 as u8) & 3 == 0 {
            Some(
                seq![
                    ((v0 as u8) << 2) | ((v1 as u8) >> 4),
                    (((v1 as u8) & 15) << 4) | ((v2 as u8) >> 2),
                ],
            )
        } else {
            None
        }
    } else {
        let v0 = char_sextet(s[0]);
        let v1 = char_sextet(s[1]);
        let v2 = char_sextet(s[2]);
        let v3 = char_sextet(s[3]);
        if v0 >= 0 && v1 >= 0 && v2 >= 0 && v3 >= 0 {
            match b64_dec(s.skip(4)) {
                Some(rest) => Some(
                    seq![
                        ((v0 as u8) << 2) | ((v1 as u8) >> 4),
                        (((v1 as u8) & 15) << 4) | ((v2 as u8) >> 2),
                        (((v2 as u8) & 3) << 6) | (v3 as u8),
                    ] + rest,
                ),
                None => None,
            }
        } else {
            None
        }
    }
}

/// The base64url alphabet maps sextets and characters back and forth,
/// and stays within printable ASCII, away from `.`.
pub proof fn lemma_sextet_roundtrip(v: int)
    requires
        0 <= v < 64,
    ensures
        char_sextet(sextet_char(v)) == v,
        is_b64_char(sextet_char(v)),
        sextet_char(v) != '.',
        '\0' <= sextet_char(v) <= '\u{7f}',
{
    let b = sextet_byte(v);
    assert((b as u32) < 128);
    assert((b as char) as u32 == b as u32);
    assert('.' as u32 == 46);
    assert('\u{7f}' as u32 == 127);
}

/// Every character of a base64url rendering is in the alphabet.
pub proof fn lemma_b64_chars_alphabet(bytes: Seq<u8>)
    ensures
        b64_seq(b64_chars(bytes)),
    decreases bytes.len(),
{
    if bytes.len() == 0 {
    } else if bytes.len() <= 2 {
        let s = b64_chars(bytes);
        assert forall|i: int| 0 <= i < s.len() implies is_b64_char(s[i]) by {
            let b0 = bytes[0];
            assert((b0 >> 2) < 64 && ((b0 & 3) << 4) < 64) by (bit_vector);
            if bytes.len() == 2 {
                let b1 = bytes[1];
                assert((((b0 & 3) << 4) | (b1 >> 4)) < 64 && ((b1 & 15) << 2) < 64)
                    by (bit_vector);
            }
            lemma_sextet_roundtrip(char_sextet_of_index(bytes, i));
        }
    } else {
        lemma_b64_chars_alphabet(bytes.skip(3));
        let s = b64_chars(bytes);
        let rest = b64_chars(bytes.skip(3));
        assert forall|i: int| 0 <= i < s.len() implies is_b64_char(s[i]) by {
            let b0 = bytes[0];
            let b1 = bytes[1];
            let b2 = bytes[2];
            assert((b0 >> 2) < 64 && (((b0 & 3) << 4) | (b1 >> 4)) < 64 && (((b1 & 15) << 2) | (
            b2 >> 6)) < 64 && (b2 & 63) < 64) by (bit_vector);
            if i < 4 {
                lemma_sextet_roundtrip(char_sextet_of_index(bytes, i));
            } else {
                assert(s[i] == rest[i - 4]);
            }
        }
    }
}

/// The sextet value rendered at position `i` of `b64_chars(bytes)`,
/// for the first group (`0 <= i < 4`).
spec fn char_sextet_of_index(bytes: Seq<u8>, i: int) -> int {
    if bytes.len() == 1 {
        let b0 = bytes[0];
        if i == 0 {
            (b0 >> 2) as int
        } else {
            ((b0 & 3) << 4) as int
        }
    } else if bytes.len() == 2 {
        let b0 = bytes[0];
        let b1 = bytes[1];
        if i == 0 {
            (b0 >> 2) as int
        } else if i == 1 {
            (((b0 & 3) << 4) | (b1 >> 4)) as int
        } else {
            ((b1 & 15) << 2) as int
        }
    } else {
        let b0 = bytes[0];
        let b1 = bytes[1];
        let b2 = bytes[2];
        if i == 0 {
            (b0 >> 2) as int
        } else if i == 1 {
            (((b0 & 3) << 4) | (b1 >> 4)) as int
        } else if i == 2 {
            (((b1 & 15) << 2) | (b2 >> 6)) as int
        } else {
            (b2 & 63) as int
        }
    }
}

/// Decoding inverts rendering.
pub proof fn lemma_b64_roundtrip(bytes: Seq<u8>)
    ensures
        b64_dec(b64_chars(bytes)) == Some(bytes),
    decreases bytes.len(),
{
    let s = b64_chars(bytes);
    if bytes.len() == 0 {
        assert(s =~= Seq::<char>::empty());
        assert(b64_dec(s) matches Some(b) && b =~= bytes);
    } else if bytes.len() == 1 {
        let b0 = bytes[0];
        let c0 = (b0 >> 2) as int;
        let c1 = ((b0 & 3) << 4) as int;
        assert(b0 >> 2 < 64 && (b0 & 3) << 4 < 64) by (bit_vector);
        lemma_sextet_roundtrip(c0);
        lemma_sextet_roundtrip(c1);
        assert(((b0 & 3) << 4) & 15 == 0 && ((b0 >> 2) << 2) | (((b0 & 3) << 4) >> 4) == b0)
            by (bit_vector);
        assert(b64_dec(s) matches Some(b) && b =~= bytes);
    } else if bytes.len() == 2 {
        let b0 = bytes[0];
        let b1 = bytes[1];
        let c0 = (b0 >> 2) as int;
        let c1 = (((b0 & 3) << 4) | (b1 >> 4)) as int;
        let c2 = ((b1 & 15) << 2) as int;
        assert(b0 >> 2 < 64 && ((b0 & 3) << 4) | (b1 >> 4) < 64 && (b1 & 15) << 2 < 64)
            by (bit_vector);
        lemma_sextet_roundtrip(c0);
        lemma_sextet_roundtrip(c1);
        lemma_sextet_roundtrip(c2);
        assert(((b1 & 15) << 2) & 3 == 0 && ((b0 >> 2) << 2) | ((((b0 & 3) << 4) | (b1 >> 4))
            >> 4) == b0 && (((((b0 & 3) << 4) | (b1 >> 4)) & 15) << 4) | (((b1 & 15) << 2) >> 2)
            == b1) by (bit_vector);
        assert(b64_dec(s) matches Some(b) && b =~= bytes);
    } else {
        lemma_b64_roundtrip(bytes.skip(3));
        let b0 = bytes[0];
        let b1 = bytes[1];
        let b2 = bytes[2];
        let c0 = (b0 >> 2) as int;
        let c1 = (((b0 & 3) << 4) | (b1 >> 4)) as int;
        let c2 = (((b1 & 15) << 2) | (b2 >> 6)) as int;
        let c3 = (b2 & 63) as int;
        assert(b0 >> 2 < 64 && ((b0 & 3) << 4) | (b1 >> 4) < 64 && ((b1 & 15) << 2) | (b2 >> 6)
            < 64 && b2 & 63 < 64) by (bit_vector);
        lemma_sextet_roundtrip(c0);
        lemma_sextet_roundtrip(c1);
        lemma_sextet_roundtrip(c2);
        lemma_sextet_roundtrip(c3);
        assert(((b0 >> 2) << 2) | ((((b0 & 3) << 4) | (b1 >> 4)) >> 4) == b0 && (((((b0 & 3) << 4)
            | (b1 >> 4)) & 15) << 4) | (((((b1 & 15) << 2) | (b2 >> 6))) >> 2) == b1 && (((((b1
            & 15) << 2) | (b2 >> 6)) & 3) << 6) | (b2 & 63) == b2) by (bit_vector);
        assert(s.len() >= 4);
        assert(s.skip(4) =~= b64_chars(bytes.skip(3)));
        let rest = b64_dec(s.skip(4)).unwrap();
        assert(rest == bytes.skip(3));
        assert(b64_dec(s) matches Some(b) && b =~= bytes);
    }
}

/// Appends the base64url rendering of `bytes` to `out`.
pub fn b64_push(out: &mut String, bytes: &[u8])
    ensures
        final(out)@ == old(out)@ + b64_chars(bytes@),
{
    let n: usize = bytes.len();
    let mut i: usize = 0;
    proof {
        assert(bytes@.skip(0) =~= bytes@);
    }
    while n - i >= 3
        invariant
            i <= n,
            n == bytes@.len(),
            out@ + b64_chars(bytes@.skip(i as int)) == old(out)@ + b64_chars(bytes@),
        decreases n - i,
    {
        let b0 = bytes[i];
        let b1 = bytes[i + 1];
        let b2 = bytes[i + 2];
        proof {
            assert(b0 >> 2 < 64 && ((b0 & 3) << 4) | (b1 >> 4) < 64 && ((b1 & 15) << 2) | (b2
                >> 6) < 64 && b2 & 63 < 64) by (bit_vector);
        }
        let ghost before = out@;
        let ghost tail = bytes@.skip(i as int);
        push_sextet(out, b0 >> 2);
        push_sextet(out, ((b0 & 3) << 4) | (b1 >> 4));
        push_sextet(out, ((b1 & 15) << 2) | (b2 >> 6));
        push_sextet(out, b2 & 63);
        proof {
            assert(tail[0] == b0 && tail[1] == b1 && tail[2] == b2);
            assert(tail.skip(3) =~= bytes@.skip(i + 3));
            assert(out@ =~= before + b64_chars(tail).take(4));
            assert(b64_chars(tail) =~= b64_chars(tail).take(4) + b64_chars(tail.skip(3)));
            assert(out@ + b64_chars(bytes@.skip(i + 3)) =~= old(out)@ + b64_chars(bytes@));
        }
        i = i + 3;
    }
    let ghost tail = bytes@.skip(i as int);
    if n - i == 1 {
        let b0 = bytes[i];
        proof {
            assert(b0 >> 2 < 64 && (b0 & 3) << 4 < 64) by (bit_vector);
            assert(tail[0] == b0 && tail.len() == 1);
        }
        push_sextet(out, b0 >> 2);
        push_sextet(out, (b0 & 3) << 4);
        proof {
            assert(out@ =~= old(out)@ + b64_chars(bytes@));
        }
    } else if n - i == 2 {
        let b0 = bytes[i];
        let b1 = bytes[i + 1];
        proof {
            assert(b0 >> 2 < 64 && ((b0 & 3) << 4) | (b1 >> 4) < 64 && (b1 & 15) << 2 < 64)
                by (bit_vector);
            assert(tail[0] == b0 && tail[1] == b1 && tail.len() == 2);
        }
        push_sextet(out, b0 >> 2);
        push_sextet(out, ((b0 & 3) << 4) | (b1 >> 4));
        push_sextet(out, (b1 & 15) << 2);
        proof {
            assert(out@ =~= old(out)@ + b64_chars(bytes@));
        }
    } else {
        proof {
            assert(tail.len() == 0);
            assert(tail =~= Seq::<u8>::empty());
            assert(out@ =~= old(out)@ + b64_chars(bytes@));
        }
    }
}

/// Appends the base64url character of the sextet `v`.
fn push_sextet(out: &mut String, v: u8)
    requires
        v < 64,
    ensures
        final(out)@ == old(out)@.push(sextet_char(v as int)),
{
    let b: u8 = if v < 26 {
        65 + v
    } else if v < 52 {
        71 + v
    } else if v < 62 {
        v - 4
    } else if v == 62 {
        45
    } else {
        95
    };
    let c: char = b as char;
    proof {
        assert(b == sextet_byte(v as int));
    }
    out.push(c);
}

/// Reads the character span `[from, to)` of the base64url text `s` back
/// into bytes, following [`b64_dec`].
pub fn b64_decode_span(s: &str, from: usize, to: usize) -> (r: Option<Vec<u8>>)
    requires
        from <= to <= s@.len(),
    ensures
        match r {
            Some(v) => b64_dec(s@.subrange(from as int, to as int)) == Some(v@),
            None => b64_dec(s@.subrange(from as int, to as int)) is None,
        },
{
    let ghost span = s@.subrange(from as int, to as int);
    let mut out: Vec<u8> = Vec::new();
    let mut i: usize = from;
    proof {
        assert(span.skip(0) =~= span);
    }
    while to - i >= 4
        invariant
            from <= i <= to <= s@.len(),
            span == s@.subrange(from as int, to as int),
            (i - from) % 4 == 0,
            match b64_dec(span.skip(i - from)) {
                Some(rest) => b64_dec(span) == Some(out@ + rest),
                None => b64_dec(span) is None,
            },
        decreases to - i,
    {
        let ghost tail = span.skip(i - from);
        let ghost out0 = out@;
        let c0 = sextet_of(s, i);
        let c1 = sextet_of(s, i + 1);
        let c2 = sextet_of(s, i + 2);
        let c3 = sextet_of(s, i + 3);
        proof {
            assert(tail[0] == s@[i as int] && tail[1] == s@[i + 1] && tail[2] == s@[i + 2]
                && tail[3] == s@[i + 3]);
            assert(tail.len() >= 4);
        }
        if c0 > 63 || c1 > 63 || c2 > 63 || c3 > 63 {
            proof {
                assert(b64_dec(tail) is None);
            }
            return None;
        }
        out.push((c0 << 2) | (c1 >> 4));
        out.push(((c1 & 15) << 4) | (c2 >> 2));
        out.push(((c2 & 3) << 6) | c3);
        proof {
            assert(tail.skip(4) =~= span.skip(i - from + 4));
            match b64_dec(tail.skip(4)) {
                Some(rest2) => {
                    assert(b64_dec(tail) == Some(
                        seq![(c0 << 2) | (c1 >> 4), ((c1 & 15) << 4) | (c2 >> 2), ((c2 & 3) << 6)
                            | c3] + rest2,
                    ));
                    assert(out@ + rest2 =~= out0 + b64_dec(tail).unwrap());
                },
                None => {
                    assert(b64_dec(tail) is None);
                },
            }
        }
        i = i + 4;
    }
    let ghost tail = span.skip(i - from);
    let rem = to - i;
    if rem == 0 {
        proof {
            assert(tail =~= Seq::<char>::empty());
            assert(b64_dec(span) == Some(out@ + Seq::<u8>::empty()));
            assert(out@ + Seq::<u8>::empty() =~= out@);
        }
        Some(out)
    } else if rem == 1 {
        proof {
            assert(tail.len() == 1);
        }
        None
    } else if rem == 2 {
        let c0 = sextet_of(s, i);
        let c1 = sextet_of(s, i + 1);
        proof {
            assert(tail[0] == s@[i as int] && tail[1] == s@[i + 1] && tail.len() == 2);
        }
        if c0 > 63 || c1 > 63 || (c1 & 15) != 0 {
            return None;
        }
        let ghost out0 = out@;
        out.push((c0 << 2) | (c1 >> 4));
        proof {
            assert(b64_dec(tail) == Some(seq![(c0 << 2) | (c1 >> 4)]));
            assert(out@ =~= out0 + b64_dec(tail).unwrap());
        }
        Some(out)
    } else {
        let c0 = sextet_of(s, i);
        let c1 = sextet_of(s, i + 1);
        let c2 = sextet_of(s, i + 2);
        proof {
            assert(tail[0] == s@[i as int] && tail[1] == s@[i + 1] && tail[2] == s@[i + 2]
                && tail.len() == 3);
        }
        if c0 > 63 || c1 > 63 || c2 > 63 || (c2 & 3) != 0 {
            return None;
        }
        let ghost out0 = out@;
        out.push((c0 << 2) | (c1 >> 4));
        out.push(((c1 & 15) << 4) | (c2 >> 2));
        proof {
            assert(b64_dec(tail) == Some(seq![(c0 << 2) | (c1 >> 4), ((c1 & 15) << 4) | (c2
                >> 2)]));
            assert(out@ =~= out0 + b64_dec(tail).unwrap());
        }
        Some(out)
    }
}

/// The sextet of the character at `i`, as a byte; `255` when the
/// character is outside the alphabet.
fn sextet_of(s: &str, i: usize) -> (r: u8)
    requires
        i < s@.len(),
    ensures
        char_sextet(s@[i as int]) >= 0 ==> r as int == char_sextet(s@[i as int]),
        char_sextet(s@[i as int]) < 0 ==> r == 255,
{
    let c: char = s.get_char(i);
    let u: u32 = c as u32;
    if 65 <= u && u <= 90 {
        (u - 65) as u8
    } else if 97 <= u && u <= 122 {
        (u - 97 + 26) as u8
    } else if 48 <= u && u <= 57 {
        (u - 48 + 52) as u8
    } else if u == 45 {
        62
    } else if u == 95 {
        63
    } else {
        255
    }
}

} // verus!
