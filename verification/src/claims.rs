//! The signed payload of a token, and its JSON rendering.
use crate::digits::all_digit_bytes;
use crate::digits::dec_bytes;
use crate::digits::dec_val;
use crate::digits::int_dec_bytes;
use crate::digits::int_val;
use crate::digits::is_digit_byte;
use crate::digits::lemma_dec_bytes_val;
use crate::digits::parse_i32_span;
use crate::digits::parse_u64_span;
use crate::digits::push_dec_i32;
use crate::digits::push_dec_u64;
use crate::digits::wf_int_bytes;
use vstd::prelude::*;

verus! {

/// The signed payload of a token: a subject (user id) and an expiry
/// (unix-epoch seconds).  Immutable once built; a fresh value is made
/// for every issued token.
#[derive(Clone, Copy, PartialEq, Eq, Structural, Debug)]
pub struct Claims {
    pub sub: i32,
    pub exp: usize,
}

/// Bytes of `{"sub":`.
pub open spec fn payload_open_bytes() -> Seq<u8> {
    seq![123u8, 34u8, 115u8, 117u8, 98u8, 34u8, 58u8]
}

/// Bytes of `,"exp":`.
pub open spec fn payload_mid_bytes() -> Seq<u8> {
    seq![44u8, 34u8, 101u8, 120u8, 112u8, 34u8, 58u8]
}

/// JSON bytes of a payload: exactly `{"sub":S,"exp":E}` with the two
/// numbers in canonical decimal.
pub open spec fn payload_bytes(sub: int, exp: int) -> Seq<u8> {
    payload_open_bytes() + int_dec_bytes(sub) + payload_mid_bytes() + dec_bytes(exp) + seq![125u8]
}

/// Renders the payload of `(sub, exp)`.
pub fn build_payload(sub: i32, exp: usize) -> (r: Vec<u8>)
    ensures
        r@ == payload_bytes(sub as int, exp as int),
{
    let mut out: Vec<u8> = Vec::new();
    out.push(123);
    out.push(34);
    out.push(115);
    out.push(117);
    out.push(98);
    out.push(34);
    out.push(58);
    proof {
        assert(out@ =~= payload_open_bytes());
    }
    push_dec_i32(&mut out, sub);
    let ghost after_sub = out@;
    out.push(44);
    out.push(34);
    out.push(101);
    out.push(120);
    out.push(112);
    out.push(34);
    out.push(58);
    proof {
        assert(out@ =~= after_sub + payload_mid_bytes());
    }
    push_dec_u64(&mut out, exp as u64);
    out.push(125);
    proof {
        assert(out@ =~= payload_bytes(sub as int, exp as int));
    }
    out
}

/// Facts about the layout of a rendered payload.
proof fn lemma_payload_parts(sub: int, exp: int)
    requires
        i32::MIN <= sub <= i32::MAX,
        0 <= exp,
    ensures
        ({
            let ds = int_dec_bytes(sub);
            let de = dec_bytes(exp);
            let p = payload_bytes(sub, exp);
            &&& p.len() == 15 + ds.len() + de.len()
            &&& ds.len() >= 1
            &&& de.len() >= 1
            &&& forall|i: int| 0 <= i < 7 ==> p[i] == payload_open_bytes()[i]
            &&& forall|i: int| 0 <= i < ds.len() ==> p[7 + i] == ds[i]
            &&& forall|i: int|
                0 <= i < 7 ==> p[7 + ds.len() + i] == payload_mid_bytes()[i]
            &&& forall|i: int| 0 <= i < de.len() ==> p[14 + ds.len() + i] == de[i]
            &&& p[p.len() - 1] == 125
            &&& wf_int_bytes(ds)
            &&& int_val(ds) == sub
            &&& forall|i: int| 0 <= i < ds.len() ==> #[trigger] ds[i] != 44 && ds[i] != 125
            &&& all_digit_bytes(de)
            &&& dec_val(de) == exp
        }),
{
    let ds = int_dec_bytes(sub);
    let de = dec_bytes(exp);
    lemma_dec_bytes_val(exp);
    if sub >= 0 {
        lemma_dec_bytes_val(sub);
        assert(wf_int_bytes(ds) && int_val(ds) == sub);
        assert(forall|i: int| 0 <= i < ds.len() ==> is_digit_byte(#[trigger] ds[i]));
    } else {
        lemma_dec_bytes_val(-sub);
        assert(ds[0] == 45);
        assert(ds.skip(1) =~= dec_bytes(-sub));
        assert(wf_int_bytes(ds));
        assert(int_val(ds) == sub);
        assert(forall|i: int|
            1 <= i < ds.len() ==> is_digit_byte(#[trigger] ds[i]) && ds[i] == dec_bytes(-sub)[i
                - 1]);
    }
}

/// Reads a payload back.  Whenever the input is exactly the rendering
/// of some `(sub, exp)`, that pair is returned.
pub fn parse_payload(b: &[u8]) -> (r: Option<(i32, usize)>)
    ensures
        forall|sub: i32, exp: usize| #![auto]
            b@ == payload_bytes(sub as int, exp as int) ==> r == Some((sub, exp)),
{
    let n: usize = b.len();
    proof {
        assert forall|sub: i32, exp: usize| #![auto]
            b@ == payload_bytes(sub as int, exp as int) implies n >= 17 by {
            lemma_payload_parts(sub as int, exp as int);
        }
    }
    if n < 17 {
        return None;
    }
    if b[0] != 123 || b[1] != 34 || b[2] != 115 || b[3] != 117 || b[4] != 98 || b[5] != 34 || b[6]
        != 58 {
        proof {
            assert forall|sub: i32, exp: usize| #![auto]
                b@ != payload_bytes(sub as int, exp as int) by {
                lemma_payload_parts(sub as int, exp as int);
            }
        }
        return None;
    }
    if b[n - 1] != 125 {
        proof {
            assert forall|sub: i32, exp: usize| #![auto]
                b@ != payload_bytes(sub as int, exp as int) by {
                lemma_payload_parts(sub as int, exp as int);
            }
        }
        return None;
    }
    let mut j: usize = 7;
    while j < n && b[j] != 44
        invariant
            7 <= j <= n,
            n == b@.len(),
            forall|i: int| 7 <= i < j ==> b@[i] != 44,
        decreases n - j,
    {
        j = j + 1;
    }
    if j == n {
        proof {
            assert forall|sub: i32, exp: usize| #![auto]
                b@ != payload_bytes(sub as int, exp as int) by {
                lemma_payload_parts(sub as int, exp as int);
                let ds = int_dec_bytes(sub as int);
                if b@ == payload_bytes(sub as int, exp as int) {
                    assert(b@[7 + ds.len() as int] == 44);
                }
            }
        }
        return None;
    }
    if n - j < 8 || b[j + 1] != 34 || b[j + 2] != 101 || b[j + 3] != 120 || b[j + 4] != 112 || b[j
        + 5] != 34 || b[j + 6] != 58 {
        proof {
            assert forall|sub: i32, exp: usize| #![auto]
                b@ != payload_bytes(sub as int, exp as int) by {
                lemma_payload_parts(sub as int, exp as int);
                let ds = int_dec_bytes(sub as int);
                if b@ == payload_bytes(sub as int, exp as int) {
                    assert(j == 7 + ds.len());
                }
            }
        }
        return None;
    }
    proof {
        assert forall|sub: i32, exp: usize| #![auto]
            b@ == payload_bytes(sub as int, exp as int) implies ({
            let ds = int_dec_bytes(sub as int);
            let de = dec_bytes(exp as int);
            j == 7 + ds.len() && b@.subrange(7, j as int) =~= ds && b@.subrange(
                j + 7,
                n - 1,
            ) =~= de
        }) by {
            lemma_payload_parts(sub as int, exp as int);
            let ds = int_dec_bytes(sub as int);
            assert(j == 7 + ds.len());
        }
    }
    let sub = match parse_i32_span(b, 7, j) {
        None => {
            proof {
                assert forall|sub0: i32, exp0: usize| #![auto]
                    b@ != payload_bytes(sub0 as int, exp0 as int) by {
                    lemma_payload_parts(sub0 as int, exp0 as int);
                }
            }
            return None;
        },
        Some(v) => v,
    };
    let e = match parse_u64_span(b, j + 7, n - 1) {
        None => {
            proof {
                assert forall|sub0: i32, exp0: usize| #![auto]
                    b@ != payload_bytes(sub0 as int, exp0 as int) by {
                    lemma_payload_parts(sub0 as int, exp0 as int);
                }
            }
            return None;
        },
        Some(v) => v,
    };
    if e > (usize::MAX as u64) {
        proof {
            assert forall|sub0: i32, exp0: usize| #![auto]
                b@ != payload_bytes(sub0 as int, exp0 as int) by {
                lemma_payload_parts(sub0 as int, exp0 as int);
                if b@ == payload_bytes(sub0 as int, exp0 as int) {
                    assert(e as int == dec_val(b@.subrange(j + 7, n - 1)));
                }
            }
        }
        return None;
    }
    proof {
        assert forall|sub0: i32, exp0: usize| #![auto]
            b@ == payload_bytes(sub0 as int, exp0 as int) implies sub == sub0 && e as usize
            == exp0 by {
            lemma_payload_parts(sub0 as int, exp0 as int);
        }
    }
    Some((sub, e as usize))
}

} // verus!
