//! Decimal rendering and parsing of the integers that appear in a
//! token payload, at the level of ASCII bytes.
use vstd::prelude::*;

verus! {

/// ASCII byte of the decimal digit `d` (meaningful for `0 <= d <= 9`).
pub open spec fn digit_byte(d: int) -> u8 {
    (48 + d) as u8
}

/// Decimal rendering of `n >= 0`, most significant digit first, no sign,
/// no leading zeros (a single `0` for zero).
pub open spec fn dec_bytes(n: int) -> Seq<u8>
    decreases n,
{
    if n < 10 {
        seq![digit_byte(n)]
    } else {
        dec_bytes(n / 10).push(digit_byte(n % 10))
    }
}

/// Decimal rendering of a signed integer: a leading `-` for negatives.
pub open spec fn int_dec_bytes(n: int) -> Seq<u8> {
    if n >= 0 {
        dec_bytes(n)
    } else {
        seq![45u8] + dec_bytes(-n)
    }
}

pub open spec fn is_digit_byte(b: u8) -> bool {
    48 <= b <= 57
}

pub open spec fn all_digit_bytes(s: Seq<u8>) -> bool {
    forall|i: int| 0 <= i < s.len() ==> is_digit_byte(#[trigger] s[i])
}

/// Value of a digit string, read most significant digit first.
pub open spec fn dec_val(s: Seq<u8>) -> int
    decreases s.len(),
{
    if s.len() == 0 {
        0
    } else {
        dec_val(s.drop_last()) * 10 + (s.last() - 48)
    }
}

/// A signed digit string: digits, or `-` followed by digits.
pub open spec fn wf_int_bytes(s: Seq<u8>) -> bool {
    if s.len() == 0 {
        false
    } else if s[0] == 45 {
        s.len() >= 2 && all_digit_bytes(s.skip(1))
    } else {
        all_digit_bytes(s)
    }
}

/// Value of a signed digit string.
pub open spec fn int_val(s: Seq<u8>) -> int {
    if s.len() > 0 && s[0] == 45 {
        -dec_val(s.skip(1))
    } else {
        dec_val(s)
    }
}

pub proof fn lemma_dec_val_nonneg(s: Seq<u8>)
    requires
        all_digit_bytes(s),
    ensures
        dec_val(s) >= 0,
    decreases s.len(),
{
    if s.len() > 0 {
        assert(all_digit_bytes(s.drop_last())) by {
            assert(forall|i: int| 0 <= i < s.len() - 1 ==> s.drop_last()[i] == s[i]);
        }
        lemma_dec_val_nonneg(s.drop_last());
        assert(is_digit_byte(s.last()));
    }
}

/// The rendering of `n` is made of digits and reads back as `n`.
pub proof fn lemma_dec_bytes_val(n: int)
    requires
        n >= 0,
    ensures
        all_digit_bytes(dec_bytes(n)),
        dec_val(dec_bytes(n)) == n,
        dec_bytes(n).len() >= 1,
    decreases n,
{
    if n < 10 {
        assert(dec_bytes(n) =~= seq![digit_byte(n)]);
        assert(dec_val(dec_bytes(n)) == dec_val(seq![digit_byte(n)].drop_last()) * 10 + n);
        assert(seq![digit_byte(n)].drop_last() =~= Seq::<u8>::empty());
    } else {
        lemma_dec_bytes_val(n / 10);
        let pre = dec_bytes(n / 10);
        let s = dec_bytes(n);
        assert(s == pre.push(digit_byte(n % 10)));
        assert(s.drop_last() =~= pre);
        assert(s.last() == digit_byte(n % 10));
        assert(dec_val(s) == (n / 10) * 10 + (n % 10));
        assert(n == (n / 10) * 10 + (n % 10)) by {
            vstd::arithmetic::div_mod::lemma_fundamental_div_mod(n, 10);
        }
        assert forall|i: int| 0 <= i < s.len() implies is_digit_byte(s[i]) by {
            if i < pre.len() {
                assert(s[i] == pre[i]);
            } else {
                assert(s[i] == digit_byte(n % 10));
            }
        }
    }
}

/// Once a prefix of a string reads beyond `u64::MAX`, the whole string
/// does too.
pub proof fn lemma_dec_val_exceeds(s: Seq<u8>, i: int)
    requires
        0 <= i <= s.len(),
        dec_val(s.take(i)) > u64::MAX,
    ensures
        dec_val(s) > u64::MAX,
    decreases s.len(),
{
    if i == s.len() {
        assert(s.take(i) =~= s);
    } else {
        let d = s.drop_last();
        assert(s.take(i) =~= d.take(i));
        lemma_dec_val_exceeds(d, i);
        assert(dec_val(s) == dec_val(d) * 10 + (s.last() - 48));
        assert(s.last() - 48 >= -48);
        assert(dec_val(d) * 10 >= dec_val(d) + 9 * (u64::MAX as int)) by (nonlinear_arith)
            requires dec_val(d) > u64::MAX,
        ;
    }
}

/// Appends the decimal rendering of `n` to `out`.
pub fn push_dec_u64(out: &mut Vec<u8>, n: u64)
    ensures
        final(out)@ == old(out)@ + dec_bytes(n as int),
    decreases n,
{
    if n < 10 {
        out.push(48 + (n as u8));
        proof {
            assert(out@ =~= old(out)@ + dec_bytes(n as int));
        }
    } else {
        push_dec_u64(out, n / 10);
        out.push(48 + ((n % 10) as u8));
        proof {
            assert(dec_bytes(n as int) == dec_bytes(n as int / 10).push(digit_byte(n as int % 10)));
            assert(out@ =~= old(out)@ + dec_bytes(n as int));
        }
    }
}

/// Appends the decimal rendering of a signed `n` to `out`.
pub fn push_dec_i32(out: &mut Vec<u8>, n: i32)
    ensures
        final(out)@ == old(out)@ + int_dec_bytes(n as int),
{
    if n >= 0 {
        push_dec_u64(out, n as u64);
    } else {
        out.push(45);
        let m: u64 = (-(n as i64)) as u64;
        assert(m as int == -(n as int));
        push_dec_u64(out, m);
        proof {
            assert(out@ =~= old(out)@ + int_dec_bytes(n as int));
        }
    }
}

/// Reads the digit span `b[from..to]` as a `u64`.
///
/// Succeeds exactly on nonempty all-digit spans whose value fits.
pub fn parse_u64_span(b: &[u8], from: usize, to: usize) -> (r: Option<u64>)
    requires
        from <= to <= b@.len(),
    ensures
        (r is Some) <==> (to > from && all_digit_bytes(b@.subrange(from as int, to as int))
            && dec_val(b@.subrange(from as int, to as int)) <= u64::MAX),
        r matches Some(v) ==> v as int == dec_val(b@.subrange(from as int, to as int)),
{
    let ghost span = b@.subrange(from as int, to as int);
    if to == from {
        return None;
    }
    let mut acc: u64 = 0;
    let mut i: usize = from;
    while i < to
        invariant
            from <= i <= to <= b@.len(),
            span == b@.subrange(from as int, to as int),
            all_digit_bytes(span.take(i - from)),
            acc as int == dec_val(span.take(i - from)),
        decreases to - i,
    {
        let byte = b[i];
        proof {
            assert(span[i - from] == b@[i as int]);
        }
        if byte < 48 || byte > 57 {
            proof {
                assert(!is_digit_byte(span[i - from]));
            }
            return None;
        }
        let d: u64 = (byte - 48) as u64;
        proof {
            assert(span.take(i - from + 1).drop_last() =~= span.take(i - from));
            assert(span.take(i - from + 1).last() == span[i - from]);
            assert(dec_val(span.take(i - from + 1)) == dec_val(span.take(i - from)) * 10 + d);
        }
        if acc > (u64::MAX - d) / 10 {
            proof {
                assert(acc as int * 10 + d > u64::MAX);
                lemma_dec_val_exceeds(span, i - from + 1);
            }
            return None;
        }
        acc = acc * 10 + d;
        i = i + 1;
    }
    proof {
        assert(span.take(span.len() as int) =~= span);
        assert(i - from == span.len());
    }
    Some(acc)
}

/// Reads the span `b[from..to]` as a signed decimal `i32`.
///
/// Succeeds exactly on well-formed signed digit spans whose value
/// is in the range of `i32`.
pub fn parse_i32_span(b: &[u8], from: usize, to: usize) -> (r: Option<i32>)
    requires
        from <= to <= b@.len(),
    ensures
        (r is Some) <==> (wf_int_bytes(b@.subrange(from as int, to as int))
            && i32::MIN <= int_val(b@.subrange(from as int, to as int)) <= i32::MAX),
        r matches Some(v) ==> v as int == int_val(b@.subrange(from as int, to as int)),
{
    let ghost span = b@.subrange(from as int, to as int);
    if to == from {
        return None;
    }
    if b[from] == 45 {
        proof {
            assert(span[0] == 45);
            assert(span.skip(1) =~= b@.subrange(from + 1, to as int));
        }
        match parse_u64_span(b, from + 1, to) {
            None => {
                proof {
                    if wf_int_bytes(span) && i32::MIN <= int_val(span) <= i32::MAX {
                        lemma_dec_val_nonneg(span.skip(1));
                        assert(dec_val(span.skip(1)) <= u64::MAX);
                    }
                }
                None
            },
            Some(m) => {
                if m > 2147483648u64 {
                    assert(int_val(span) < i32::MIN);
                    None
                } else if m == 2147483648u64 {
                    assert(int_val(span) == i32::MIN);
                    Some(i32::MIN)
                } else {
                    assert(int_val(span) == -(m as int));
                    Some(-(m as i32))
                }
            },
        }
    } else {
        proof {
            assert(span[0] == b@[from as int]);
            assert(span[0] != 45);
        }
        match parse_u64_span(b, from, to) {
            None => {
                proof {
                    if wf_int_bytes(span) && i32::MIN <= int_val(span) <= i32::MAX {
                        assert(dec_val(span) <= u64::MAX);
                    }
                }
                None
            },
            Some(m) => {
                if m > 2147483647u64 {
                    assert(int_val(span) > i32::MAX);
                    None
                } else {
                    Some(m as i32)
                }
            },
        }
    }
}

} // verus!
