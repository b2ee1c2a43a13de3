//! Exact decimal numbers for path data.
//!
//! A numeric argument is kept exactly as written: sign, integer part,
//! and the fraction digits read as an integer together with their count,
//! so `0.05` and `0.5` stay apart. Scientific notation is deliberately
//! not recognized: a number ends at the first delimiter byte, and the
//! token must be a plain decimal literal.

use vstd::prelude::*;

verus! {

/// One decoded numeric argument. `-12.25` is
/// `{ neg: true, int_part: 12, frac_part: 25, frac_len: 2 }`;
/// `0.05` is `{ neg: false, int_part: 0, frac_part: 5, frac_len: 2 }`.
#[derive(Clone, Copy, PartialEq, Eq, Debug)]
pub struct Number {
    pub neg: bool,
    pub int_part: u64,
    pub frac_part: u64,
    pub frac_len: usize,
}

/// An ASCII decimal digit.
pub open spec fn is_digit(b: u8) -> bool {
    48 <= b && b <= 57
}

/// Every byte of `s` is a digit.
pub open spec fn all_digits(s: Seq<u8>) -> bool {
    forall|i: int| 0 <= i < s.len() ==> is_digit(#[trigger] s[i])
}

/// The integer a digit run denotes, most significant digit first.
pub open spec fn digits_val(s: Seq<u8>) -> int
    decreases s.len(),
{
    if s.len() == 0 {
        0
    } else {
        digits_val(s.drop_last()) * 10 + (s.last() - 48)
    }
}

/// Length of the longest prefix of `s` without a decimal point.
pub open spec fn dot_free_len(s: Seq<u8>) -> int
    decreases s.len(),
{
    if s.len() > 0 && s[0] != 46 {
        1 + dot_free_len(s.skip(1))
    } else {
        0
    }
}

/// The number a token denotes, if any: an optional `+` or `-` sign,
/// then digits with at most one decimal point, at least one digit in
/// all, and both digit groups small enough for a `u64`. Any other
/// token denotes nothing.
pub open spec fn spec_parse_decimal(t: Seq<u8>) -> Option<Number> {
    let signed = t.len() > 0 && (t[0] == 43 || t[0] == 45);
    let neg = t.len() > 0 && t[0] == 45;
    let body = if signed {
        t.skip(1)
    } else {
        t
    };
    let d = dot_free_len(body);
    let ipd = body.take(d);
    let fpd = if d < body.len() {
        body.skip(d + 1)
    } else {
        Seq::<u8>::empty()
    };
    if all_digits(ipd) && all_digits(fpd) && ipd.len() + fpd.len() >= 1 && digits_val(ipd)
        <= u64::MAX && digits_val(fpd) <= u64::MAX {
        Some(
            Number {
                neg: neg,
                int_part: digits_val(ipd) as u64,
                frac_part: digits_val(fpd) as u64,
                frac_len: fpd.len() as usize,
            },
        )
    } else {
        None
    }
}

/// A digit run denotes a value no less than zero.
pub proof fn lemma_digits_val_nonneg(s: Seq<u8>)
    requires
        all_digits(s),
    ensures
        digits_val(s) >= 0,
    decreases s.len(),
{
    if s.len() > 0 {
        assert forall|i: int| 0 <= i < s.drop_last().len() implies is_digit(
            #[trigger] s.drop_last()[i],
        ) by {
            assert(s.drop_last()[i] == s[i]);
        }
        lemma_digits_val_nonneg(s.drop_last());
    }
}

/// A prefix of a digit run denotes no more than the whole run.
pub proof fn lemma_digits_val_prefix(s: Seq<u8>, i: int)
    requires
        all_digits(s),
        0 <= i <= s.len(),
    ensures
        digits_val(s.take(i)) <= digits_val(s),
    decreases s.len(),
{
    if i < s.len() {
        assert forall|j: int| 0 <= j < s.drop_last().len() implies is_digit(
            #[trigger] s.drop_last()[j],
        ) by {
            assert(s.drop_last()[j] == s[j]);
        }
        assert(s.take(i) =~= s.drop_last().take(i));
        lemma_digits_val_prefix(s.drop_last(), i);
        lemma_digits_val_nonneg(s.drop_last());
    } else {
        assert(s.take(i) =~= s);
    }
}

/// The position of the first decimal point, or the length when there
/// is none, determines `dot_free_len`.
proof fn lemma_dot_free(s: Seq<u8>, m: int)
    requires
        0 <= m <= s.len(),
        forall|k: int| 0 <= k < m ==> #[trigger] s[k] != 46,
        m < s.len() ==> s[m] == 46,
    ensures
        dot_free_len(s) == m,
    decreases s.len(),
{
    if m > 0 {
        lemma_dot_free(s.skip(1), m - 1);
    }
}

/// Parse the digit run `s[from..to]` as a `u64`; nothing when a byte is
/// not a digit or the value does not fit.
fn parse_digits(s: &Vec<u8>, from: usize, to: usize) -> (r: Option<u64>)
    requires
        from <= to && to <= s@.len(),
    ensures
        ({
            let d = s@.subrange(from as int, to as int);
            match r {
                Some(v) => all_digits(d) && v == digits_val(d),
                None => !(all_digits(d) && digits_val(d) <= u64::MAX),
            }
        }),
{
    let ghost d = s@.subrange(from as int, to as int);
    let mut val: u64 = 0;
    let mut j: usize = from;
    while j < to
        invariant
            from <= j <= to <= s@.len(),
            d == s@.subrange(from as int, to as int),
            all_digits(s@.subrange(from as int, j as int)),
            val == digits_val(s@.subrange(from as int, j as int)),
        decreases to - j,
    {
        let b = s[j];
        let ghost pre = s@.subrange(from as int, j as int);
        let ghost cur = s@.subrange(from as int, j as int + 1);
        proof {
            assert(cur.drop_last() =~= pre);
            assert(cur.last() == s@[j as int]);
        }
        if b < 48 || b > 57 {
            proof {
                assert(d[j - from] == s@[j as int]);
            }
            return None;
        }
        let dg = (b - 48) as u64;
        if val > (u64::MAX - dg) / 10 {
            proof {
                vstd::arithmetic::div_mod::lemma_fundamental_div_mod(
                    u64::MAX - dg as int,
                    10,
                );
                assert(digits_val(cur) > u64::MAX);
                if all_digits(d) {
                    assert(cur =~= d.take(j - from + 1));
                    lemma_digits_val_prefix(d, j - from + 1);
                }
            }
            return None;
        }
        proof {
            vstd::arithmetic::div_mod::lemma_fundamental_div_mod(u64::MAX - dg as int, 10);
            assert(val * 10 + dg <= u64::MAX);
        }
        val = val * 10 + dg;
        j += 1;
        proof {
            assert(cur =~= s@.subrange(from as int, j as int));
            assert forall|k: int| 0 <= k < cur.len() implies is_digit(#[trigger] cur[k]) by {
                if k < cur.len() - 1 {
                    assert(cur[k] == pre[k]);
                }
            }
        }
    }
    proof {
        assert(d =~= s@.subrange(from as int, j as int));
    }
    Some(val)
}

/// Parse a whole token as a decimal number, exactly as
/// `spec_parse_decimal` reads it.
pub fn parse_decimal(t: &Vec<u8>) -> (r: Option<Number>)
    ensures
        r == spec_parse_decimal(t@),
{
    let n = t.len();
    let signed = n > 0 && (t[0] == 43 || t[0] == 45);
    let neg = n > 0 && t[0] == 45;
    let start: usize = if signed {
        1
    } else {
        0
    };
    let ghost body = if signed {
        t@.skip(1)
    } else {
        t@
    };
    let mut dot: usize = start;
    while dot < n && t[dot] != 46
        invariant
            start <= dot <= n,
            n == t@.len(),
            forall|k: int| start <= k < dot ==> #[trigger] t@[k] != 46,
        decreases n - dot,
    {
        dot += 1;
    }
    proof {
        assert forall|k: int| 0 <= k < dot - start implies #[trigger] body[k] != 46 by {
            assert(body[k] == t@[k + start]);
        }
        assert(dot - start < body.len() ==> body[dot - start] == t@[dot as int]);
        lemma_dot_free(body, dot - start);
        assert(body.take(dot - start) =~= t@.subrange(start as int, dot as int));
    }
    let ip = match parse_digits(t, start, dot) {
        Some(v) => v,
        None => {
            return None;
        },
    };
    let (fr, fr_len): (u64, usize) = if dot < n {
        proof {
            assert(body.skip(dot - start + 1) =~= t@.subrange(dot as int + 1, n as int));
        }
        match parse_digits(t, dot + 1, n) {
            Some(v) => (v, n - (dot + 1)),
            None => {
                return None;
            },
        }
    } else {
        proof {
            assert(digits_val(Seq::<u8>::empty()) == 0);
        }
        (0u64, 0usize)
    };
    if dot - start == 0 && fr_len == 0 {
        return None;
    }
    proof {
        lemma_digits_val_nonneg(t@.subrange(start as int, dot as int));
    }
    Some(Number { neg, int_part: ip, frac_part: fr, frac_len: fr_len })
}

/// The decimal digit run of `v`, most significant digit first.
pub open spec fn dec_digits(v: nat) -> Seq<u8>
    decreases v,
{
    if v < 10 {
        seq![(48 + v) as u8]
    } else {
        dec_digits(v / 10).push((48 + v % 10) as u8)
    }
}

/// The text of one rendered numeric field, without its separator: a
/// minus sign when the truncated value is negative, then the decimal
/// digits of the integer part.
pub open spec fn spec_render_num(n: Number) -> Seq<u8> {
    (if n.neg && n.int_part > 0 {
        seq![45u8]
    } else {
        Seq::<u8>::empty()
    }) + dec_digits(n.int_part as nat)
}

/// The truncation toward zero that the text renderer applies to a
/// field; the sign survives only on a nonzero integer part.
pub open spec fn spec_truncate(n: Number) -> Number {
    Number { neg: n.neg && n.int_part > 0, int_part: n.int_part, frac_part: 0, frac_len: 0 }
}

/// Append the decimal digits of `v`.
pub fn push_decimal(out: &mut Vec<u8>, v: u64)
    ensures
        final(out)@ == old(out)@ + dec_digits(v as nat),
    decreases v,
{
    if v < 10 {
        out.push(48 + v as u8);
        proof {
            assert(out@ =~= old(out)@ + dec_digits(v as nat));
        }
    } else {
        push_decimal(out, v / 10);
        out.push(48 + (v % 10) as u8);
        proof {
            assert(out@ =~= old(out)@ + dec_digits(v as nat));
        }
    }
}

/// Append one rendered numeric field and its separating space.
pub fn push_field(out: &mut Vec<u8>, n: Number)
    ensures
        final(out)@ == old(out)@ + spec_render_num(n) + seq![32u8],
{
    if n.neg && n.int_part > 0 {
        out.push(45);
    }
    push_decimal(out, n.int_part);
    out.push(32);
    proof {
        assert(out@ =~= old(out)@ + spec_render_num(n) + seq![32u8]);
    }
}

/// The digits of a value are digits, at least one of them, and they
/// denote the value back.
pub proof fn lemma_dec_digits(v: nat)
    ensures
        all_digits(dec_digits(v)),
        dec_digits(v).len() >= 1,
        digits_val(dec_digits(v)) == v,
    decreases v,
{
    if v < 10 {
        let s = dec_digits(v);
        assert(s.drop_last() =~= Seq::<u8>::empty());
        assert(digits_val(s.drop_last()) == 0);
        assert(s.last() == (48 + v) as u8);
        assert(48 + v <= 57);
        assert(s.last() - 48 == v);
        assert(digits_val(s) == v);
    } else {
        lemma_dec_digits(v / 10);
        let s = dec_digits(v);
        let p = dec_digits(v / 10);
        assert(s.drop_last() =~= p);
        vstd::arithmetic::div_mod::lemma_fundamental_div_mod(v as int, 10);
        assert(0 <= v % 10 < 10);
        assert(s.last() == (48 + v % 10) as u8);
        assert(s.last() - 48 == v % 10);
        assert(s.len() > 0);
        assert(digits_val(s) == digits_val(s.drop_last()) * 10 + (s.last() - 48));
        assert(digits_val(s.drop_last()) == v / 10);
        assert((v / 10) * 10 + v % 10 == v);
        assert(digits_val(s) == v);
        assert forall|i: int| 0 <= i < s.len() implies is_digit(#[trigger] s[i]) by {
            if i < s.len() - 1 {
                assert(s[i] == p[i]);
            }
        }
    }
}

/// Re-parsing a rendered field's token recovers the truncated number:
/// the renderer is lossy only in dropping the fraction.
pub proof fn lemma_render_parse(n: Number)
    ensures
        spec_parse_decimal(spec_render_num(n)) == Some(spec_truncate(n)),
{
    lemma_dec_digits(n.int_part as nat);
    let t = spec_render_num(n);
    let dd = dec_digits(n.int_part as nat);
    if n.neg && n.int_part > 0 {
        assert(t =~= seq![45u8] + dd);
        assert(t[0] == 45);
        assert(t.skip(1) =~= dd);
    } else {
        assert(t =~= dd);
        assert(is_digit(t[0]));
    }
    let body = if t[0] == 43 || t[0] == 45 {
        t.skip(1)
    } else {
        t
    };
    assert(body =~= dd);
    assert forall|k: int| 0 <= k < body.len() implies #[trigger] body[k] != 46 by {
        assert(is_digit(body[k]));
    }
    lemma_dot_free(body, body.len() as int);
    assert(body.take(body.len() as int) =~= body);
    assert(digits_val(Seq::<u8>::empty()) == 0);
    assert(spec_parse_decimal(t) == Some(spec_truncate(n)));
}

} // verus!
