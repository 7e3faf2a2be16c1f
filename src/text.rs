//! Byte-level lexing shared by the encoders: decimal and hexadecimal
//! numerals, and whitespace trimming.

use vstd::prelude::*;

verus! {

/// An ASCII decimal digit.
pub open spec fn is_digit(b: u8) -> bool {
    48 <= b <= 57
}

pub open spec fn all_digits(s: Seq<u8>) -> bool {
    forall|i: int| 0 <= i < s.len() ==> is_digit(#[trigger] s[i])
}

/// The number that a run of decimal digits denotes.
pub open spec fn digits_value(s: Seq<u8>) -> nat
    decreases s.len(),
{
    if s.len() == 0 {
        0
    } else {
        digits_value(s.drop_last()) * 10 + (s.last() - 48) as nat
    }
}

/// A non-empty run of digits, read as a number.
pub open spec fn numeral(s: Seq<u8>) -> Option<nat> {
    if s.len() > 0 && all_digits(s) {
        Some(digits_value(s))
    } else {
        None
    }
}

/// An unsigned decimal as Rust's integer parsing reads it: an optional `+`,
/// then at least one digit, and nothing else.
pub open spec fn unsigned_text(s: Seq<u8>) -> Option<nat> {
    if s.len() > 0 && s[0] == 43u8 {
        numeral(s.drop_first())
    } else {
        numeral(s)
    }
}

/// A signed decimal as Rust's integer parsing reads it: an optional `+` or
/// `-`, then at least one digit, and nothing else.
pub open spec fn signed_text(s: Seq<u8>) -> Option<int> {
    if s.len() > 0 && s[0] == 45u8 {
        match numeral(s.drop_first()) {
            Some(v) => Some(-v),
            None => None,
        }
    } else {
        match unsigned_text(s) {
            Some(v) => Some(v as int),
            None => None,
        }
    }
}

proof fn lemma_digits_value_push(s: Seq<u8>, b: u8)
    ensures
        digits_value(s.push(b)) == digits_value(s) * 10 + (b - 48) as nat,
{
    assert(s.push(b).drop_last() =~= s);
}

/// Reads `s[start..]` as a numeral no larger than `limit`: `None` when it is
/// not a numeral or exceeds the limit.
pub fn parse_numeral(s: &[u8], start: usize, limit: u64) -> (r: Option<u64>)
    requires
        start <= s@.len(),
    ensures
        match numeral(s@.subrange(start as int, s@.len() as int)) {
            Some(v) => if v <= limit {
                r == Some(v as u64)
            } else {
                r is None
            },
            None => r is None,
        },
{
    let ghost t = s@.subrange(start as int, s@.len() as int);
    if start == s.len() {
        return None;
    }
    let mut v: u64 = 0;
    let mut over = false;
    let mut i = start;
    while i < s.len()
        invariant
            start <= i <= s@.len(),
            t == s@.subrange(start as int, s@.len() as int),
            all_digits(s@.subrange(start as int, i as int)),
            !over ==> v as nat == digits_value(s@.subrange(start as int, i as int)) && v <= limit,
            over ==> digits_value(s@.subrange(start as int, i as int)) > limit,
        decreases s@.len() - i,
    {
        let b = s[i];
        if b < 48 || b > 57 {
            assert(t[i - start] == b);
            return None;
        }
        let ghost p = s@.subrange(start as int, i as int);
        proof {
            assert(s@.subrange(start as int, i + 1) =~= p.push(b));
            lemma_digits_value_push(p, b);
        }
        let d = (b - 48) as u64;
        if !over {
            if limit < d || v > (limit - d) / 10 {
                over = true;
                assert(digits_value(p) * 10 + d > limit) by (nonlinear_arith)
                    requires limit < d || v > (limit - d) / 10, v == digits_value(p), d <= 9, limit >= 0;
            } else {
                assert(v * 10 + d <= limit) by (nonlinear_arith)
                    requires v <= (limit - d) / 10, d <= limit;
                v = v * 10 + d;
            }
        } else {
            assert(digits_value(p) * 10 + d >= digits_value(p)) by (nonlinear_arith);
        }
        i = i + 1;
    }
    assert(s@.subrange(start as int, i as int) =~= t);
    if over {
        None
    } else {
        Some(v)
    }
}


/// Reads all of `s` as an unsigned decimal no larger than `limit`.
pub fn parse_unsigned(s: &[u8], limit: u64) -> (r: Option<u64>)
    ensures
        match unsigned_text(s@) {
            Some(v) => if v <= limit {
                r == Some(v as u64)
            } else {
                r is None
            },
            None => r is None,
        },
{
    if s.len() > 0 && s[0] == 43u8 {
        assert(s@.subrange(1, s@.len() as int) =~= s@.drop_first());
        parse_numeral(s, 1, limit)
    } else {
        assert(s@.subrange(0, s@.len() as int) =~= s@);
        parse_numeral(s, 0, limit)
    }
}

/// Reads all of `s` as a signed decimal that fits in an `i64`, giving its
/// sign (`true` for negative) and magnitude.
pub fn parse_signed(s: &[u8]) -> (r: Option<(bool, u64)>)
    ensures
        match signed_text(s@) {
            Some(v) => if i64::MIN <= v <= i64::MAX {
                &&& r is Some
                &&& (r->0).0 == (v < 0)
                &&& (r->0).1 as int == if v < 0 { -v } else { v }
            } else {
                r is None
            },
            None => r is None,
        },
{
    if s.len() > 0 && s[0] == 45u8 {
        assert(s@.subrange(1, s@.len() as int) =~= s@.drop_first());
        match parse_numeral(s, 1, 0x8000_0000_0000_0000u64) {
            Some(m) => Some((m != 0, m)),
            None => None,
        }
    } else {
        match parse_unsigned(s, 0x7fff_ffff_ffff_ffffu64) {
            Some(m) => Some((false, m)),
            None => None,
        }
    }
}

/// Unicode `White_Space`, which `str::trim` removes.
pub open spec fn is_ws(c: char) -> bool {
    let u = c as u32;
    (9 <= u <= 13) || u == 32 || u == 133 || u == 160 || u == 5760 || (8192 <= u <= 8202) || u
        == 8232 || u == 8233 || u == 8239 || u == 8287 || u == 12288
}

/// How many whitespace characters `s` starts with.
pub open spec fn lead_ws(s: Seq<char>) -> nat
    decreases s.len(),
{
    if s.len() > 0 && is_ws(s[0]) {
        1 + lead_ws(s.drop_first())
    } else {
        0
    }
}

/// How many whitespace characters `s` ends with.
pub open spec fn trail_ws(s: Seq<char>) -> nat
    decreases s.len(),
{
    if s.len() > 0 && is_ws(s.last()) {
        1 + trail_ws(s.drop_last())
    } else {
        0
    }
}

/// `s` without its leading and trailing whitespace.
pub open spec fn trimmed(s: Seq<char>) -> Seq<char> {
    let t = s.subrange(lead_ws(s) as int, s.len() as int);
    t.subrange(0, t.len() - trail_ws(t))
}

proof fn lemma_lead_ws_le(s: Seq<char>)
    ensures
        lead_ws(s) <= s.len(),
    decreases s.len(),
{
    if s.len() > 0 && is_ws(s[0]) {
        lemma_lead_ws_le(s.drop_first());
    }
}

proof fn lemma_trail_ws_le(s: Seq<char>)
    ensures
        trail_ws(s) <= s.len(),
    decreases s.len(),
{
    if s.len() > 0 && is_ws(s.last()) {
        lemma_trail_ws_le(s.drop_last());
    }
}

fn char_is_ws(c: char) -> (r: bool)
    ensures
        r == is_ws(c),
{
    let u = c as u32;
    (9 <= u && u <= 13) || u == 32 || u == 133 || u == 160 || u == 5760 || (8192 <= u && u
        <= 8202) || u == 8232 || u == 8233 || u == 8239 || u == 8287 || u == 12288
}

/// The text without leading and trailing whitespace.
pub fn trim_text(s: &str) -> (r: &str)
    ensures
        r@ == trimmed(s@),
{
    let n = s.unicode_len();
    let mut i: usize = 0;
    assert(s@.subrange(0, n as int) =~= s@);
    while i < n && char_is_ws(s.get_char(i))
        invariant
            n == s@.len(),
            i <= n,
            lead_ws(s@) == i + lead_ws(s@.subrange(i as int, n as int)),
        decreases n - i,
    {
        assert(s@.subrange(i as int, n as int).drop_first() =~= s@.subrange(i + 1, n as int));
        i = i + 1;
    }
    let ghost t = s@.subrange(i as int, n as int);
    assert(lead_ws(s@) == i) by {
        if i < n {
            assert(!is_ws(t[0]));
        }
    }
    let mut j: usize = n;
    assert(t.subrange(0, n - i) =~= t);
    while j > i && char_is_ws(s.get_char(j - 1))
        invariant
            n == s@.len(),
            i <= j <= n,
            t == s@.subrange(i as int, n as int),
            trail_ws(t) == (n - j) + trail_ws(t.subrange(0, j - i)),
        decreases j,
    {
        assert(t.subrange(0, j - i).drop_last() =~= t.subrange(0, j - 1 - i));
        j = j - 1;
    }
    assert(trail_ws(t.subrange(0, j - i)) == 0) by {
        if j > i {
            assert(t.subrange(0, j - i).last() == s@[j - 1]);
        }
    }
    assert(t.subrange(0, t.len() - trail_ws(t)) =~= s@.subrange(i as int, j as int));
    s.substring_char(i, j)
}

} // verus!
