//! The scalar value encoder: from a declared tag and the text a user typed
//! to the content bytes that the tag's type requires.

use vstd::prelude::*;
use crate::text::{
    is_ws, lead_ws, trail_ws,
    is_digit, parse_unsigned, trim_text, trimmed, unsigned_text,
};
use vstd::utf8::encode_utf8;

verus! {

/// Why a text could not be encoded for its tag.
#[derive(Debug, Clone, Copy, PartialEq, Eq, Structural)]
pub enum EncodeError {
    InvalidBoolean,
    InvalidInteger,
    InvalidBitString,
    InvalidHex,
    InvalidNull,
    InvalidOid,
    InvalidReal,
    InvalidTimestamp,
    InvalidDuration,
    NonEmptyConstructed,
}

/// An encoder's result with the bytes seen as a sequence.
pub open spec fn out(r: Result<Vec<u8>, EncodeError>) -> Result<Seq<u8>, EncodeError> {
    match r {
        Ok(v) => Ok(v@),
        Err(e) => Err(e),
    }
}

/// The number that big-endian bytes denote.
pub open spec fn be_value(b: Seq<u8>) -> nat
    decreases b.len(),
{
    if b.len() == 0 {
        0
    } else {
        be_value(b.drop_last()) * 256 + b.last() as nat
    }
}

/// No leading zero byte (so zero is the empty sequence).
pub open spec fn minimal_be(b: Seq<u8>) -> bool {
    b.len() > 0 ==> b[0] != 0
}

/// The bytes of `m` from the low end: take the low byte and shift it away
/// until nothing is left; most significant first.
pub open spec fn magnitude_bytes(m: nat) -> Seq<u8>
    decreases m,
{
    if m == 0 {
        Seq::empty()
    } else {
        magnitude_bytes(m / 256).push((m % 256) as u8)
    }
}

/// The magnitude bytes read back as a big-endian number give the number,
/// and they have no leading zero.
pub proof fn lemma_magnitude_round_trip(m: nat)
    ensures
        be_value(magnitude_bytes(m)) == m,
        minimal_be(magnitude_bytes(m)),
    decreases m,
{
    if m > 0 {
        lemma_magnitude_round_trip(m / 256);
        assert(magnitude_bytes(m).drop_last() =~= magnitude_bytes(m / 256));
    }
}

/// The minimal big-endian bytes of `m`: low byte taken and shifted away
/// until nothing is left, then reversed.
pub fn in_to_byt(m: u64) -> (r: Vec<u8>)
    ensures
        r@ == magnitude_bytes(m as nat),
        be_value(r@) == m,
        minimal_be(r@),
    decreases m,
{
    if m == 0 {
        Vec::new()
    } else {
        let mut r = in_to_byt(m / 256);
        r.push((m % 256) as u8);
        proof {
            lemma_magnitude_round_trip(m as nat);
        }
        r
    }
}

/// The value of one hexadecimal digit, either case.
pub open spec fn hex_val(b: u8) -> Option<nat> {
    if 48 <= b <= 57 {
        Some((b - 48) as nat)
    } else if 97 <= b <= 102 {
        Some((b - 87) as nat)
    } else if 65 <= b <= 70 {
        Some((b - 55) as nat)
    } else {
        None
    }
}

pub open spec fn all_hex(s: Seq<u8>) -> bool {
    forall|i: int| 0 <= i < s.len() ==> (#[trigger] hex_val(s[i])) is Some
}

/// The bytes that an even number of hex digits spell, two digits a byte.
pub open spec fn hex_bytes(d: Seq<u8>) -> Seq<u8> {
    Seq::new(
        d.len() / 2,
        |i: int| (16 * hex_val(d[2 * i])->0 + hex_val(d[2 * i + 1])->0) as u8,
    )
}

/// Drops a leading `0x`.
pub open spec fn strip_0x(s: Seq<u8>) -> Seq<u8> {
    if s.len() >= 2 && s[0] == 48u8 && s[1] == 120u8 {
        s.subrange(2, s.len() as int)
    } else {
        s
    }
}

/// Prepends a `0` to an odd number of digits.
pub open spec fn pad_even(s: Seq<u8>) -> Seq<u8> {
    if s.len() % 2 == 1 {
        seq![48u8] + s
    } else {
        s
    }
}

/// The hex digits that an octet-string text holds: trimmed, without `0x`,
/// padded to an even count.
pub open spec fn hex_digits_of(text: Seq<char>) -> Seq<u8> {
    pad_even(strip_0x(encode_utf8(trimmed(text))))
}

fn hex_digit(b: u8) -> (r: Option<u8>)
    ensures
        match hex_val(b) {
            Some(v) => r == Some(v as u8),
            None => r is None,
        },
{
    if 48 <= b && b <= 57 {
        Some(b - 48)
    } else if 97 <= b && b <= 102 {
        Some(b - 87)
    } else if 65 <= b && b <= 70 {
        Some(b - 55)
    } else {
        None
    }
}

/// Decodes a hex text: surrounding whitespace and a `0x` prefix are dropped,
/// an odd count of digits gets a leading zero.
pub fn parse_string_as_hex(value: &str) -> (r: Result<Vec<u8>, EncodeError>)
    ensures
        out(r) == if all_hex(hex_digits_of(value@)) {
            Ok(hex_bytes(hex_digits_of(value@)))
        } else {
            Err(EncodeError::InvalidHex)
        },
{
    let t = trim_text(value);
    let b = t.as_bytes();
    let ghost d = hex_digits_of(value@);
    let start: usize = if b.len() >= 2 && b[0] == 48u8 && b[1] == 120u8 {
        2
    } else {
        0
    };
    let odd = (b.len() - start) % 2 == 1;
    let ghost body = b@.subrange(start as int, b@.len() as int);
    assert(body =~= strip_0x(b@));
    let mut ret: Vec<u8> = Vec::new();
    let mut i: usize = start;
    let mut hi: Option<u8> = if odd {
        Some(0)
    } else {
        None
    };
    let ghost off: int = if odd { 1 } else { 0 };
    assert(d =~= if odd { seq![48u8] + body } else { body });
    while i < b.len()
        invariant
            start <= i <= b@.len(),
            body == b@.subrange(start as int, b@.len() as int),
            d == if odd { seq![48u8] + body } else { body },
            d == hex_digits_of(value@),
            off == if odd { 1int } else { 0int },
            d.len() == body.len() + off,
            d.len() % 2 == 0,
            (i - start + off) % 2 == 1 <==> hi is Some,
            forall|k: int| 0 <= k < i - start + off ==> (#[trigger] hex_val(d[k])) is Some,
            hi is Some ==> hi->0 as nat == hex_val(d[i - start + off - 1])->0,
            ret@.len() == (i - start + off) / 2,
            forall|k: int|
                0 <= k < ret@.len() ==> ret@[k] == (#[trigger] hex_bytes(d)[k]),
        decreases b@.len() - i,
    {
        let ghost pos = i - start + off;
        assert(d[pos] == b@[i as int]);
        match hex_digit(b[i]) {
            None => {
                assert(hex_val(d[pos]) is None);
                assert(!all_hex(d));
                return Err(EncodeError::InvalidHex);
            },
            Some(v) => match hi {
                None => {
                    hi = Some(v);
                },
                Some(h) => {
                    assert(16 * h + v <= 255) by (nonlinear_arith)
                        requires h <= 15, v <= 15;
                    ret.push(16 * h + v);
                    hi = None;
                    assert(2 * ((pos - 1) / 2) == pos - 1);
                    assert(ret@.last() == hex_bytes(d)[(pos - 1) / 2]);
                },
            },
        }
        i = i + 1;
    }
    assert(ret@ =~= hex_bytes(d));
    Ok(ret)
}


/// Every byte is `0` or `1`.
pub open spec fn is_bit_text(s: Seq<u8>) -> bool {
    forall|i: int| 0 <= i < s.len() ==> (#[trigger] s[i] == 48u8 || s[i] == 49u8)
}

/// Bit `i` of a bit text; positions past its end read as zero.
pub open spec fn bit(s: Seq<u8>, i: int) -> nat {
    if 0 <= i < s.len() && s[i] == 49u8 {
        1
    } else {
        0
    }
}

pub open spec fn pow2(n: nat) -> nat
    decreases n,
{
    if n == 0 {
        1
    } else {
        2 * pow2((n - 1) as nat)
    }
}

/// The `n` bits from `start` on, most significant first, as a number.
pub open spec fn pack_bits(s: Seq<u8>, start: int, n: nat) -> nat
    decreases n,
{
    if n == 0 {
        0
    } else {
        2 * pack_bits(s, start, (n - 1) as nat) + bit(s, start + n - 1)
    }
}

/// How many zero bits fill up the last byte of `len` bits.
pub open spec fn bit_padding(len: nat) -> nat {
    ((8 - len % 8) % 8) as nat
}

/// A bit string's content: the padding count, then the bits packed eight
/// to a byte, most significant first, the last byte filled with zeros.
pub open spec fn bit_string_bytes(s: Seq<u8>) -> Seq<u8> {
    seq![bit_padding(s.len()) as u8] + Seq::new(
        (s.len() + 7) / 8,
        |k: int| pack_bits(s, 8 * k, 8) as u8,
    )
}

/// Bit `i` of packed bytes, counted from the most significant bit of the
/// first byte.
pub open spec fn packed_bit(b: Seq<u8>, i: int) -> nat {
    (b[i / 8] as nat / pow2((7 - i % 8) as nat)) % 2
}

proof fn lemma_pack_bits_bound(s: Seq<u8>, start: int, n: nat)
    ensures
        pack_bits(s, start, n) < pow2(n),
    decreases n,
{
    if n > 0 {
        lemma_pack_bits_bound(s, start, (n - 1) as nat);
    }
}

proof fn lemma_pow2_pos(n: nat)
    ensures
        pow2(n) > 0,
    decreases n,
{
    if n > 0 {
        lemma_pow2_pos((n - 1) as nat);
    }
}

proof fn lemma_pack_bits_get(s: Seq<u8>, start: int, n: nat, j: nat)
    requires
        j < n,
    ensures
        (pack_bits(s, start, n) / pow2((n - 1 - j) as nat)) % 2 == bit(s, start + j),
    decreases n,
{
    let x = pack_bits(s, start, (n - 1) as nat);
    let b = bit(s, start + n - 1);
    assert(pack_bits(s, start, n) == 2 * x + b);
    if j == n - 1 {
        assert(pow2(0) == 1);
        assert((2 * x + b) % 2 == b) by (nonlinear_arith)
            requires b < 2;
        assert((2 * x + b) / 1 == 2 * x + b);
    } else {
        let m = pow2((n - 2 - j) as nat);
        lemma_pow2_pos((n - 2 - j) as nat);
        assert(pow2((n - 1 - j) as nat) == 2 * m);
        assert((2 * x + b) / 2 == x) by (nonlinear_arith)
            requires b < 2;
        vstd::arithmetic::div_mod::lemma_div_denominator((2 * x + b) as int, 2, m as int);
        assert((2 * x + b) / pow2((n - 1 - j) as nat) == x / m);
        lemma_pack_bits_get(s, start, (n - 1) as nat, j);
        assert((n - 1 - 1 - j) as nat == (n - 2 - j) as nat);
    }
}

/// Decoding an encoded bit string gives back exactly its bits: the first
/// byte is the padding count `(8 - L mod 8) mod 8`, and bit `i` of the
/// packed bytes is bit `i` of the text for every `i < L`; the padding bits
/// after them are zero.
pub proof fn lemma_bit_string_round_trip(s: Seq<u8>)
    requires
        is_bit_text(s),
    ensures
        bit_string_bytes(s).len() == 1 + (s.len() + 7) / 8,
        bit_string_bytes(s)[0] as nat == bit_padding(s.len()),
        forall|i: int|
            0 <= i < s.len() ==> #[trigger] packed_bit(bit_string_bytes(s).drop_first(), i) == (
            s[i] == 49u8) as nat,
        forall|i: int|
            s.len() <= i < 8 * ((s.len() + 7) / 8) ==> #[trigger] packed_bit(
                bit_string_bytes(s).drop_first(),
                i,
            ) == 0,
{
    let e = bit_string_bytes(s);
    assert forall|i: int| 0 <= i < s.len() implies #[trigger] packed_bit(e.drop_first(), i) == (
    s[i] == 49u8) as nat by {
        let k = i / 8;
        let j = i % 8;
        lemma_pack_bits_bound(s, 8 * k, 8);
        assert(pow2(8) == 256) by {
            reveal_with_fuel(pow2, 9);
        }
        assert(e.drop_first()[k] as nat == pack_bits(s, 8 * k, 8));
        lemma_pack_bits_get(s, 8 * k, 8, j as nat);
        assert(8 * k + j == i);
    }
    assert forall|i: int| s.len() <= i < 8 * ((s.len() + 7) / 8) implies #[trigger] packed_bit(e.drop_first(), i) == 0 by {
        let k = i / 8;
        let j = i % 8;
        lemma_pack_bits_bound(s, 8 * k, 8);
        assert(pow2(8) == 256) by {
            reveal_with_fuel(pow2, 9);
        }
        assert(k < (s.len() + 7) / 8);
        assert(e.drop_first()[k] as nat == pack_bits(s, 8 * k, 8));
        lemma_pack_bits_get(s, 8 * k, 8, j as nat);
        assert(8 * k + j == i);
    }
}

/// Packs a text of `0` and `1` into bit-string content.
pub fn encode_bit_string(s: &[u8]) -> (r: Result<Vec<u8>, EncodeError>)
    ensures
        out(r) == if is_bit_text(s@) {
            Ok(bit_string_bytes(s@))
        } else {
            Err(EncodeError::InvalidBitString)
        },
{
    let n = s.len();
    let nbytes = n / 8 + if n % 8 == 0 {
        0usize
    } else {
        1usize
    };
    let pad = ((8 - n % 8) % 8) as u8;
    let mut ret: Vec<u8> = vec![pad];
    let mut k: usize = 0;
    while k < nbytes
        invariant
            n == s@.len(),
            nbytes == (n + 7) / 8,
            k <= nbytes,
            ret@.len() == 1 + k,
            ret@[0] as nat == bit_padding(n as nat),
            forall|q: int| 0 <= q < 8 * k && q < n ==> (#[trigger] s@[q] == 48u8 || s@[q] == 49u8),
            forall|q: int| 0 <= q < k ==> ret@[q + 1] == (#[trigger] pack_bits(s@, 8 * q, 8)) as u8,
        decreases nbytes - k,
    {
        let mut acc: u8 = 0;
        let mut j: usize = 0;
        while j < 8
            invariant
                n == s@.len(),
                k < nbytes,
                nbytes == (n + 7) / 8,
                j <= 8,
                acc as nat == pack_bits(s@, 8 * k, j as nat),
                forall|q: int| 0 <= q < 8 * k + j && q < n ==> (#[trigger] s@[q] == 48u8 || s@[q] == 49u8),
            decreases 8 - j,
        {
            let pos = 8 * k + j;
            proof {
                lemma_pack_bits_bound(s@, 8 * k, j as nat);
                assert(pow2(j as nat) <= 128) by {
                    reveal_with_fuel(pow2, 8);
                }
            }
            let mut b: u8 = 0;
            if pos < n {
                let c = s[pos];
                if c != 48u8 && c != 49u8 {
                    assert(!(s@[pos as int] == 48u8 || s@[pos as int] == 49u8));
                    return Err(EncodeError::InvalidBitString);
                }
                if c == 49u8 {
                    b = 1;
                }
            }
            acc = 2 * acc + b;
            j = j + 1;
        }
        ret.push(acc);
        k = k + 1;
    }
    assert(ret@ =~= bit_string_bytes(s@));
    Ok(ret)
}


/// The pieces of `s` between dots (one piece when there is no dot).
pub open spec fn split_dots(s: Seq<u8>) -> Seq<Seq<u8>>
    decreases s.len(),
{
    if s.len() == 0 {
        seq![Seq::empty()]
    } else {
        let p = split_dots(s.drop_last());
        if s.last() == 46u8 {
            p.push(Seq::empty())
        } else {
            p.update(p.len() - 1, p.last().push(s.last()))
        }
    }
}

proof fn lemma_split_dots_len(s: Seq<u8>)
    ensures
        split_dots(s).len() >= 1,
    decreases s.len(),
{
    if s.len() > 0 {
        lemma_split_dots_len(s.drop_last());
    }
}

proof fn lemma_split_dots_prefix(s: Seq<u8>, j: int)
    requires
        0 <= j <= s.len(),
    ensures
        split_dots(s.subrange(0, j)).len() <= split_dots(s).len(),
        forall|m: int|
            0 <= m < split_dots(s.subrange(0, j)).len() - 1 ==> #[trigger] split_dots(s)[m]
                == split_dots(s.subrange(0, j))[m],
    decreases s.len(),
{
    if j == s.len() {
        assert(s.subrange(0, j) =~= s);
    } else {
        let d = s.drop_last();
        assert(d.subrange(0, j) =~= s.subrange(0, j));
        lemma_split_dots_prefix(d, j);
        lemma_split_dots_len(d);
    }
}

/// A piece read as an arc number: an unsigned decimal that fits in 32 bits.
pub open spec fn arc_number(p: Seq<u8>) -> Option<nat> {
    match unsigned_text(p) {
        Some(v) => if v <= u32::MAX {
            Some(v)
        } else {
            None
        },
        None => None,
    }
}

/// Every piece is an arc number.
pub open spec fn all_arcs(ps: Seq<Seq<u8>>) -> bool {
    forall|i: int| 0 <= i < ps.len() ==> (#[trigger] arc_number(ps[i])) is Some
}

/// The base-128 digits of `w`, most significant first, each with the
/// continuation bit set.
pub open spec fn arc_high(w: nat) -> Seq<u8>
    decreases w,
{
    if w == 0 {
        Seq::empty()
    } else {
        arc_high(w / 128).push((w % 128 + 128) as u8)
    }
}

/// One arc after the first two: a single byte below 128, else base-128
/// digits with the continuation bit on all but the last.
pub open spec fn oid_arc(v: nat) -> Seq<u8> {
    if v < 128 {
        seq![v as u8]
    } else {
        arc_high(v / 128).push((v % 128) as u8)
    }
}

/// The arcs of `c`, one after another.
pub open spec fn oid_arcs(c: Seq<nat>) -> Seq<u8>
    decreases c.len(),
{
    if c.len() == 0 {
        Seq::empty()
    } else {
        oid_arcs(c.drop_last()) + oid_arc(c.last())
    }
}

/// The arc numbers of a dotted text.
pub open spec fn oid_numbers(text: Seq<char>) -> Seq<nat> {
    split_dots(encode_utf8(trimmed(text))).map_values(|p: Seq<u8>| arc_number(p)->0)
}

/// A dotted text names an identifier: every piece is an arc number and
/// there are at least three.
pub open spec fn oid_ok(text: Seq<char>) -> bool {
    let ps = split_dots(encode_utf8(trimmed(text)));
    all_arcs(ps) && ps.len() >= 3
}

/// The first subidentifier `v = 40 * c0 + c1`: one byte `v` while it fits
/// in a byte; beyond 255 it cannot, and is written in base-128 groups as the
/// other arcs are.
pub open spec fn first_sub(v: nat) -> Seq<u8> {
    if v <= 255 {
        seq![v as u8]
    } else {
        oid_arc(v)
    }
}

/// The BER content of an identifier with arcs `c`: the first subidentifier,
/// then the remaining arcs.
pub open spec fn oid_bytes(c: Seq<nat>) -> Seq<u8> {
    first_sub(40 * c[0] + c[1]) + oid_arcs(c.subrange(2, c.len() as int))
}

fn push_arc_high(out: &mut Vec<u8>, w: u64)
    ensures
        final(out)@ == old(out)@ + arc_high(w as nat),
    decreases w,
{
    if w > 0 {
        push_arc_high(out, w / 128);
        out.push((w % 128 + 128) as u8);
    } else {
        assert(old(out)@ + arc_high(0) =~= old(out)@);
    }
}

fn push_arc(out: &mut Vec<u8>, v: u64)
    ensures
        final(out)@ == old(out)@ + oid_arc(v as nat),
{
    if v < 128 {
        out.push(v as u8);
    } else {
        push_arc_high(out, v / 128);
        out.push((v % 128) as u8);
    }
}

/// The BER content of a dotted identifier text such as `1.2.840.113549`;
/// empty when the text is not one (see `oid_ok`).
pub fn encode_oid_from_string(oid_str: &str) -> (r: Vec<u8>)
    ensures
        oid_ok(oid_str@) ==> r@ == oid_bytes(oid_numbers(oid_str@)),
        !oid_ok(oid_str@) ==> r@.len() == 0,
{
    let t = trim_text(oid_str);
    let s = t.as_bytes();
    let ghost full = s@;
    let mut vals: Vec<u32> = Vec::new();
    let mut start: usize = 0;
    let mut i: usize = 0;
    let ghost mut done: Seq<Seq<u8>> = Seq::empty();
    assert(s@.subrange(0, 0) =~= Seq::<u8>::empty());
    assert(split_dots(Seq::<u8>::empty()) =~= done.push(Seq::<u8>::empty()));
    let mut last = false;
    while !last
        invariant
            full == s@,
            s@ == encode_utf8(trimmed(oid_str@)),
            start <= i <= s@.len(),
            !last ==> split_dots(s@.subrange(0, i as int)) == done.push(
                s@.subrange(start as int, i as int),
            ),
            last ==> split_dots(s@) == done,
            vals@.len() == done.len(),
            all_arcs(done),
            forall|k: int| 0 <= k < done.len() ==> vals@[k] as nat == (#[trigger] arc_number(done[k]))->0,
        decreases s@.len() - i + if last { 0int } else { 1int },
    {
        if i == s.len() || s[i] == 46u8 {
            let piece = vstd::slice::slice_subrange(s, start, i);
            match parse_unsigned(piece, 0xffff_ffffu64) {
                None => {
                    proof {
                        let ps = split_dots(s@);
                        lemma_split_dots_len(s@.subrange(0, i as int));
                        if i < s@.len() {
                            assert(s@.subrange(0, i + 1).drop_last() =~= s@.subrange(0, i as int));
                            assert(split_dots(s@.subrange(0, i + 1)) == done.push(piece@).push(Seq::empty()));
                            lemma_split_dots_prefix(s@, i + 1);
                            assert(ps[done.len() as int] == piece@);
                        } else {
                            assert(s@.subrange(0, i as int) =~= s@);
                            assert(ps[done.len() as int] == piece@);
                        }
                        assert(arc_number(ps[done.len() as int]) is None);
                        assert(!all_arcs(ps));
                    }
                    return Vec::new();
                },
                Some(v) => {
                    let ghost d0 = done;
                    vals.push(v as u32);
                    proof {
                        done = done.push(piece@);
                        assert forall|k: int| 0 <= k < done.len() implies (#[trigger] arc_number(done[k])) is Some by {
                            if k < d0.len() {
                                assert(done[k] == d0[k]);
                            }
                        }
                        if i < s@.len() {
                            assert(s@.subrange(0, i + 1).drop_last() =~= s@.subrange(0, i as int));
                            assert(s@.subrange(i + 1, i + 1) =~= Seq::<u8>::empty());
                        } else {
                            assert(s@.subrange(0, i as int) =~= s@);
                        }
                    }
                    if i == s.len() {
                        last = true;
                    } else {
                        start = i + 1;
                        i = i + 1;
                    }
                },
            }
        } else {
            proof {
                assert(s@.subrange(0, i + 1).drop_last() =~= s@.subrange(0, i as int));
                assert(s@.subrange(start as int, i + 1) =~= s@.subrange(start as int, i as int).push(s@[i as int]));
            }
            i = i + 1;
        }
    }
    let ghost c = oid_numbers(oid_str@);
    assert(vals@.len() == c.len());
    if vals.len() < 3 {
        return Vec::new();
    }
    let first = 40 * (vals[0] as u64) + vals[1] as u64;
    let mut encoded: Vec<u8> = Vec::new();
    if first <= 255 {
        encoded.push(first as u8);
    } else {
        push_arc(&mut encoded, first);
    }
    assert(encoded@ =~= first_sub(40 * c[0] + c[1]));
    let mut k: usize = 2;
    while k < vals.len()
        invariant
            2 <= k <= vals@.len(),
            c.len() == vals@.len(),
            forall|q: int| 0 <= q < c.len() ==> vals@[q] as nat == #[trigger] c[q],
            encoded@ == first_sub(40 * c[0] + c[1]) + oid_arcs(c.subrange(2, k as int)),
        decreases vals@.len() - k,
    {
        push_arc(&mut encoded, vals[k] as u64);
        assert(c.subrange(2, k + 1).drop_last() =~= c.subrange(2, k as int));
        k = k + 1;
    }
    assert(c.subrange(2, k as int) =~= c.subrange(2, c.len() as int));
    encoded
}


/// How many digits stand in `s` from `i` on.
pub open spec fn digit_run(s: Seq<u8>, i: int) -> nat
    decreases s.len() - i,
{
    if 0 <= i < s.len() && is_digit(s[i]) {
        1 + digit_run(s, i + 1)
    } else {
        0
    }
}

/// Which of the six duration fields (years, months, days, hours, minutes,
/// seconds) a designator letter closes, before or after the `T`.
pub open spec fn designator_slot(b: u8, in_time: bool) -> Option<nat> {
    if !in_time {
        if b == 89u8 {
            Some(0)
        } else if b == 77u8 {
            Some(1)
        } else if b == 68u8 {
            Some(2)
        } else {
            None
        }
    } else {
        if b == 72u8 {
            Some(3)
        } else if b == 77u8 {
            Some(4)
        } else if b == 83u8 {
            Some(5)
        } else {
            None
        }
    }
}

/// Reads the rest of a duration from `i` on: groups of digits closed by a
/// designator, in the order `Y M D`, then optionally `T` and `H M S`, each
/// at most once. `next` is the first field still allowed; `vals` holds the
/// digits of each field read so far.
pub open spec fn dur_scan(s: Seq<u8>, i: int, next: nat, in_time: bool, vals: Seq<Seq<u8>>) -> Option<
    Seq<Seq<u8>>,
>
    decreases s.len() - i, 1int,
{
    if i >= s.len() || i < 0 {
        Some(vals)
    } else if !in_time && s[i] == 84u8 {
        dur_scan(s, i + 1, 3, true, vals)
    } else {
        let j = i + digit_run(s, i);
        if j == i || j >= s.len() {
            None
        } else {
            match designator_slot(s[j], in_time) {
                Some(k) => if k >= next {
                    dur_scan(s, j + 1, k + 1, in_time, vals.update(k as int, s.subrange(i, j)))
                } else {
                    None
                },
                None => None,
            }
        }
    }
}

/// The digits of the six fields of an ISO-8601 duration
/// `P[nY][nM][nD][T[nH][nM][nS]]`, absent ones empty; `None` when the text
/// does not have that form.
pub open spec fn duration_fields(s: Seq<u8>) -> Option<Seq<Seq<u8>>> {
    if s.len() > 0 && s[0] == 80u8 {
        dur_scan(s, 1, 0, false, seq![Seq::empty(), Seq::empty(), Seq::empty(), Seq::empty(), Seq::empty(), Seq::empty()])
    } else {
        None
    }
}

/// Digits without their leading zeros (empty for zero).
pub open spec fn strip_zeros(d: Seq<u8>) -> Seq<u8>
    decreases d.len(),
{
    if d.len() > 0 && d[0] == 48u8 {
        strip_zeros(d.drop_first())
    } else {
        d
    }
}

/// The decimal digits of `n`.
pub open spec fn dec(n: nat) -> Seq<u8>
    decreases n,
{
    if n < 10 {
        seq![(48 + n) as u8]
    } else {
        dec(n / 10).push((48 + n % 10) as u8)
    }
}

/// A field's number and its designator, or nothing when it is zero.
pub open spec fn dur_part(d: Seq<u8>, letter: u8) -> Seq<u8> {
    if strip_zeros(d).len() > 0 {
        strip_zeros(d).push(letter)
    } else {
        Seq::empty()
    }
}

/// The canonical rendering of duration fields: the non-zero date fields,
/// then `T` and the non-zero time fields if there are any.
pub open spec fn dur_text(v: Seq<Seq<u8>>) -> Seq<u8> {
    dur_part(v[0], 89u8) + dur_part(v[1], 77u8) + dur_part(v[2], 68u8) + if strip_zeros(v[3]).len() > 0
        || strip_zeros(v[4]).len() > 0 || strip_zeros(v[5]).len() > 0 {
        seq![84u8] + dur_part(v[3], 72u8) + dur_part(v[4], 77u8) + dur_part(v[5], 83u8)
    } else {
        Seq::empty()
    }
}

/// The encoded duration: the two tag bytes `1F 22`, the one-byte length,
/// the text.
pub open spec fn duration_bytes(v: Seq<Seq<u8>>) -> Seq<u8> {
    seq![0x1Fu8, 0x22u8, dur_text(v).len() as u8] + dur_text(v)
}

/// What a duration text encodes to: its bytes when it has the duration
/// form and its rendering fits the one-byte length, else `InvalidDuration`.
pub open spec fn duration_result(s: Seq<u8>) -> Result<Seq<u8>, EncodeError> {
    match duration_fields(s) {
        Some(v) => if dur_text(v).len() <= 255 {
            Ok(duration_bytes(v))
        } else {
            Err(EncodeError::InvalidDuration)
        },
        None => Err(EncodeError::InvalidDuration),
    }
}

pub(crate) fn push_dec(out: &mut Vec<u8>, n: u32)
    ensures
        final(out)@ == old(out)@ + dec(n as nat),
    decreases n,
{
    if n < 10 {
        out.push(48 + n as u8);
        assert(old(out)@ + dec(n as nat) =~= old(out)@.push((48 + n) as u8));
    } else {
        push_dec(out, n / 10);
        out.push(48 + (n % 10) as u8);
        assert(old(out)@ + dec(n as nat) =~= old(out)@ + dec((n / 10) as nat) + seq![(48 + n % 10) as u8]);
    }
}

/// Where the digits `s[a..b]` start once their leading zeros are skipped.
fn skip_zeros(s: &[u8], a: usize, b: usize) -> (r: usize)
    requires
        a <= b <= s@.len(),
    ensures
        a <= r <= b,
        s@.subrange(r as int, b as int) == strip_zeros(s@.subrange(a as int, b as int)),
{
    let mut i = a;
    while i < b && s[i] == 48u8
        invariant
            a <= i <= b <= s@.len(),
            strip_zeros(s@.subrange(i as int, b as int)) == strip_zeros(s@.subrange(a as int, b as int)),
        decreases b - i,
    {
        assert(s@.subrange(i as int, b as int).drop_first() =~= s@.subrange(i + 1, b as int));
        i = i + 1;
    }
    if i < b {
        assert(s@.subrange(i as int, b as int)[0] == s@[i as int]);
    }
    i
}

fn push_part(out: &mut Vec<u8>, s: &[u8], a: usize, b: usize, letter: u8)
    requires
        a <= b <= s@.len(),
    ensures
        final(out)@ == old(out)@ + dur_part(s@.subrange(a as int, b as int), letter),
{
    let z = skip_zeros(s, a, b);
    if z < b {
        let mut i = z;
        while i < b
            invariant
                z <= i <= b <= s@.len(),
                out@ == old(out)@ + s@.subrange(z as int, i as int),
            decreases b - i,
        {
            out.push(s[i]);
            assert(out@ =~= old(out)@ + s@.subrange(z as int, i + 1));
            i = i + 1;
        }
        out.push(letter);
        assert(out@ =~= old(out)@ + dur_part(s@.subrange(a as int, b as int), letter));
    } else {
        assert(old(out)@ + dur_part(s@.subrange(a as int, b as int), letter) =~= old(out)@);
    }
}

fn slot_of(b: u8, in_time: bool) -> (r: Option<usize>)
    ensures
        match designator_slot(b, in_time) {
            Some(k) => r == Some(k as usize),
            None => r is None,
        },
{
    if !in_time {
        if b == 89u8 {
            Some(0)
        } else if b == 77u8 {
            Some(1)
        } else if b == 68u8 {
            Some(2)
        } else {
            None
        }
    } else {
        if b == 72u8 {
            Some(3)
        } else if b == 77u8 {
            Some(4)
        } else if b == 83u8 {
            Some(5)
        } else {
            None
        }
    }
}

/// Encodes an ISO-8601 duration such as `P1Y2M3DT4H5M6S`.
pub fn encode_duration_iso8601(value: &str) -> (r: Result<Vec<u8>, EncodeError>)
    ensures
        out(r) == duration_result(encode_utf8(value@)),
{
    let s = value.as_bytes();
    if s.len() == 0 || s[0] != 80u8 {
        return Err(EncodeError::InvalidDuration);
    }
    let mut starts: Vec<usize> = vec![0usize, 0usize, 0usize, 0usize, 0usize, 0usize];
    let mut ends: Vec<usize> = vec![0usize, 0usize, 0usize, 0usize, 0usize, 0usize];
    let ghost init: Seq<Seq<u8>> = seq![Seq::empty(), Seq::empty(), Seq::empty(), Seq::empty(), Seq::empty(), Seq::empty()];
    let ghost mut gv: Seq<Seq<u8>> = init;
    assert forall|q: int| #![trigger gv[q]] 0 <= q < 6 implies gv[q] == s@.subrange(starts@[q] as int, ends@[q] as int) && starts@[q] <= ends@[q] by {
        assert(s@.subrange(0, 0) =~= Seq::<u8>::empty());
    }
    let mut i: usize = 1;
    let mut next: usize = 0;
    let mut in_time = false;
    while i < s.len()
        invariant
            1 <= i <= s@.len(),
            s@ == encode_utf8(value@),
            s@[0] == 80u8,
            next <= 6,
            gv.len() == 6,
            starts@.len() == 6,
            ends@.len() == 6,
            forall|q: int| #![trigger gv[q]] #![trigger starts@[q]] #![trigger ends@[q]] 0 <= q < 6 ==> starts@[q] <= ends@[q] <= s@.len() && gv[q] == s@.subrange(starts@[q] as int, ends@[q] as int),
            duration_fields(s@) == dur_scan(s@, i as int, next as nat, in_time, gv),
        decreases s@.len() - i,
    {
        if !in_time && s[i] == 84u8 {
            in_time = true;
            next = 3;
            i = i + 1;
        } else {
            let mut j = i;
            while j < s.len() && s[j] >= 48u8 && s[j] <= 57u8
                invariant
                    1 <= i <= j <= s@.len(),
                    digit_run(s@, i as int) == (j - i) + digit_run(s@, j as int),
                    s@ == encode_utf8(value@),
                    next <= 6,
                    gv.len() == 6,
                    starts@.len() == 6,
                    ends@.len() == 6,
                    forall|q: int| #![trigger gv[q]] #![trigger starts@[q]] #![trigger ends@[q]] 0 <= q < 6 ==> starts@[q] <= ends@[q] <= s@.len() && gv[q] == s@.subrange(starts@[q] as int, ends@[q] as int),
                    duration_fields(s@) == dur_scan(s@, i as int, next as nat, in_time, gv),
                decreases s@.len() - j,
            {
                j = j + 1;
            }
            if j == i || j >= s.len() {
                return Err(EncodeError::InvalidDuration);
            }
            match slot_of(s[j], in_time) {
                None => {
                    return Err(EncodeError::InvalidDuration);
                },
                Some(k) => {
                    if k < next {
                        return Err(EncodeError::InvalidDuration);
                    }
                    let ghost st0 = starts@;
                    let ghost en0 = ends@;
                    starts.set(k, i);
                    ends.set(k, j);
                    proof {
                        let g0 = gv;
                        gv = gv.update(k as int, s@.subrange(i as int, j as int));
                        assert forall|q: int| #![trigger gv[q]] 0 <= q < 6 implies starts@[q] <= ends@[q] <= s@.len() && gv[q] == s@.subrange(starts@[q] as int, ends@[q] as int) by {
                            if q != k {
                                assert(gv[q] == g0[q]);
                                assert(starts@[q] == st0[q] && ends@[q] == en0[q]);
                                assert(g0[q] == s@.subrange(st0[q] as int, en0[q] as int));
                            }
                        }
                    }
                    next = k + 1;
                    i = j + 1;
                }
            }
        }
    }
    let mut text: Vec<u8> = Vec::new();
    push_part(&mut text, s, starts[0], ends[0], 89u8);
    push_part(&mut text, s, starts[1], ends[1], 77u8);
    push_part(&mut text, s, starts[2], ends[2], 68u8);
    let z3 = skip_zeros(s, starts[3], ends[3]);
    let z4 = skip_zeros(s, starts[4], ends[4]);
    let z5 = skip_zeros(s, starts[5], ends[5]);
    if z3 < ends[3] || z4 < ends[4] || z5 < ends[5] {
        text.push(84u8);
        push_part(&mut text, s, starts[3], ends[3], 72u8);
        push_part(&mut text, s, starts[4], ends[4], 77u8);
        push_part(&mut text, s, starts[5], ends[5], 83u8);
    }
    assert(text@ =~= dur_text(gv));
    if text.len() > 255 {
        return Err(EncodeError::InvalidDuration);
    }
    let mut ber: Vec<u8> = vec![0x1Fu8, 0x22u8, text.len() as u8];
    ber.append(&mut text);
    assert(ber@ =~= duration_bytes(gv));
    Ok(ber)
}

/// The lowercase hex digit of `v < 16`.
pub open spec fn hex_char(v: nat) -> u8 {
    if v < 10 {
        (48 + v) as u8
    } else {
        (87 + v) as u8
    }
}

/// Bytes written as lowercase hex, two digits each, high digit first.
pub open spec fn hex_encode(b: Seq<u8>) -> Seq<u8> {
    Seq::new(
        2 * b.len(),
        |i: int|
            if i % 2 == 0 {
                hex_char(b[i / 2] as nat / 16)
            } else {
                hex_char(b[i / 2] as nat % 16)
            },
    )
}

/// An ASCII letter in lowercase; other bytes unchanged.
pub open spec fn ascii_lower(c: u8) -> u8 {
    if 65 <= c <= 90 {
        (c + 32) as u8
    } else {
        c
    }
}

/// Decoding hex digits and writing the bytes back as hex gives the digits
/// again, up to case.
pub proof fn lemma_hex_round_trip(d: Seq<u8>)
    requires
        all_hex(d),
        d.len() % 2 == 0,
    ensures
        hex_encode(hex_bytes(d)) == d.map_values(|c: u8| ascii_lower(c)),
{
    let b = hex_bytes(d);
    let e = hex_encode(b);
    assert forall|i: int| 0 <= i < d.len() implies #[trigger] e[i] == ascii_lower(d[i]) by {
        let k = i / 2;
        assert(hex_val(d[2 * k]) is Some);
        assert(hex_val(d[2 * k + 1]) is Some);
        let hi = hex_val(d[2 * k])->0;
        let lo = hex_val(d[2 * k + 1])->0;
        assert(hi < 16 && lo < 16);
        assert((16 * hi + lo) / 16 == hi && (16 * hi + lo) % 16 == lo) by (nonlinear_arith)
            requires hi < 16, lo < 16;
        assert(b[k] as nat == 16 * hi + lo);
        if i % 2 == 0 {
            assert(i == 2 * k);
        } else {
            assert(i == 2 * k + 1);
        }
    }
    assert(e =~= d.map_values(|c: u8| ascii_lower(c)));
}

/// A hexadecimal digit character, either case.
pub open spec fn is_hex_char(c: char) -> bool {
    ('0' <= c <= '9') || ('a' <= c <= 'f') || ('A' <= c <= 'F')
}

/// For a text of an even number of hex digits, decoding it as an octet
/// string and writing the bytes back as hex gives the text again, up to case.
pub proof fn lemma_hex_text_round_trip(h: Seq<char>)
    requires
        forall|i: int| 0 <= i < h.len() ==> is_hex_char(#[trigger] h[i]),
        h.len() % 2 == 0,
    ensures
        all_hex(hex_digits_of(h)),
        hex_encode(hex_bytes(hex_digits_of(h))) == h.map_values(|c: char| ascii_lower(c as u8)),
{
    if h.len() > 0 {
        assert(!is_ws(h[0]));
        assert(!is_ws(h.last()));
    }
    assert(lead_ws(h) == 0);
    assert(h.subrange(0, h.len() as int) =~= h);
    assert(trail_ws(h) == 0);
    assert(trimmed(h) =~= h);
    assert(vstd::utf8::is_ascii_chars(h));
    vstd::utf8::is_ascii_chars_encode_utf8(h);
    let b = encode_utf8(h);
    if b.len() >= 2 {
        assert(b[1] == h[1] as u8);
        assert(b[1] != 120u8);
    }
    assert(hex_digits_of(h) == b);
    assert forall|i: int| 0 <= i < b.len() implies (#[trigger] hex_val(b[i])) is Some by {
        assert(b[i] == h[i] as u8);
        assert(is_hex_char(h[i]));
    }
    lemma_hex_round_trip(b);
    assert(b.map_values(|c: u8| ascii_lower(c)) =~= h.map_values(|c: char| ascii_lower(c as u8))) by {
        assert forall|i: int| 0 <= i < b.len() implies b[i] == h[i] as u8 by {}
    }
}

} // verus!
