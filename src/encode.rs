//! Dispatch from a tag to the encoding rule of its type family.

use vstd::prelude::*;
use vstd::utf8::encode_utf8;
use crate::text::{parse_signed, parse_unsigned, signed_text, unsigned_text};
use crate::time::{encode_plain_time, encode_rfc3339, long_time_text, plain_datetime, rfc3339_utc, short_time_text};
use crate::value::{
    all_hex, be_value, bit_string_bytes, duration_result, encode_bit_string,
    encode_duration_iso8601, encode_oid_from_string, hex_bytes, hex_digits_of, in_to_byt, magnitude_bytes,
    is_bit_text, minimal_be, oid_bytes, oid_numbers, oid_ok, out, parse_string_as_hex, EncodeError,
};

verus! {

/// The type families that the encoder tells apart; the primitive and the
/// constructed form of a universal tag share one.
#[derive(Debug, Clone, Copy, PartialEq, Eq, Structural)]
pub enum TagKind {
    Boolean,
    Integer,
    BitString,
    OctetString,
    Null,
    ObjectIdentifier,
    Real,
    Time,
    UtcTime,
    GeneralizedTime,
    Text,
    Sequence,
    SetOf,
    Date,
    TimeOfDay,
    DateTime,
    Duration,
    Other,
}

/// The family of a tag byte.
pub open spec fn kind_of(tag: u8) -> TagKind {
    if tag == 0x01 {
        TagKind::Boolean
    } else if tag == 0x02 || tag == 0x0A || tag == 0x2A {
        TagKind::Integer
    } else if tag == 0x03 || tag == 0x23 {
        TagKind::BitString
    } else if tag == 0x04 || tag == 0x24 {
        TagKind::OctetString
    } else if tag == 0x05 || tag == 0x25 {
        TagKind::Null
    } else if tag == 0x06 || tag == 0x26 {
        TagKind::ObjectIdentifier
    } else if tag == 0x09 || tag == 0x29 {
        TagKind::Real
    } else if tag == 0x0E || tag == 0x2E {
        TagKind::Time
    } else if tag == 0x17 || tag == 0x37 {
        TagKind::UtcTime
    } else if tag == 0x18 || tag == 0x38 {
        TagKind::GeneralizedTime
    } else if tag == 0x07 || tag == 0x27 || tag == 0x0C || tag == 0x2C || (0x12 <= tag <= 0x16)
        || (0x32 <= tag <= 0x36) || (0x19 <= tag <= 0x1E) || (0x39 <= tag <= 0x3E) {
        TagKind::Text
    } else if tag == 0x10 || tag == 0x30 {
        TagKind::Sequence
    } else if tag == 0x11 || tag == 0x31 {
        TagKind::SetOf
    } else if tag == 0x1F || tag == 0x3F {
        TagKind::Date
    } else if tag == 0x20 || tag == 0x40 {
        TagKind::TimeOfDay
    } else if tag == 0x21 || tag == 0x41 {
        TagKind::DateTime
    } else if tag == 0x22 || tag == 0x42 {
        TagKind::Duration
    } else {
        TagKind::Other
    }
}

impl TagKind {
    /// The family of a tag byte.
    pub fn of(tag: u8) -> (r: TagKind)
        ensures
            r == kind_of(tag),
    {
        if tag == 0x01 {
            TagKind::Boolean
        } else if tag == 0x02 || tag == 0x0A || tag == 0x2A {
            TagKind::Integer
        } else if tag == 0x03 || tag == 0x23 {
            TagKind::BitString
        } else if tag == 0x04 || tag == 0x24 {
            TagKind::OctetString
        } else if tag == 0x05 || tag == 0x25 {
            TagKind::Null
        } else if tag == 0x06 || tag == 0x26 {
            TagKind::ObjectIdentifier
        } else if tag == 0x09 || tag == 0x29 {
            TagKind::Real
        } else if tag == 0x0E || tag == 0x2E {
            TagKind::Time
        } else if tag == 0x17 || tag == 0x37 {
            TagKind::UtcTime
        } else if tag == 0x18 || tag == 0x38 {
            TagKind::GeneralizedTime
        } else if tag == 0x07 || tag == 0x27 || tag == 0x0C || tag == 0x2C || (0x12 <= tag && tag
            <= 0x16) || (0x32 <= tag && tag <= 0x36) || (0x19 <= tag && tag <= 0x1E) || (0x39
            <= tag && tag <= 0x3E) {
            TagKind::Text
        } else if tag == 0x10 || tag == 0x30 {
            TagKind::Sequence
        } else if tag == 0x11 || tag == 0x31 {
            TagKind::SetOf
        } else if tag == 0x1F || tag == 0x3F {
            TagKind::Date
        } else if tag == 0x20 || tag == 0x40 {
            TagKind::TimeOfDay
        } else if tag == 0x21 || tag == 0x41 {
            TagKind::DateTime
        } else if tag == 0x22 || tag == 0x42 {
            TagKind::Duration
        } else {
            TagKind::Other
        }
    }
}

/// `s` without the bytes `a` and `b`.
pub open spec fn without(s: Seq<u8>, a: u8, b: u8) -> Seq<u8>
    decreases s.len(),
{
    if s.len() == 0 {
        s
    } else if s.last() == a || s.last() == b {
        without(s.drop_last(), a, b)
    } else {
        without(s.drop_last(), a, b).push(s.last())
    }
}

fn strip_bytes(s: &[u8], a: u8, b: u8) -> (r: Vec<u8>)
    ensures
        r@ == without(s@, a, b),
{
    let mut r: Vec<u8> = Vec::new();
    let mut i: usize = 0;
    assert(s@.subrange(0, 0) =~= Seq::<u8>::empty());
    while i < s.len()
        invariant
            i <= s@.len(),
            r@ == without(s@.subrange(0, i as int), a, b),
        decreases s@.len() - i,
    {
        assert(s@.subrange(0, i + 1).drop_last() =~= s@.subrange(0, i as int));
        if s[i] != a && s[i] != b {
            r.push(s[i]);
        }
        i = i + 1;
    }
    assert(s@.subrange(0, i as int) =~= s@);
    r
}

pub open spec fn pow256(n: nat) -> nat
    decreases n,
{
    if n == 0 {
        1
    } else {
        256 * pow256((n - 1) as nat)
    }
}

fn be_fixed(x: u64, n: usize) -> (r: Vec<u8>)
    requires
        x < pow256(n as nat),
    ensures
        r@ == be_digits(x as nat, n as nat),
        be_value(r@) == x,
    decreases n,
{
    if n == 0 {
        Vec::new()
    } else {
        let mut r = be_fixed(x / 256, n - 1);
        let ghost p = r@;
        r.push((x % 256) as u8);
        assert(r@.drop_last() =~= p);
        r
    }
}

/// The content that a tag's type requires for the given text, by family:
/// - Boolean: a decimal `0..=255`, as one byte.
/// - Integer, Enumerated: a decimal `i64`, as the minimal big-endian bytes
///   of its magnitude (the sign is not kept).
/// - Bit string, octet string (hex), object identifier, duration, times:
///   see their encoders.
/// - Null: the empty text, as no bytes. Sequence, set: likewise.
/// - Real: `real_bits` is the text read as an IEEE-754 double (its bit
///   pattern), or `None` when it does not read as one; eight big-endian bytes.
/// - Date, time of day, date-time: the UTF-8 bytes without `-`, `:`, both.
/// - Strings and every other tag: the UTF-8 bytes as they are.
pub open spec fn encoding(tag: u8, text: Seq<char>, real_bits: Option<u64>) -> Result<
    Seq<u8>,
    EncodeError,
> {
    let b = encode_utf8(text);
    match kind_of(tag) {
        TagKind::Boolean => match unsigned_text(b) {
            Some(v) => if v <= 255 {
                Ok(seq![v as u8])
            } else {
                Err(EncodeError::InvalidBoolean)
            },
            None => Err(EncodeError::InvalidBoolean),
        },
        TagKind::Integer => match signed_text(b) {
            Some(v) => if i64::MIN <= v <= i64::MAX {
                Ok(magnitude_bytes((if v < 0 { -v } else { v }) as nat))
            } else {
                Err(EncodeError::InvalidInteger)
            },
            None => Err(EncodeError::InvalidInteger),
        },
        TagKind::BitString => if is_bit_text(b) {
            Ok(bit_string_bytes(b))
        } else {
            Err(EncodeError::InvalidBitString)
        },
        TagKind::OctetString => if all_hex(hex_digits_of(text)) {
            Ok(hex_bytes(hex_digits_of(text)))
        } else {
            Err(EncodeError::InvalidHex)
        },
        TagKind::Null => if b.len() == 0 {
            Ok(Seq::empty())
        } else {
            Err(EncodeError::InvalidNull)
        },
        TagKind::ObjectIdentifier => if oid_ok(text) {
            Ok(oid_bytes(oid_numbers(text)))
        } else {
            Err(EncodeError::InvalidOid)
        },
        TagKind::Real => match real_bits {
            Some(x) => Ok(fixed8(x)),
            None => Err(EncodeError::InvalidReal),
        },
        TagKind::Time => match rfc3339_utc(text) {
            Some(t) => Ok(long_time_text(t)),
            None => Err(EncodeError::InvalidTimestamp),
        },
        TagKind::UtcTime | TagKind::GeneralizedTime => match plain_datetime(text) {
            Some(t) => Ok(short_time_text(t)),
            None => Err(EncodeError::InvalidTimestamp),
        },
        TagKind::Sequence | TagKind::SetOf => if b.len() == 0 {
            Ok(Seq::empty())
        } else {
            Err(EncodeError::NonEmptyConstructed)
        },
        TagKind::Date => Ok(without(b, 45u8, 45u8)),
        TagKind::TimeOfDay => Ok(without(b, 58u8, 58u8)),
        TagKind::DateTime => Ok(without(b, 45u8, 58u8)),
        TagKind::Duration => duration_result(b),
        TagKind::Text | TagKind::Other => Ok(b),
    }
}

/// The eight big-endian bytes of `x`.
pub open spec fn fixed8(x: u64) -> Seq<u8> {
    be_digits(x as nat, 8)
}

/// The low `n` bytes of `x`, big-endian.
pub open spec fn be_digits(x: nat, n: nat) -> Seq<u8>
    decreases n,
{
    if n == 0 {
        Seq::empty()
    } else {
        be_digits(x / 256, (n - 1) as nat).push((x % 256) as u8)
    }
}


/// The content bytes for `value` under `tag`; see `encoding`.
pub fn val_to_bytes(tag: u8, value: &str, real_bits: Option<u64>) -> (r: Result<Vec<u8>, EncodeError>)
    ensures
        out(r) == encoding(tag, value@, real_bits),
{
    let b = value.as_bytes();
    match TagKind::of(tag) {
        TagKind::Boolean => match parse_unsigned(b, 255) {
            Some(v) => {
                let r = vec![v as u8];
                assert(r@ =~= seq![v as u8]);
                Ok(r)
            },
            None => Err(EncodeError::InvalidBoolean),
        },
        TagKind::Integer => match parse_signed(b) {
            Some(sm) => {
                let r = in_to_byt(sm.1);
                assert(out(Ok(r)) == encoding(tag, value@, real_bits));
                Ok(r)
            },
            None => Err(EncodeError::InvalidInteger),
        },
        TagKind::BitString => encode_bit_string(b),
        TagKind::OctetString => parse_string_as_hex(value),
        TagKind::Null => if b.len() == 0 {
            Ok(Vec::new())
        } else {
            Err(EncodeError::InvalidNull)
        },
        TagKind::ObjectIdentifier => {
            let oid = encode_oid_from_string(value);
            if oid.len() == 0 {
                proof {
                    if oid_ok(value@) {
                        assert(oid_bytes(oid_numbers(value@)).len() > 0);
                    }
                }
                Err(EncodeError::InvalidOid)
            } else {
                Ok(oid)
            }
        },
        TagKind::Real => match real_bits {
            Some(x) => {
                assert(pow256(8) == 0x1_0000_0000_0000_0000) by {
                    reveal_with_fuel(pow256, 9);
                }
                let r = be_fixed(x, 8);
                assert(out(Ok(r)) == encoding(tag, value@, real_bits));
                Ok(r)
            },
            None => Err(EncodeError::InvalidReal),
        },
        TagKind::Time => encode_rfc3339(value),
        TagKind::UtcTime | TagKind::GeneralizedTime => encode_plain_time(value),
        TagKind::Sequence | TagKind::SetOf => if b.len() == 0 {
            Ok(Vec::new())
        } else {
            Err(EncodeError::NonEmptyConstructed)
        },
        TagKind::Date => Ok(strip_bytes(b, 45u8, 45u8)),
        TagKind::TimeOfDay => Ok(strip_bytes(b, 58u8, 58u8)),
        TagKind::DateTime => Ok(strip_bytes(b, 45u8, 58u8)),
        TagKind::Duration => encode_duration_iso8601(value),
        TagKind::Text | TagKind::Other => {
            let r = vstd::slice::slice_to_vec(b);
            assert(out(Ok(r)) == encoding(tag, value@, real_bits));
            Ok(r)
        },
    }
}

/// An integer text in the `i64` range encodes to bytes that, read back as
/// a big-endian number, give its magnitude.
pub proof fn lemma_integer_round_trip(tag: u8, text: Seq<char>, real_bits: Option<u64>)
    requires
        kind_of(tag) == TagKind::Integer,
        signed_text(encode_utf8(text)) is Some,
        i64::MIN <= signed_text(encode_utf8(text))->0 <= i64::MAX,
    ensures
        encoding(tag, text, real_bits) is Ok,
        be_value(encoding(tag, text, real_bits)->Ok_0) == {
            let n = signed_text(encode_utf8(text))->0;
            if n < 0 { -n } else { n }
        },
{
    let n = signed_text(encode_utf8(text))->0;
    crate::value::lemma_magnitude_round_trip((if n < 0 { -n } else { n }) as nat);
}

} // verus!
