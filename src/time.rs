//! Calendar times as the time tags need them: parsed by chrono, rendered
//! here as ASN.1 time strings.

use vstd::prelude::*;
use crate::value::{dec, EncodeError};

verus! {

/// A point in civil time, in UTC.
#[derive(Debug, Clone, Copy, PartialEq, Eq, Structural)]
pub struct CivilTime {
    pub year: i32,
    pub month: u8,
    pub day: u8,
    pub hour: u8,
    pub minute: u8,
    pub second: u8,
    /// Nanoseconds past the second; 1_000_000_000 and above mark a leap second.
    pub nanosecond: u32,
}

impl CivilTime {
    /// Every field lies in its calendar range.
    pub open spec fn valid(&self) -> bool {
        &&& 1 <= self.month <= 12
        &&& 1 <= self.day <= 31
        &&& self.hour <= 23
        &&& self.minute <= 59
        &&& self.second <= 59
        &&& self.nanosecond < 2_000_000_000
    }
}

/// What chrono reads from an RFC 3339 timestamp, moved to UTC.
pub uninterp spec fn rfc3339_utc(s: Seq<char>) -> Option<CivilTime>;

/// What chrono reads from a `YYYY-MM-DD HH:MM:SS` text.
pub uninterp spec fn plain_datetime(s: Seq<char>) -> Option<CivilTime>;

/// Relies on `chrono::DateTime::parse_from_rfc3339` and its conversion to
/// `Utc`: the fields come from `Datelike` and `Timelike`, whose month, day,
/// hour, minute and second lie in their calendar ranges and whose nanosecond
/// stays below two seconds (a leap second runs from one to two).
#[verifier::external_body]
fn parse_rfc3339_utc(s: &str) -> (r: Option<CivilTime>)
    ensures
        r == rfc3339_utc(s@),
        r is Some ==> r->0.valid(),
{
    match chrono::DateTime::parse_from_rfc3339(s) {
        Ok(d) => {
            let u = d.with_timezone(&chrono::Utc);
            Some(CivilTime {
                year: chrono::Datelike::year(&u),
                month: chrono::Datelike::month(&u) as u8,
                day: chrono::Datelike::day(&u) as u8,
                hour: chrono::Timelike::hour(&u) as u8,
                minute: chrono::Timelike::minute(&u) as u8,
                second: chrono::Timelike::second(&u) as u8,
                nanosecond: chrono::Timelike::nanosecond(&u),
            })
        },
        Err(_) => None,
    }
}

/// Relies on `chrono::NaiveDateTime::parse_from_str` with the pattern
/// `%Y-%m-%d %H:%M:%S`: the fields come from `Datelike` and `Timelike`,
/// in the same ranges.
#[verifier::external_body]
fn parse_plain_datetime(s: &str) -> (r: Option<CivilTime>)
    ensures
        r == plain_datetime(s@),
        r is Some ==> r->0.valid(),
{
    match chrono::NaiveDateTime::parse_from_str(s, "%Y-%m-%d %H:%M:%S") {
        Ok(u) => Some(CivilTime {
            year: chrono::Datelike::year(&u),
            month: chrono::Datelike::month(&u) as u8,
            day: chrono::Datelike::day(&u) as u8,
            hour: chrono::Timelike::hour(&u) as u8,
            minute: chrono::Timelike::minute(&u) as u8,
            second: chrono::Timelike::second(&u) as u8,
            nanosecond: chrono::Timelike::nanosecond(&u),
        }),
        Err(_) => None,
    }
}

/// Two decimal digits of `n < 100`.
pub open spec fn two(n: nat) -> Seq<u8> {
    seq![(48 + n / 10) as u8, (48 + n % 10) as u8]
}

/// At least four decimal digits of `n`, zero-padded.
pub open spec fn pad4(n: nat) -> Seq<u8> {
    if n < 10000 {
        seq![(48 + n / 1000) as u8, (48 + n / 100 % 10) as u8, (48 + n / 10 % 10) as u8, (48 + n % 10) as u8]
    } else {
        dec(n)
    }
}

/// A year as `%Y` writes it: four digits within 0..=9999, else a sign and at
/// least four digits.
pub open spec fn year4(y: int) -> Seq<u8> {
    if 0 <= y <= 9999 {
        pad4(y as nat)
    } else if y < 0 {
        seq![45u8] + pad4((-y) as nat)
    } else {
        seq![43u8] + pad4(y as nat)
    }
}

/// The second as `%S` writes it: 60 during a leap second.
pub open spec fn shown_second(t: CivilTime) -> nat {
    t.second as nat + t.nanosecond as nat / 1_000_000_000
}

/// Month, day, hour, minute, second, two digits each, then `Z`.
pub open spec fn tail_digits(t: CivilTime) -> Seq<u8> {
    two(t.month as nat) + two(t.day as nat) + two(t.hour as nat) + two(t.minute as nat) + two(
        shown_second(t),
    ) + seq![90u8]
}

/// `YYYYMMDDHHMMSSZ`.
pub open spec fn long_time_text(t: CivilTime) -> Seq<u8> {
    year4(t.year as int) + tail_digits(t)
}

/// `YYMMDDHHMMSSZ`, the year taken modulo 100.
pub open spec fn short_time_text(t: CivilTime) -> Seq<u8> {
    two((t.year as int % 100) as nat) + tail_digits(t)
}

fn push_two(out: &mut Vec<u8>, n: u8)
    requires
        n < 100,
    ensures
        final(out)@ == old(out)@ + two(n as nat),
{
    out.push(48 + n / 10);
    out.push(48 + n % 10);
    assert(final(out)@ =~= old(out)@ + two(n as nat));
}

fn push_pad4(out: &mut Vec<u8>, n: u32)
    ensures
        final(out)@ == old(out)@ + pad4(n as nat),
{
    if n < 10000 {
        out.push((48 + n / 1000) as u8);
        out.push((48 + n / 100 % 10) as u8);
        out.push((48 + n / 10 % 10) as u8);
        out.push((48 + n % 10) as u8);
        assert(final(out)@ =~= old(out)@ + pad4(n as nat));
    } else {
        crate::value::push_dec(out, n);
    }
}

/// Renders a time as `YYYYMMDDHHMMSSZ` (`long`) or `YYMMDDHHMMSSZ`.
pub fn time_text(t: CivilTime, long: bool) -> (r: Vec<u8>)
    requires
        t.valid(),
    ensures
        r@ == if long {
            long_time_text(t)
        } else {
            short_time_text(t)
        },
{
    let mut r: Vec<u8> = Vec::new();
    if long {
        let y = t.year as i64;
        if 0 <= y && y <= 9999 {
            push_pad4(&mut r, y as u32);
        } else if y < 0 {
            r.push(45u8);
            push_pad4(&mut r, (-y) as u32);
        } else {
            r.push(43u8);
            push_pad4(&mut r, y as u32);
        }
    } else {
        let y = t.year as i64;
        let m: u8 = if y >= 0 {
            (y % 100) as u8
        } else {
            let a = (-y) % 100;
            if a == 0 {
                0
            } else {
                (100 - a) as u8
            }
        };
        assert(m as int == t.year as int % 100);
        push_two(&mut r, m);
    }
    let ghost head = r@;
    push_two(&mut r, t.month);
    push_two(&mut r, t.day);
    push_two(&mut r, t.hour);
    push_two(&mut r, t.minute);
    let sec = t.second + (t.nanosecond / 1_000_000_000) as u8;
    push_two(&mut r, sec);
    r.push(90u8);
    assert(r@ =~= head + tail_digits(t));
    r
}

/// The content of a time tag from the parsed text: its rendering, or
/// `InvalidTimestamp` when the text did not parse.
pub fn time_bytes(parsed: Option<CivilTime>, long: bool) -> (r: Result<Vec<u8>, EncodeError>)
    requires
        parsed is Some ==> parsed->0.valid(),
    ensures
        crate::value::out(r) == match parsed {
            Some(t) => Ok(if long {
                long_time_text(t)
            } else {
                short_time_text(t)
            }),
            None => Err(EncodeError::InvalidTimestamp),
        },
{
    match parsed {
        Some(t) => Ok(time_text(t, long)),
        None => Err(EncodeError::InvalidTimestamp),
    }
}

/// The content of a TIME tag: an RFC 3339 timestamp as `YYYYMMDDHHMMSSZ` in UTC.
pub fn encode_rfc3339(value: &str) -> (r: Result<Vec<u8>, EncodeError>)
    ensures
        crate::value::out(r) == match rfc3339_utc(value@) {
            Some(t) => Ok(long_time_text(t)),
            None => Err(EncodeError::InvalidTimestamp),
        },
{
    time_bytes(parse_rfc3339_utc(value), true)
}

/// The content of a UTC or generalized time tag: `YYYY-MM-DD HH:MM:SS` as
/// `YYMMDDHHMMSSZ`.
pub fn encode_plain_time(value: &str) -> (r: Result<Vec<u8>, EncodeError>)
    ensures
        crate::value::out(r) == match plain_datetime(value@) {
            Some(t) => Ok(short_time_text(t)),
            None => Err(EncodeError::InvalidTimestamp),
        },
{
    time_bytes(parse_plain_datetime(value), false)
}

} // verus!
