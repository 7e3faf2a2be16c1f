use asn1_editor::encode::val_to_bytes;
use asn1_editor::value::{
    encode_bit_string, encode_duration_iso8601, encode_oid_from_string, in_to_byt,
    parse_string_as_hex, EncodeError,
};

fn enc(tag: u8, text: &str) -> Result<Vec<u8>, EncodeError> {
    val_to_bytes(tag, text, None)
}

fn be_value(b: &[u8]) -> u64 {
    b.iter().fold(0u64, |acc, x| acc * 256 + *x as u64)
}

#[test]
fn integer_magnitude_round_trips() {
    for n in [0i64, 1, 127, 128, 255, 256, 65537, 1 << 40, i64::MAX] {
        let bytes = enc(0x02, &n.to_string()).unwrap();
        assert_eq!(be_value(&bytes), n as u64);
        assert!(bytes.is_empty() || bytes[0] != 0);
    }
    assert_eq!(enc(0x02, "65537").unwrap(), vec![0x01, 0x00, 0x01]);
    assert_eq!(enc(0x0A, "-256").unwrap(), vec![0x01, 0x00]);
    assert_eq!(enc(0x02, "0").unwrap(), Vec::<u8>::new());
    assert_eq!(enc(0x02, &i64::MIN.to_string()).unwrap(), vec![0x80, 0, 0, 0, 0, 0, 0, 0]);
}

#[test]
fn integer_errors() {
    assert_eq!(enc(0x02, "12a"), Err(EncodeError::InvalidInteger));
    assert_eq!(enc(0x02, ""), Err(EncodeError::InvalidInteger));
    assert_eq!(enc(0x02, "9223372036854775808"), Err(EncodeError::InvalidInteger));
    assert_eq!(in_to_byt(0x0102), vec![1, 2]);
}

#[test]
fn boolean_values() {
    assert_eq!(enc(0x01, "255").unwrap(), vec![255]);
    assert_eq!(enc(0x01, "+7").unwrap(), vec![7]);
    assert_eq!(enc(0x01, "256"), Err(EncodeError::InvalidBoolean));
    assert_eq!(enc(0x01, "-1"), Err(EncodeError::InvalidBoolean));
}

fn decode_bits(b: &[u8], len: usize) -> String {
    (0..len)
        .map(|i| if (b[1 + i / 8] >> (7 - i % 8)) & 1 == 1 { '1' } else { '0' })
        .collect()
}

#[test]
fn bit_string_round_trips() {
    for s in ["", "1", "101", "11111111", "1111111100000001", "0000000001"] {
        let b = encode_bit_string(s.as_bytes()).unwrap();
        for i in s.len()..8 * (b.len() - 1) {
            assert_eq!((b[1 + i / 8] >> (7 - i % 8)) & 1, 0);
        }
        assert_eq!(b.len(), 1 + (s.len() + 7) / 8);
        assert_eq!(b[0] as usize, (8 - s.len() % 8) % 8);
        assert_eq!(decode_bits(&b, s.len()), s);
    }
    assert_eq!(enc(0x03, "101").unwrap(), vec![5, 0xA0]);
    assert_eq!(enc(0x03, "").unwrap(), vec![0]);
    assert_eq!(enc(0x23, "1111111100000001").unwrap(), vec![0, 0xFF, 0x01]);
    assert_eq!(enc(0x03, "102"), Err(EncodeError::InvalidBitString));
}

#[test]
fn oid_rsadsi_arc() {
    let oid = encode_oid_from_string("1.2.840.113549");
    assert_eq!(oid[0], 0x2A);
    assert_eq!(oid, vec![0x2A, 0x86, 0x48, 0x86, 0xF7, 0x0D]);
    assert_eq!(enc(0x06, " 2.5.4.3 ").unwrap(), vec![0x55, 0x04, 0x03]);
}

#[test]
fn oid_rejects_bad_text() {
    assert!(encode_oid_from_string("1.2").is_empty());
    assert!(encode_oid_from_string("1.x.3").is_empty());
    assert!(encode_oid_from_string("1..3").is_empty());
    assert_eq!(enc(0x06, "1.2"), Err(EncodeError::InvalidOid));
}

#[test]
fn oid_large_first_subidentifier() {
    assert_eq!(encode_oid_from_string("7.0.1"), vec![0x82, 0x18, 0x01]);
    assert_eq!(encode_oid_from_string("2.999.1"), vec![0x88, 0x37, 0x01]);
    assert_eq!(enc(0x06, "2.999.3").unwrap(), vec![0x88, 0x37, 0x03]);
    assert_eq!(encode_oid_from_string("2.48.1"), vec![0x80, 0x01]);
    assert_eq!(encode_oid_from_string("6.15.1"), vec![0xFF, 0x01]);
}

#[test]
fn hex_round_trips() {
    for h in ["00", "0a1bFF", "DEADbeef", "7f"] {
        let bytes = parse_string_as_hex(h).unwrap();
        assert_eq!(hex::encode(&bytes), h.to_lowercase());
    }
    assert_eq!(parse_string_as_hex("abc").unwrap(), vec![0x0A, 0xBC]);
    assert_eq!(parse_string_as_hex(" 0x0102 ").unwrap(), vec![1, 2]);
    assert_eq!(parse_string_as_hex("").unwrap(), Vec::<u8>::new());
    assert_eq!(parse_string_as_hex("zz"), Err(EncodeError::InvalidHex));
    assert_eq!(enc(0x04, "0102").unwrap(), vec![1, 2]);
}

#[test]
fn null_and_constructed() {
    assert_eq!(enc(0x05, "").unwrap(), Vec::<u8>::new());
    assert_eq!(enc(0x05, "x"), Err(EncodeError::InvalidNull));
    assert_eq!(enc(0x30, "").unwrap(), Vec::<u8>::new());
    assert_eq!(enc(0x31, "a"), Err(EncodeError::NonEmptyConstructed));
}

#[test]
fn text_and_other_tags_pass_through() {
    assert_eq!(enc(0x0C, "héllo").unwrap(), "héllo".as_bytes().to_vec());
    assert_eq!(enc(0x13, "abc").unwrap(), b"abc".to_vec());
    assert_eq!(enc(0x08, "raw").unwrap(), b"raw".to_vec());
}

#[test]
fn date_and_time_of_day() {
    assert_eq!(enc(0x1F, "2025-01-30").unwrap(), b"20250130".to_vec());
    assert_eq!(enc(0x20, "11:21:43").unwrap(), b"112143".to_vec());
    assert_eq!(enc(0x21, "2025-01-30T11:21:43").unwrap(), b"20250130T112143".to_vec());
}

#[test]
fn rfc3339_time() {
    assert_eq!(enc(0x0E, "2025-02-12T14:30:00Z").unwrap(), b"20250212143000Z".to_vec());
    assert_eq!(enc(0x0E, "2025-02-12T14:30:00+01:00").unwrap(), b"20250212133000Z".to_vec());
    assert_eq!(enc(0x0E, "yesterday"), Err(EncodeError::InvalidTimestamp));
    assert_eq!(enc(0x0E, "2016-12-31T23:59:60Z").unwrap(), b"20161231235960Z".to_vec());
}

#[test]
fn plain_times() {
    assert_eq!(enc(0x17, "2025-01-30 11:21:43").unwrap(), b"250130112143Z".to_vec());
    assert_eq!(enc(0x18, "2025-01-30 11:21:43").unwrap(), b"250130112143Z".to_vec());
    assert_eq!(enc(0x17, "2025-01-30T11:21:43"), Err(EncodeError::InvalidTimestamp));
}

#[test]
fn durations() {
    let mut want = vec![0x1F, 0x22, 13];
    want.extend_from_slice(b"1Y2M3DT4H5M6S");
    assert_eq!(encode_duration_iso8601("P1Y2M3DT4H5M6S").unwrap(), want);
    let mut want = vec![0x1F, 0x22, 3];
    want.extend_from_slice(b"T5M");
    assert_eq!(enc(0x22, "PT05M").unwrap(), want);
    assert_eq!(enc(0x42, "P0D").unwrap(), vec![0x1F, 0x22, 0]);
    assert_eq!(enc(0x22, "P").unwrap(), vec![0x1F, 0x22, 0]);
    assert_eq!(enc(0x22, "1Y"), Err(EncodeError::InvalidDuration));
    assert_eq!(enc(0x22, "P1D2Y"), Err(EncodeError::InvalidDuration));
    assert_eq!(enc(0x22, "PT1Y"), Err(EncodeError::InvalidDuration));
    let mut want = vec![0x1F, 0x22, 11];
    want.extend_from_slice(b"2147483648D");
    assert_eq!(enc(0x22, "P2147483648D").unwrap(), want);
    let mut want = vec![0x1F, 0x22, 26];
    want.extend_from_slice(b"1234567890123456789012345Y");
    assert_eq!(enc(0x22, "P0001234567890123456789012345Y").unwrap(), want);
    let long = format!("P{}Y", "9".repeat(300));
    assert_eq!(enc(0x22, &long), Err(EncodeError::InvalidDuration));
    let mut want = vec![0x1F, 0x22, 11];
    want.extend_from_slice(b"2147483647D");
    assert_eq!(enc(0x22, "P2147483647D").unwrap(), want);
}

#[test]
fn real_bytes() {
    let bits = 1.5f64.to_bits();
    assert_eq!(val_to_bytes(0x09, "1.5", Some(bits)).unwrap(), 1.5f64.to_be_bytes().to_vec());
    assert_eq!(val_to_bytes(0x29, "x", None), Err(EncodeError::InvalidReal));
}
