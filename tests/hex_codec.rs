use heaptrack_cut::hex::{parse_hex, write_hex};
use heaptrack_cut::rewrite::FilterError;

fn encode(v: u64) -> String {
    let mut out = Vec::new();
    write_hex(&mut out, v);
    String::from_utf8(out).unwrap()
}

#[test]
fn test_hex() {
    assert_eq!(parse_hex(b"1"), Ok(1));
    assert_eq!(parse_hex(b"a"), Ok(10));
    assert_eq!(parse_hex(b"7d0"), Ok(2000));
    assert_eq!(parse_hex(b"3e8"), Ok(1000));
}

#[test]
fn hex_round_trip_representative_values() {
    for x in ["0", "1", "a", "7d0", "3e8", "ffffffffffffffff"] {
        assert_eq!(encode(parse_hex(x.as_bytes()).unwrap()), x);
    }
    assert_eq!(parse_hex(b"ffffffffffffffff"), Ok(u64::MAX));
}

#[test]
fn hex_encode_exact_values() {
    assert_eq!(encode(0), "0");
    assert_eq!(encode(15), "f");
    assert_eq!(encode(16), "10");
    assert_eq!(encode(0x100), "100");
    assert_eq!(encode(0x10203), "10203");
    assert_eq!(encode(u64::MAX), "ffffffffffffffff");
}

#[test]
fn hex_encode_appends() {
    let mut out = b"c ".to_vec();
    write_hex(&mut out, 1000);
    assert_eq!(out, b"c 3e8".to_vec());
}

#[test]
fn hex_decode_upper_case_and_leading_zeros() {
    assert_eq!(parse_hex(b"7D0"), Ok(2000));
    assert_eq!(parse_hex(b"0007d0"), Ok(2000));
    assert_eq!(parse_hex(b"00000000000000000001"), Ok(1));
}

#[test]
fn hex_decode_empty_is_zero() {
    assert_eq!(parse_hex(b""), Ok(0));
}

#[test]
fn hex_decode_rejects_malformed() {
    assert_eq!(parse_hex(b"7g0"), Err(FilterError::MalformedNumber));
    assert_eq!(parse_hex(b"0x10"), Err(FilterError::MalformedNumber));
    assert_eq!(parse_hex(b"-1"), Err(FilterError::MalformedNumber));
    assert_eq!(parse_hex(b"10000000000000000"), Err(FilterError::MalformedNumber));
}
