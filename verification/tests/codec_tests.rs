use memscan::codec::{decode, encode, ValueType};
use memscan::CoreError;

#[test]
fn encode_u32_little_endian() {
    // 300 = 0x012c, width 4, little-endian
    assert_eq!(encode("300", ValueType::U32).unwrap(), vec![0x2c, 0x01, 0x00, 0x00]);
}

#[test]
fn encode_i32_little_endian() {
    assert_eq!(encode("300", ValueType::I32).unwrap(), vec![0x2c, 0x01, 0x00, 0x00]);
}

#[test]
fn encode_i32_negative_twos_complement() {
    assert_eq!(encode("-1", ValueType::I32).unwrap(), vec![0xff, 0xff, 0xff, 0xff]);
    assert_eq!(encode("-2", ValueType::I32).unwrap(), vec![0xfe, 0xff, 0xff, 0xff]);
}

#[test]
fn encode_u64_little_endian() {
    assert_eq!(
        encode("1", ValueType::U64).unwrap(),
        vec![0x01, 0x00, 0x00, 0x00, 0x00, 0x00, 0x00, 0x00]
    );
}

#[test]
fn encode_hex_prefix_accepted() {
    assert_eq!(encode("0x1f", ValueType::U32).unwrap(), vec![0x1f, 0x00, 0x00, 0x00]);
}

#[test]
fn encode_u32_out_of_range() {
    assert_eq!(encode("4294967296", ValueType::U32), Err(CoreError::InvalidValue));
    assert_eq!(encode("4294967295", ValueType::U32).unwrap(), vec![0xff, 0xff, 0xff, 0xff]);
}

#[test]
fn encode_i32_range_edges() {
    assert_eq!(encode("-2147483648", ValueType::I32).unwrap(), vec![0x00, 0x00, 0x00, 0x80]);
    assert_eq!(encode("2147483647", ValueType::I32).unwrap(), vec![0xff, 0xff, 0xff, 0x7f]);
    assert_eq!(encode("2147483648", ValueType::I32), Err(CoreError::InvalidValue));
    assert_eq!(encode("-2147483649", ValueType::I32), Err(CoreError::InvalidValue));
}

#[test]
fn encode_i64_range_edges() {
    assert_eq!(
        encode("-9223372036854775808", ValueType::I64).unwrap(),
        vec![0x00, 0x00, 0x00, 0x00, 0x00, 0x00, 0x00, 0x80]
    );
    assert_eq!(encode("9223372036854775808", ValueType::I64), Err(CoreError::InvalidValue));
}

#[test]
fn encode_rejects_non_numeric() {
    assert_eq!(encode("", ValueType::U32), Err(CoreError::InvalidValue));
    assert_eq!(encode("12a", ValueType::U32), Err(CoreError::InvalidValue));
    assert_eq!(encode("-", ValueType::I32), Err(CoreError::InvalidValue));
    assert_eq!(encode("-5", ValueType::U32), Err(CoreError::InvalidValue));
}

#[test]
fn encode_hex_valid_pair() {
    assert_eq!(encode("1a2b", ValueType::Hex).unwrap(), vec![0x1a, 0x2b]);
}

#[test]
fn encode_hex_rejects_bad_digit() {
    assert_eq!(encode("zz", ValueType::Hex), Err(CoreError::InvalidValue));
}

#[test]
fn encode_hex_rejects_odd_length() {
    assert_eq!(encode("1a2", ValueType::Hex), Err(CoreError::InvalidValue));
}

#[test]
fn encode_hex_strips_prefix_and_folds_nothing() {
    assert_eq!(encode("0x1A2B", ValueType::Hex).unwrap(), vec![0x1a, 0x2b]);
}

#[test]
fn encode_string_verbatim() {
    assert_eq!(encode("abc", ValueType::String).unwrap(), vec![0x61, 0x62, 0x63]);
    assert_eq!(encode("", ValueType::String).unwrap(), Vec::<u8>::new());
}

#[test]
fn decode_u32_renders_decimal() {
    assert_eq!(decode(&vec![0x2c, 0x01, 0x00, 0x00], ValueType::U32).unwrap(), "300");
}

#[test]
fn decode_i32_negative() {
    assert_eq!(decode(&vec![0xff, 0xff, 0xff, 0xff], ValueType::I32).unwrap(), "-1");
    assert_eq!(decode(&vec![0x00, 0x00, 0x00, 0x80], ValueType::I32).unwrap(), "-2147483648");
}

#[test]
fn decode_i64_negative() {
    assert_eq!(
        decode(&vec![0xff, 0xff, 0xff, 0xff, 0xff, 0xff, 0xff, 0xff], ValueType::I64).unwrap(),
        "-1"
    );
}

#[test]
fn decode_wrong_width_rejected() {
    assert_eq!(decode(&vec![0x01, 0x02], ValueType::U32), Err(CoreError::InvalidValue));
    assert_eq!(decode(&vec![0x01, 0x02, 0x03, 0x04], ValueType::U64), Err(CoreError::InvalidValue));
}

#[test]
fn decode_hex_lowercase_pairs() {
    assert_eq!(decode(&vec![0x02, 0x03], ValueType::Hex).unwrap(), "0203");
    assert_eq!(decode(&vec![0xab, 0xcd], ValueType::Hex).unwrap(), "abcd");
}

#[test]
fn decode_string_utf8() {
    assert_eq!(decode(&vec![0x61, 0x62, 0x63], ValueType::String).unwrap(), "abc");
}

#[test]
fn decode_string_invalid_utf8_rejected() {
    assert_eq!(decode(&vec![0xff, 0xfe], ValueType::String), Err(CoreError::InvalidValue));
}

#[test]
fn round_trip_all_types() {
    // numerically equal after a round trip, for each representable sample
    for (text, t) in [
        ("0", ValueType::U32),
        ("300", ValueType::U32),
        ("4294967295", ValueType::U32),
        ("-1", ValueType::I32),
        ("2147483647", ValueType::I32),
        ("0", ValueType::U64),
        ("18446744073709551615", ValueType::U64),
        ("-9223372036854775808", ValueType::I64),
        ("42", ValueType::I64),
    ] {
        let b = encode(text, t).unwrap();
        assert_eq!(decode(&b, t).unwrap(), text);
    }
    let b = encode("1a2b", ValueType::Hex).unwrap();
    assert_eq!(decode(&b, ValueType::Hex).unwrap(), "1a2b");
    let b = encode("hello", ValueType::String).unwrap();
    assert_eq!(decode(&b, ValueType::String).unwrap(), "hello");
}

#[test]
fn round_trip_canonicalizes() {
    // leading zeros and hex input are not preserved, the value is
    let b = encode("007", ValueType::U32).unwrap();
    assert_eq!(decode(&b, ValueType::U32).unwrap(), "7");
    let b = encode("0x10", ValueType::U32).unwrap();
    assert_eq!(decode(&b, ValueType::U32).unwrap(), "16");
}

#[test]
fn fixed_width_per_type() {
    assert_eq!(ValueType::U32.fixed_width(), Some(4));
    assert_eq!(ValueType::I32.fixed_width(), Some(4));
    assert_eq!(ValueType::U64.fixed_width(), Some(8));
    assert_eq!(ValueType::I64.fixed_width(), Some(8));
    assert_eq!(ValueType::String.fixed_width(), None);
    assert_eq!(ValueType::Hex.fixed_width(), None);
}
