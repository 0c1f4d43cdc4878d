use amqp_serialization::decode::loads;
use amqp_serialization::value::{DecodeError, Value};

#[test]
fn scenario_two_octets_one_short() {
    let buf = [0x01u8, 0x02, 0x00, 0x10];
    let (values, end) = loads("ooB", &buf, 0).unwrap();
    assert_eq!(
        values,
        vec![Value::UInt8(1), Value::UInt8(2), Value::UInt16(16)]
    );
    assert_eq!(end, 4);
}

#[test]
fn scenario_three_bits() {
    let buf = [0b0000_0101u8];
    let (values, end) = loads("bbb", &buf, 0).unwrap();
    assert_eq!(
        values,
        vec![Value::Bool(true), Value::Bool(false), Value::Bool(true)]
    );
    assert_eq!(end, 1);
}

#[test]
fn bool_runs_consume_one_byte() {
    let v = 0xA5u8; // 1010_0101
    for n in 1..=8usize {
        let format: String = "b".repeat(n);
        let buf = [v];
        let (values, end) = loads(&format, &buf, 0).unwrap();
        assert_eq!(end, 1, "run of {} must consume exactly one byte", n);
        assert_eq!(values.len(), n);
        for (i, value) in values.iter().enumerate() {
            let expected = (v >> i) & 1 == 1;
            assert_eq!(*value, Value::Bool(expected), "bit {} of run {}", i, n);
        }
    }
}

#[test]
fn ninth_bool_consumes_second_byte() {
    let buf = [0xFFu8, 0x01];
    let (values, end) = loads("bbbbbbbbb", &buf, 0).unwrap();
    assert_eq!(end, 2);
    assert_eq!(values.len(), 9);
    for value in values.iter().take(8) {
        assert_eq!(*value, Value::Bool(true));
    }
    assert_eq!(values[8], Value::Bool(true));
}

#[test]
fn other_tag_resets_bit_run() {
    // boolean, octet, boolean: the second boolean starts a fresh byte.
    let buf = [0x00u8, 0xFF, 0x01];
    let (values, end) = loads("bob", &buf, 0).unwrap();
    assert_eq!(
        values,
        vec![Value::Bool(false), Value::UInt8(255), Value::Bool(true)]
    );
    assert_eq!(end, 3);
}

#[test]
fn short_string_exact() {
    let buf = [2u8, b'h', b'i'];
    let (values, end) = loads("s", &buf, 0).unwrap();
    assert_eq!(values, vec![Value::ShortText(String::from("hi"))]);
    assert_eq!(end, 3);
}

#[test]
fn short_string_truncated_returns_present_bytes() {
    let buf = [5u8, b'a', b'b'];
    let (values, end) = loads("s", &buf, 0).unwrap();
    assert_eq!(values, vec![Value::ShortText(String::from("ab"))]);
    assert_eq!(end, buf.len());
}

#[test]
fn long_string_truncated_returns_present_bytes() {
    let buf = [0u8, 0, 0, 100, b'x', b'y', b'z'];
    let (values, end) = loads("S", &buf, 0).unwrap();
    assert_eq!(values, vec![Value::LongText(String::from("xyz"))]);
    assert_eq!(end, buf.len());
}

#[test]
fn bytes_blob_truncated_returns_present_bytes() {
    let buf = [0u8, 0, 0, 9, 1, 2, 3];
    let (values, end) = loads("x", &buf, 0).unwrap();
    assert_eq!(values, vec![Value::Bytes(vec![1, 2, 3])]);
    assert_eq!(end, buf.len());
}

#[test]
fn bytes_blob_exact() {
    let buf = [0u8, 0, 0, 2, 7, 9, 42];
    let (values, end) = loads("x", &buf, 0).unwrap();
    assert_eq!(values, vec![Value::Bytes(vec![7, 9])]);
    assert_eq!(end, 6);
}

#[test]
fn invalid_utf8_is_replaced_not_rejected() {
    let buf = [2u8, 0xFF, 0xFE];
    let (values, end) = loads("s", &buf, 0).unwrap();
    assert_eq!(
        values,
        vec![Value::ShortText(String::from("\u{FFFD}\u{FFFD}"))]
    );
    assert_eq!(end, 3);
}

#[test]
fn timestamp_epoch_zero_and_value() {
    let buf = [0u8; 8];
    let (values, end) = loads("T", &buf, 0).unwrap();
    assert_eq!(values, vec![Value::Timestamp(0)]);
    assert_eq!(end, 8);

    let buf = [0x00u8, 0x00, 0x00, 0x00, 0x5F, 0x5E, 0x10, 0x00];
    let (values, end) = loads("T", &buf, 0).unwrap();
    assert_eq!(values, vec![Value::Timestamp(1_600_000_000)]);
    assert_eq!(end, 8);
}

#[test]
fn fixed_width_outer_tags() {
    let buf = [
        0xFFu8, // o
        0x12, 0x34, // B
        0x01, 0x02, 0x03, 0x04, // l
        0x01, 0x02, 0x03, 0x04, 0x05, 0x06, 0x07, 0x08, // L
    ];
    let (values, end) = loads("oBlL", &buf, 0).unwrap();
    assert_eq!(
        values,
        vec![
            Value::UInt8(0xFF),
            Value::UInt16(0x1234),
            Value::UInt32(0x0102_0304),
            Value::UInt64(0x0102_0304_0506_0708),
        ]
    );
    assert_eq!(end, buf.len());
}

#[test]
fn float32_outer_carries_exact_bits() {
    let bits = 2.5f32.to_bits();
    let buf = bits.to_be_bytes();
    let (values, end) = loads("f", &buf, 0).unwrap();
    assert_eq!(values, vec![Value::Float32(bits)]);
    assert_eq!(end, 4);
    match &values[0] {
        Value::Float32(b) => assert_eq!(f32::from_bits(*b), 2.5f32),
        other => panic!("unexpected value {:?}", other),
    }
}

#[test]
fn unknown_outer_tag_fails_with_malformed_tag() {
    let buf = [1u8, 2, 3, 4];
    let err = loads("@", &buf, 0).unwrap_err();
    assert_eq!(err, DecodeError::MalformedFormatTag('@'));
    // Never silently skipped, even after valid tags.
    let err = loads("o@", &buf, 0).unwrap_err();
    assert_eq!(err, DecodeError::MalformedFormatTag('@'));
}

#[test]
fn truncated_fixed_width_fails() {
    let buf = [1u8, 2];
    assert_eq!(loads("l", &buf, 0).unwrap_err(), DecodeError::Truncated);
    assert_eq!(loads("T", &buf, 0).unwrap_err(), DecodeError::Truncated);
    assert_eq!(loads("b", &[], 0).unwrap_err(), DecodeError::Truncated);
}

#[test]
fn empty_format_consumes_nothing() {
    let buf = [9u8, 9];
    let (values, end) = loads("", &buf, 1).unwrap();
    assert!(values.is_empty());
    assert_eq!(end, 1);
}

#[test]
fn decoding_resumes_at_returned_offset() {
    let buf = [7u8, 0x00, 0x2A];
    let (values, end) = loads("o", &buf, 0).unwrap();
    assert_eq!(values, vec![Value::UInt8(7)]);
    assert_eq!(end, 1);
    let (values, end) = loads("B", &buf, end).unwrap();
    assert_eq!(values, vec![Value::UInt16(42)]);
    assert_eq!(end, 3);
}

#[test]
fn offset_at_or_past_end() {
    // An empty format consumes nothing wherever the offset lies.
    let (values, end) = loads("", &[], 5).unwrap();
    assert!(values.is_empty());
    assert_eq!(end, 5);
    // Any tag at or past the end is a truncation error.
    assert_eq!(loads("o", &[], 0).unwrap_err(), DecodeError::Truncated);
    assert_eq!(loads("o", &[1], 1).unwrap_err(), DecodeError::Truncated);
}
