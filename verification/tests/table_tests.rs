use amqp_serialization::cursor::Cursor;
use amqp_serialization::item::read_item;
use amqp_serialization::value::{DecodeError, TableEntry, Value};

/// A short string as encoded on the wire: one length byte, then the bytes.
fn short_str(s: &str) -> Vec<u8> {
    let mut out = vec![s.len() as u8];
    out.extend_from_slice(s.as_bytes());
    out
}

/// A field table as encoded on the wire: the four-byte big-endian payload
/// length, then the payload.
fn with_length_prefix(payload: &[u8]) -> Vec<u8> {
    let mut out = (payload.len() as u32).to_be_bytes().to_vec();
    out.extend_from_slice(payload);
    out
}

fn decode_one_item(buf: &[u8]) -> Result<(Value, usize), DecodeError> {
    let mut cur = Cursor::new(buf, 0);
    let v = read_item(&mut cur)?;
    Ok((v, cur.position()))
}

#[test]
fn decimal_is_exact() {
    // scale 2, unscaled 12345: exactly 123.45, no floating point involved.
    let buf = [b'D', 2, 0x00, 0x00, 0x30, 0x39];
    let (v, end) = decode_one_item(&buf).unwrap();
    assert_eq!(
        v,
        Value::Decimal {
            scale: 2,
            unscaled: 12345
        }
    );
    assert_eq!(end, 6);
}

#[test]
fn decimal_negative_unscaled() {
    let buf = [b'D', 1, 0xFF, 0xFF, 0xFF, 0xFB];
    let (v, end) = decode_one_item(&buf).unwrap();
    assert_eq!(
        v,
        Value::Decimal {
            scale: 1,
            unscaled: -5
        }
    );
    assert_eq!(end, 6);
}

#[test]
fn signed_items_cover_extremes() {
    let (v, _) = decode_one_item(&[b'B', 0xFF]).unwrap();
    assert_eq!(v, Value::Int8(-1));
    let (v, _) = decode_one_item(&[b'U', 0x80, 0x00]).unwrap();
    assert_eq!(v, Value::Int16(i16::MIN));
    let (v, _) = decode_one_item(&[b'I', 0xFF, 0xFF, 0xFF, 0xFE]).unwrap();
    assert_eq!(v, Value::Int32(-2));
    let (v, _) = decode_one_item(&[b'L', 0x80, 0, 0, 0, 0, 0, 0, 0]).unwrap();
    assert_eq!(v, Value::Int64(i64::MIN));
}

#[test]
fn unsigned_items_cover_extremes() {
    let (v, _) = decode_one_item(&[b'b', 0xFF]).unwrap();
    assert_eq!(v, Value::UInt8(255));
    let (v, _) = decode_one_item(&[b'u', 0xFF, 0xFE]).unwrap();
    assert_eq!(v, Value::UInt16(0xFFFE));
    let (v, _) = decode_one_item(&[b'i', 0xDE, 0xAD, 0xBE, 0xEF]).unwrap();
    assert_eq!(v, Value::UInt32(0xDEAD_BEEF));
    let (v, end) = decode_one_item(&[b'l', 0xFF, 0xFF, 0xFF, 0xFF, 0xFF, 0xFF, 0xFF, 0xFF])
        .unwrap();
    assert_eq!(v, Value::UInt64(u64::MAX));
    assert_eq!(end, 9);
}

#[test]
fn float_items_carry_exact_bits() {
    let mut buf = vec![b'f'];
    buf.extend_from_slice(&1.5f32.to_bits().to_be_bytes());
    let (v, _) = decode_one_item(&buf).unwrap();
    assert_eq!(v, Value::Float32(1.5f32.to_bits()));

    let mut buf = vec![b'd'];
    buf.extend_from_slice(&(-0.25f64).to_bits().to_be_bytes());
    let (v, _) = decode_one_item(&buf).unwrap();
    assert_eq!(v, Value::Float64((-0.25f64).to_bits()));
}

#[test]
fn bool_item_is_nonzero_test() {
    let (v, _) = decode_one_item(&[b't', 0]).unwrap();
    assert_eq!(v, Value::Bool(false));
    let (v, _) = decode_one_item(&[b't', 1]).unwrap();
    assert_eq!(v, Value::Bool(true));
    let (v, _) = decode_one_item(&[b't', 2]).unwrap();
    assert_eq!(v, Value::Bool(true));
}

#[test]
fn void_item_consumes_only_its_tag() {
    let (v, end) = decode_one_item(&[b'V', 99]).unwrap();
    assert_eq!(v, Value::Void);
    assert_eq!(end, 1);
}

#[test]
fn text_and_blob_items() {
    let mut buf = vec![b's'];
    buf.extend_from_slice(&short_str("key"));
    let (v, _) = decode_one_item(&buf).unwrap();
    assert_eq!(v, Value::ShortText(String::from("key")));

    let mut buf = vec![b'S', 0, 0, 0, 2];
    buf.extend_from_slice(b"ok");
    let (v, _) = decode_one_item(&buf).unwrap();
    assert_eq!(v, Value::LongText(String::from("ok")));

    let buf = [b'x', 0, 0, 0, 3, 9, 8, 7];
    let (v, end) = decode_one_item(&buf).unwrap();
    assert_eq!(v, Value::Bytes(vec![9, 8, 7]));
    assert_eq!(end, 8);
}

#[test]
fn unknown_table_tag_fails_with_the_byte() {
    let err = decode_one_item(&[b'@', 0, 0]).unwrap_err();
    assert_eq!(err, DecodeError::MalformedTableTag(b'@'));
}

#[test]
fn table_preserves_insertion_order() {
    let mut payload = Vec::new();
    payload.extend_from_slice(&short_str("beta"));
    payload.extend_from_slice(&[b't', 1]);
    payload.extend_from_slice(&short_str("alpha"));
    payload.extend_from_slice(&[b'b', 7]);
    let mut buf = vec![b'F'];
    buf.extend_from_slice(&with_length_prefix(&payload));
    let (v, end) = decode_one_item(&buf).unwrap();
    assert_eq!(
        v,
        Value::Table(vec![
            TableEntry {
                key: String::from("beta"),
                value: Value::Bool(true),
            },
            TableEntry {
                key: String::from("alpha"),
                value: Value::UInt8(7),
            },
        ])
    );
    assert_eq!(end, buf.len());
}

#[test]
fn table_duplicate_key_overwrites_in_place() {
    let mut payload = Vec::new();
    payload.extend_from_slice(&short_str("k"));
    payload.extend_from_slice(&[b'b', 1]);
    payload.extend_from_slice(&short_str("other"));
    payload.extend_from_slice(&[b'b', 2]);
    payload.extend_from_slice(&short_str("k"));
    payload.extend_from_slice(&[b'b', 3]);
    let mut buf = vec![b'F'];
    buf.extend_from_slice(&with_length_prefix(&payload));
    let (v, _) = decode_one_item(&buf).unwrap();
    assert_eq!(
        v,
        Value::Table(vec![
            TableEntry {
                key: String::from("k"),
                value: Value::UInt8(3),
            },
            TableEntry {
                key: String::from("other"),
                value: Value::UInt8(2),
            },
        ])
    );
}

#[test]
fn nested_table_in_array_in_table() {
    // outer table: { "a": [ { "b": true } ] }
    let mut inner_payload = Vec::new();
    inner_payload.extend_from_slice(&short_str("b"));
    inner_payload.extend_from_slice(&[b't', 1]);
    let mut inner_table = vec![b'F'];
    inner_table.extend_from_slice(&with_length_prefix(&inner_payload));

    let mut array = vec![b'A'];
    array.extend_from_slice(&with_length_prefix(&inner_table));

    let mut outer_payload = Vec::new();
    outer_payload.extend_from_slice(&short_str("a"));
    outer_payload.extend_from_slice(&array);
    let mut buf = vec![b'F'];
    buf.extend_from_slice(&with_length_prefix(&outer_payload));

    let (v, end) = decode_one_item(&buf).unwrap();
    assert_eq!(
        v,
        Value::Table(vec![TableEntry {
            key: String::from("a"),
            value: Value::Array(vec![Value::Table(vec![TableEntry {
                key: String::from("b"),
                value: Value::Bool(true),
            }])]),
        }])
    );
    assert_eq!(end, buf.len());
}

#[test]
fn empty_table_and_empty_array() {
    let buf = [b'F', 0, 0, 0, 0];
    let (v, end) = decode_one_item(&buf).unwrap();
    assert_eq!(v, Value::Table(vec![]));
    assert_eq!(end, 5);

    let buf = [b'A', 0, 0, 0, 0];
    let (v, end) = decode_one_item(&buf).unwrap();
    assert_eq!(v, Value::Array(vec![]));
    assert_eq!(end, 5);
}

#[test]
fn array_keeps_item_order() {
    let payload = [b'b', 1, b'b', 2, b'b', 3];
    let mut buf = vec![b'A'];
    buf.extend_from_slice(&with_length_prefix(&payload));
    let (v, _) = decode_one_item(&buf).unwrap();
    assert_eq!(
        v,
        Value::Array(vec![
            Value::UInt8(1),
            Value::UInt8(2),
            Value::UInt8(3),
        ])
    );
}

#[test]
fn mismatched_table_length_surfaces_error() {
    // Declared length runs past the buffer: the key read inside the span
    // fails with a truncation error, no partial table comes back.
    let mut buf = vec![b'F'];
    buf.extend_from_slice(&8u32.to_be_bytes());
    buf.extend_from_slice(&short_str("k"));
    buf.extend_from_slice(&[b'b', 1]);
    let err = decode_one_item(&buf).unwrap_err();
    assert_eq!(err, DecodeError::Truncated);

    // Declared length misaligned with the content: the loop lands on a
    // byte that is no known tag and fails, naming that byte.
    let mut payload = Vec::new();
    payload.extend_from_slice(&short_str("k"));
    payload.extend_from_slice(&[b'b', 1, 0xEE]);
    let mut buf = vec![b'F'];
    buf.extend_from_slice(&with_length_prefix(&payload));
    buf.push(0xEE);
    let err = decode_one_item(&buf).unwrap_err();
    assert_eq!(err, DecodeError::Truncated);
}

#[test]
fn mismatched_array_length_surfaces_error() {
    // One item declared over five bytes: after the boolean the loop reads
    // the stray byte as a tag and fails, naming it.
    let payload = [b't', 1, 0x21, 0x21, 0x21];
    let mut buf = vec![b'A'];
    buf.extend_from_slice(&with_length_prefix(&payload));
    let err = decode_one_item(&buf).unwrap_err();
    assert_eq!(err, DecodeError::MalformedTableTag(0x21));
}

#[test]
fn table_via_format_descriptor() {
    let mut payload = Vec::new();
    payload.extend_from_slice(&short_str("n"));
    payload.extend_from_slice(&[b'i', 0, 0, 0, 5]);
    let buf = with_length_prefix(&payload);
    let (values, end) = amqp_serialization::decode::loads("F", &buf, 0).unwrap();
    assert_eq!(
        values,
        vec![Value::Table(vec![TableEntry {
            key: String::from("n"),
            value: Value::UInt32(5),
        }])]
    );
    assert_eq!(end, buf.len());
}

#[test]
fn timestamp_and_decimal_inside_table() {
    let mut payload = Vec::new();
    payload.extend_from_slice(&short_str("at"));
    payload.push(b'T');
    payload.extend_from_slice(&1_600_000_000u64.to_be_bytes());
    payload.extend_from_slice(&short_str("price"));
    payload.extend_from_slice(&[b'D', 2, 0x00, 0x00, 0x30, 0x39]);
    let buf = with_length_prefix(&payload);
    let (values, end) = amqp_serialization::decode::loads("F", &buf, 0).unwrap();
    assert_eq!(
        values,
        vec![Value::Table(vec![
            TableEntry {
                key: String::from("at"),
                value: Value::Timestamp(1_600_000_000),
            },
            TableEntry {
                key: String::from("price"),
                value: Value::Decimal {
                    scale: 2,
                    unscaled: 12345,
                },
            },
        ])]
    );
    assert_eq!(end, buf.len());
}
