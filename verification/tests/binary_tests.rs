use lnmp_py_core::api::{decode_binary, encode_binary};
use lnmp_py_core::binary::{BinaryDecoder, BinaryEncoder, BinaryError};
use lnmp_py_core::value::{Record, Value};
use lnmp_py_core::vector::Vector;

fn binary_small() -> Record {
    let mut record = Record::new();
    record.insert("a".to_string(), Value::Integer(1)).unwrap();
    record
}

fn binary_rich() -> Record {
    let mut inner = Record::new();
    inner.insert("deep".to_string(), Value::Array(vec![])).unwrap();
    inner.insert("né".to_string(), Value::String("héllo \"w\"\n".to_string())).unwrap();
    let mut record = Record::new();
    record.insert("z".to_string(), Value::Null).unwrap();
    record.insert("flag".to_string(), Value::Bool(true)).unwrap();
    record.insert("off".to_string(), Value::Bool(false)).unwrap();
    record.insert("min".to_string(), Value::Integer(i64::MIN)).unwrap();
    record.insert("max".to_string(), Value::Integer(i64::MAX)).unwrap();
    record.insert("neg".to_string(), Value::Integer(-42)).unwrap();
    record.insert("pi".to_string(), Value::Float(3.141592653589793f64.to_bits())).unwrap();
    record.insert("nan".to_string(), Value::Float(f64::NAN.to_bits())).unwrap();
    record.insert("text".to_string(), Value::String(String::new())).unwrap();
    record.insert("raw".to_string(), Value::Bytes(vec![0, 255, 34, 10])).unwrap();
    record
        .insert(
            "emb".to_string(),
            Value::Embedding(Vector::from_f32_bits(vec![
                1.0f32.to_bits(),
                (-2.5f32).to_bits(),
                0,
            ])),
        )
        .unwrap();
    record.insert("pos".to_string(), Value::Spatial(vec![2, 63, 128, 0, 0])).unwrap();
    record
        .insert(
            "list".to_string(),
            Value::Array(vec![
                Value::Integer(7),
                Value::String("s".to_string()),
                Value::Array(vec![Value::Null]),
                Value::Record(inner),
            ]),
        )
        .unwrap();
    record.insert("a".to_string(), Value::Record(Record::new())).unwrap();
    record
}

#[test]
fn binary_form_of_a_small_record_is_exact() {
    let bytes = BinaryEncoder::new().encode(&binary_small());
    let expected: Vec<u8> = vec![
        0x4C, 0x4E, 0x4D, 0x50, 0x01, // magic and version
        1, 0, 0, 0, 0, 0, 0, 0, // one field
        1, 0, 0, 0, 0, 0, 0, 0, 0x61, // name "a"
        2, 1, 0, 0, 0, 0, 0, 0, 0, // integer 1
    ];
    assert_eq!(bytes, expected);
}

#[test]
fn binary_form_of_each_scalar_is_exact() {
    let mut record = Record::new();
    record.insert("n".to_string(), Value::Null).unwrap();
    record.insert("t".to_string(), Value::Bool(true)).unwrap();
    record.insert("m".to_string(), Value::Integer(-1)).unwrap();
    record.insert("s".to_string(), Value::String("é".to_string())).unwrap();
    record.insert("e".to_string(), Value::Embedding(Vector::from_f32_bits(vec![0x0102_0304]))).unwrap();
    let bytes = encode_binary(&record);
    let mut expected: Vec<u8> = vec![0x4C, 0x4E, 0x4D, 0x50, 0x01, 5, 0, 0, 0, 0, 0, 0, 0];
    expected.extend_from_slice(&[1, 0, 0, 0, 0, 0, 0, 0, b'n', 0]);
    expected.extend_from_slice(&[1, 0, 0, 0, 0, 0, 0, 0, b't', 1, 1]);
    expected.extend_from_slice(&[1, 0, 0, 0, 0, 0, 0, 0, b'm', 2]);
    expected.extend_from_slice(&[255; 8]);
    expected.extend_from_slice(&[1, 0, 0, 0, 0, 0, 0, 0, b's', 4, 2, 0, 0, 0, 0, 0, 0, 0, 0xC3, 0xA9]);
    expected.extend_from_slice(&[1, 0, 0, 0, 0, 0, 0, 0, b'e', 6, 1, 0, 0, 0, 0, 0, 0, 0, 4, 3, 2, 1]);
    assert_eq!(bytes, expected);
}

#[test]
fn binary_round_trip_keeps_values_and_order() {
    let record = binary_rich();
    let bytes = BinaryEncoder::new().encode(&record);
    let decoded = BinaryDecoder::new().decode(&bytes).unwrap();
    assert!(decoded.same(&record));
    assert_eq!(decoded.len(), record.len());
    for i in 0..record.len() {
        assert_eq!(decoded.field(i).name, record.field(i).name);
    }
    assert_eq!(decoded.field(0).name, "z");
    assert_eq!(decoded.field(record.len() - 1).name, "a");
}

#[test]
fn binary_encoding_is_deterministic() {
    let first = encode_binary(&binary_rich());
    let second = encode_binary(&binary_rich());
    assert_eq!(first, second);
    let again = encode_binary(&decode_binary(&first).unwrap());
    assert_eq!(first, again);
}

#[test]
fn binary_empty_record_round_trips() {
    let bytes = encode_binary(&Record::new());
    assert_eq!(bytes, vec![0x4C, 0x4E, 0x4D, 0x50, 0x01, 0, 0, 0, 0, 0, 0, 0, 0]);
    let decoded = decode_binary(&bytes).unwrap();
    assert_eq!(decoded.len(), 0);
    assert!(decoded.same(&Record::new()));
}

#[test]
fn binary_field_order_changes_the_bytes() {
    let mut ab = Record::new();
    ab.insert("a".to_string(), Value::Integer(1)).unwrap();
    ab.insert("b".to_string(), Value::Integer(2)).unwrap();
    let mut ba = Record::new();
    ba.insert("b".to_string(), Value::Integer(2)).unwrap();
    ba.insert("a".to_string(), Value::Integer(1)).unwrap();
    assert_ne!(encode_binary(&ab), encode_binary(&ba));
    assert_eq!(decode_binary(&encode_binary(&ba)).unwrap().field(0).name, "b");
}

#[test]
fn binary_decode_reports_truncation() {
    let bytes = encode_binary(&binary_rich());
    assert_eq!(decode_binary(&[]).unwrap_err(), BinaryError::TruncatedInput);
    assert_eq!(decode_binary(&bytes[..4]).unwrap_err(), BinaryError::TruncatedInput);
    assert_eq!(decode_binary(&bytes[..12]).unwrap_err(), BinaryError::TruncatedInput);
    for cut in 13..bytes.len() {
        assert_eq!(decode_binary(&bytes[..cut]).unwrap_err(), BinaryError::TruncatedInput);
    }
    // a string that announces more bytes than remain
    let mut long = vec![0x4C, 0x4E, 0x4D, 0x50, 0x01, 1, 0, 0, 0, 0, 0, 0, 0];
    long.extend_from_slice(&[1, 0, 0, 0, 0, 0, 0, 0, b'a', 4, 9, 0, 0, 0, 0, 0, 0, 0, b'x']);
    assert_eq!(decode_binary(&long).unwrap_err(), BinaryError::TruncatedInput);
    // a count that announces more fields than bytes remain
    let many = vec![0x4C, 0x4E, 0x4D, 0x50, 0x01, 255, 255, 255, 255, 255, 255, 255, 255];
    assert_eq!(decode_binary(&many).unwrap_err(), BinaryError::TruncatedInput);
}

#[test]
fn binary_decode_reports_header_faults() {
    let bytes = encode_binary(&binary_small());
    let mut magic = bytes.clone();
    magic[0] = 0x58;
    assert_eq!(decode_binary(&magic).unwrap_err(), BinaryError::BadMagic);
    let mut version = bytes.clone();
    version[4] = 2;
    assert_eq!(decode_binary(&version).unwrap_err(), BinaryError::UnsupportedVersion);
}

#[test]
fn binary_decode_reports_corrupt_tags() {
    let bytes = encode_binary(&binary_small());
    let mut tag = bytes.clone();
    tag[22] = 10;
    assert_eq!(decode_binary(&tag).unwrap_err(), BinaryError::CorruptTag);
    let mut flag = vec![0x4C, 0x4E, 0x4D, 0x50, 0x01, 1, 0, 0, 0, 0, 0, 0, 0];
    flag.extend_from_slice(&[1, 0, 0, 0, 0, 0, 0, 0, b'a', 1, 2]);
    assert_eq!(decode_binary(&flag).unwrap_err(), BinaryError::CorruptTag);
}

#[test]
fn binary_decode_reports_name_faults() {
    let mut twice = vec![0x4C, 0x4E, 0x4D, 0x50, 0x01, 2, 0, 0, 0, 0, 0, 0, 0];
    twice.extend_from_slice(&[1, 0, 0, 0, 0, 0, 0, 0, b'a', 0]);
    twice.extend_from_slice(&[1, 0, 0, 0, 0, 0, 0, 0, b'a', 0]);
    assert_eq!(
        decode_binary(&twice).unwrap_err(),
        BinaryError::DuplicateField { name: "a".to_string() }
    );
    let mut nested = vec![0x4C, 0x4E, 0x4D, 0x50, 0x01, 1, 0, 0, 0, 0, 0, 0, 0];
    nested.extend_from_slice(&[1, 0, 0, 0, 0, 0, 0, 0, b'r', 9, 2, 0, 0, 0, 0, 0, 0, 0]);
    nested.extend_from_slice(&[1, 0, 0, 0, 0, 0, 0, 0, b'k', 0]);
    nested.extend_from_slice(&[1, 0, 0, 0, 0, 0, 0, 0, b'k', 0]);
    assert_eq!(
        decode_binary(&nested).unwrap_err(),
        BinaryError::DuplicateField { name: "k".to_string() }
    );
    let mut unnamed = vec![0x4C, 0x4E, 0x4D, 0x50, 0x01, 1, 0, 0, 0, 0, 0, 0, 0];
    unnamed.extend_from_slice(&[0, 0, 0, 0, 0, 0, 0, 0, 0]);
    assert_eq!(decode_binary(&unnamed).unwrap_err(), BinaryError::EmptyFieldName);
    let mut garbled = vec![0x4C, 0x4E, 0x4D, 0x50, 0x01, 1, 0, 0, 0, 0, 0, 0, 0];
    garbled.extend_from_slice(&[1, 0, 0, 0, 0, 0, 0, 0, 0xFF, 0]);
    assert_eq!(decode_binary(&garbled).unwrap_err(), BinaryError::InvalidText);
    let mut text = vec![0x4C, 0x4E, 0x4D, 0x50, 0x01, 1, 0, 0, 0, 0, 0, 0, 0];
    text.extend_from_slice(&[1, 0, 0, 0, 0, 0, 0, 0, b'a', 4, 1, 0, 0, 0, 0, 0, 0, 0, 0xC3]);
    assert_eq!(decode_binary(&text).unwrap_err(), BinaryError::InvalidText);
}

#[test]
fn binary_decode_reports_trailing_bytes() {
    let mut bytes = encode_binary(&binary_small());
    bytes.push(0);
    assert_eq!(decode_binary(&bytes).unwrap_err(), BinaryError::TrailingBytes);
}
