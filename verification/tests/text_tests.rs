use lnmp_py_core::api::{encode, parse};
use lnmp_py_core::text::{Encoder, Parser, SyntaxError, SyntaxKind, TextError};
use lnmp_py_core::value::{Record, Value};
use lnmp_py_core::vector::Vector;

fn text_pair() -> Record {
    let mut record = Record::new();
    record.insert("a".to_string(), Value::Integer(1)).unwrap();
    record.insert("b".to_string(), Value::String("x".to_string())).unwrap();
    record
}

fn text_rich() -> Record {
    let mut inner = Record::new();
    inner.insert("deep".to_string(), Value::Array(vec![])).unwrap();
    inner.insert("né".to_string(), Value::String("héllo \"w\"\n:,}]".to_string())).unwrap();
    let mut record = Record::new();
    record.insert("z".to_string(), Value::Null).unwrap();
    record.insert("flag".to_string(), Value::Bool(true)).unwrap();
    record.insert("off".to_string(), Value::Bool(false)).unwrap();
    record.insert("min".to_string(), Value::Integer(i64::MIN)).unwrap();
    record.insert("max".to_string(), Value::Integer(i64::MAX)).unwrap();
    record.insert("zero".to_string(), Value::Integer(0)).unwrap();
    record.insert("pi".to_string(), Value::Float(3.141592653589793f64.to_bits())).unwrap();
    record.insert("text".to_string(), Value::String(String::new())).unwrap();
    record.insert("raw".to_string(), Value::Bytes(vec![0, 255, 34, 10])).unwrap();
    record.insert("none".to_string(), Value::Bytes(vec![])).unwrap();
    record
        .insert(
            "emb".to_string(),
            Value::Embedding(Vector::from_f32_bits(vec![1.0f32.to_bits(), 0, u32::MAX])),
        )
        .unwrap();
    record.insert("e0".to_string(), Value::Embedding(Vector::from_f32_bits(vec![]))).unwrap();
    record.insert("pos".to_string(), Value::Spatial(vec![2, 63, 128, 0, 0])).unwrap();
    record
        .insert(
            "list".to_string(),
            Value::Array(vec![
                Value::Integer(7),
                Value::Integer(-8),
                Value::String("12".to_string()),
                Value::Array(vec![Value::Null]),
                Value::Record(inner),
            ]),
        )
        .unwrap();
    record.insert("a".to_string(), Value::Record(Record::new())).unwrap();
    record
}

fn text_syntax(line: usize, column: usize, kind: SyntaxKind) -> TextError {
    TextError::Syntax(SyntaxError { line, column, kind })
}

#[test]
fn text_of_a_small_record_is_exact() {
    assert_eq!(encode(&text_pair()), "{\"1:a\":1,\"1:b\":\"1:x\"}");
    assert_eq!(Encoder::new().encode(&Record::new()), "{}");
}

#[test]
fn text_of_each_kind_of_value_is_exact() {
    let mut record = Record::new();
    record.insert("n".to_string(), Value::Null).unwrap();
    record.insert("t".to_string(), Value::Bool(true)).unwrap();
    record.insert("f".to_string(), Value::Bool(false)).unwrap();
    record.insert("i".to_string(), Value::Integer(-120)).unwrap();
    record.insert("d".to_string(), Value::Float(1.0f64.to_bits())).unwrap();
    record.insert("s".to_string(), Value::String("é\"".to_string())).unwrap();
    record.insert("x".to_string(), Value::Bytes(vec![0, 10, 255])).unwrap();
    record.insert("p".to_string(), Value::Spatial(vec![171])).unwrap();
    record
        .insert("v".to_string(), Value::Embedding(Vector::from_f32_bits(vec![0x3F80_0000, 10])))
        .unwrap();
    record
        .insert("l".to_string(), Value::Array(vec![Value::Integer(1), Value::Array(vec![])]))
        .unwrap();
    record.insert("r".to_string(), Value::Record(text_pair())).unwrap();
    let expected = concat_text(&[
        "{\"1:n\":null,\"1:t\":true,\"1:f\":false,\"1:i\":-120,",
        "\"1:d\":#3ff0000000000000,\"1:s\":\"3:é\"\",\"1:x\":x\"000aff\",\"1:p\":p\"ab\",",
        "\"1:v\":v[3f800000,0000000a],\"1:l\":[1,[]],",
        "\"1:r\":{\"1:a\":1,\"1:b\":\"1:x\"}}",
    ]);
    assert_eq!(encode(&record), expected);
}

fn concat_text(parts: &[&str]) -> String {
    let mut out = String::new();
    for p in parts {
        out.push_str(p);
    }
    out
}

#[test]
fn text_round_trip_of_two_fields_keeps_order() {
    let record = text_pair();
    let text = Encoder::new().encode(&record);
    let parsed = Parser::new(&text).unwrap().parse_record().unwrap();
    assert!(parsed.same(&record));
    assert_eq!(parsed.len(), 2);
    assert_eq!(parsed.field(0).name, "a");
    assert_eq!(parsed.field(1).name, "b");
}

#[test]
fn text_round_trip_keeps_every_kind_of_value() {
    let record = text_rich();
    let text = encode(&record);
    let parsed = parse(&text).unwrap();
    assert!(parsed.same(&record));
    assert_eq!(encode(&parsed), text);
}

#[test]
fn text_empty_record_round_trips() {
    let parsed = parse("{}").unwrap();
    assert_eq!(parsed.len(), 0);
    assert_eq!(encode(&parsed), "{}");
}

#[test]
fn parser_new_wants_an_opening_brace() {
    assert_eq!(Parser::new("").unwrap_err(), text_syntax(1, 1, SyntaxKind::ExpectedRecord));
    assert_eq!(Parser::new("[1]").unwrap_err(), text_syntax(1, 1, SyntaxKind::ExpectedRecord));
    assert_eq!(parse(" {}").unwrap_err(), text_syntax(1, 1, SyntaxKind::ExpectedRecord));
    assert!(Parser::new("{").is_ok());
}

#[test]
fn parse_reports_unterminated_structures() {
    assert_eq!(parse("{").unwrap_err(), TextError::UnterminatedStructure);
    assert_eq!(parse("{\"1:a\":1").unwrap_err(), TextError::UnterminatedStructure);
    assert_eq!(parse("{\"1:a\":[1,2").unwrap_err(), TextError::UnterminatedStructure);
    assert_eq!(parse("{\"1:a\":{\"1:b\":1}").unwrap_err(), TextError::UnterminatedStructure);
    assert_eq!(parse("{\"1:a\":\"5:abc\"}").unwrap_err(), TextError::UnterminatedStructure);
    assert_eq!(parse("{\"1:a\":nu").unwrap_err(), TextError::UnterminatedStructure);
    assert_eq!(parse("{\"1:a\":x\"0").unwrap_err(), TextError::UnterminatedStructure);
    assert_eq!(parse("{\"1:a\":#3ff").unwrap_err(), TextError::UnterminatedStructure);
}

#[test]
fn parse_reports_duplicate_fields() {
    assert_eq!(
        parse("{\"1:a\":1,\"1:a\":2}").unwrap_err(),
        TextError::DuplicateField { name: "a".to_string() }
    );
    assert_eq!(
        parse("{\"1:r\":{\"2:kk\":1,\"1:x\":2,\"2:kk\":3}}").unwrap_err(),
        TextError::DuplicateField { name: "kk".to_string() }
    );
}

#[test]
fn parse_reports_syntax_errors_with_their_place() {
    assert_eq!(parse("{\"1:a\":@}").unwrap_err(), text_syntax(1, 8, SyntaxKind::ExpectedValue));
    assert_eq!(parse("{\"1:a\":nul1}").unwrap_err(), text_syntax(1, 11, SyntaxKind::ExpectedKeyword));
    assert_eq!(parse("{\"1:a\":01}").unwrap_err(), text_syntax(1, 8, SyntaxKind::InvalidInteger));
    assert_eq!(parse("{\"1:a\":-0}").unwrap_err(), text_syntax(1, 8, SyntaxKind::InvalidInteger));
    assert_eq!(parse("{\"1:a\":-}").unwrap_err(), text_syntax(1, 8, SyntaxKind::InvalidInteger));
    assert_eq!(
        parse("{\"1:a\":9223372036854775808}").unwrap_err(),
        text_syntax(1, 8, SyntaxKind::InvalidInteger)
    );
    assert_eq!(
        parse("{\"1:a\":-9223372036854775809}").unwrap_err(),
        text_syntax(1, 8, SyntaxKind::InvalidInteger)
    );
    assert_eq!(parse("{\"1:a\":\"x\"}").unwrap_err(), text_syntax(1, 9, SyntaxKind::InvalidLength));
    assert_eq!(parse("{\"1:a\":\"01:x\"}").unwrap_err(), text_syntax(1, 9, SyntaxKind::InvalidLength));
    assert_eq!(parse("{\"1:a\":\"1x\"}").unwrap_err(), text_syntax(1, 10, SyntaxKind::ExpectedColon));
    assert_eq!(parse("{\"1:a\":\"1:xy\"}").unwrap_err(), text_syntax(1, 12, SyntaxKind::ExpectedQuote));
    assert_eq!(parse("{\"1:a\":x\"0g\"}").unwrap_err(), text_syntax(1, 11, SyntaxKind::ExpectedHexDigit));
    assert_eq!(parse("{\"1:a\":x\"0A\"}").unwrap_err(), text_syntax(1, 11, SyntaxKind::ExpectedHexDigit));
    assert_eq!(parse("{\"1:a\":x0}").unwrap_err(), text_syntax(1, 9, SyntaxKind::ExpectedQuote));
    assert_eq!(parse("{\"1:a\":#zz}").unwrap_err(), text_syntax(1, 9, SyntaxKind::ExpectedHexDigit));
    assert_eq!(parse("{\"1:a\":v(1)}").unwrap_err(), text_syntax(1, 9, SyntaxKind::ExpectedValue));
    assert_eq!(
        parse("{\"1:a\":v[00000001;]}").unwrap_err(),
        text_syntax(1, 18, SyntaxKind::ExpectedSeparator)
    );
    assert_eq!(parse("{\"1:a\":[1 2]}").unwrap_err(), text_syntax(1, 10, SyntaxKind::ExpectedSeparator));
    assert_eq!(parse("{\"1:a\":[1,]}").unwrap_err(), text_syntax(1, 11, SyntaxKind::ExpectedValue));
    assert_eq!(parse("{\"1:a\":1;}").unwrap_err(), text_syntax(1, 9, SyntaxKind::ExpectedSeparator));
    assert_eq!(parse("{\"1:a\"=1}").unwrap_err(), text_syntax(1, 7, SyntaxKind::ExpectedColon));
    assert_eq!(parse("{a:1}").unwrap_err(), text_syntax(1, 2, SyntaxKind::ExpectedQuote));
    assert_eq!(parse("{\"0:\":1}").unwrap_err(), text_syntax(1, 2, SyntaxKind::EmptyFieldName));
    assert_eq!(parse("{\"1:é\":1}").unwrap_err(), text_syntax(1, 6, SyntaxKind::ExpectedQuote));
    assert_eq!(parse("{} ").unwrap_err(), text_syntax(1, 3, SyntaxKind::TrailingCharacters));
}

#[test]
fn parse_counts_lines_and_columns() {
    assert_eq!(
        parse("{\"1:\n\":01}").unwrap_err(),
        text_syntax(2, 3, SyntaxKind::InvalidInteger)
    );
    assert_eq!(
        parse("{\"3:a\n\n\":\"2:\n\n\",\"1:b\":?}").unwrap_err(),
        text_syntax(5, 9, SyntaxKind::ExpectedValue)
    );
}

#[test]
fn parse_accepts_the_extremes_of_integers() {
    let parsed = parse("{\"1:a\":-9223372036854775808,\"1:b\":9223372036854775807,\"1:c\":0}")
        .unwrap();
    assert!(parsed.field(0).value.same(&Value::Integer(i64::MIN)));
    assert!(parsed.field(1).value.same(&Value::Integer(i64::MAX)));
    assert!(parsed.field(2).value.same(&Value::Integer(0)));
}

#[test]
fn parse_reports_bytes_that_are_not_text() {
    let name = Parser::from_bytes(&[b'{', b'"', b'1', b':', 0xFF, b'"', b':', b'1', b'}']).unwrap();
    assert_eq!(name.parse_record().unwrap_err(), text_syntax(1, 2, SyntaxKind::InvalidText));
    let value = Parser::from_bytes(b"{\"1:a\":\"1:\xC3\"}").unwrap();
    assert_eq!(value.parse_record().unwrap_err(), text_syntax(1, 8, SyntaxKind::InvalidText));
    assert_eq!(
        Parser::from_bytes(&[0xFF]).unwrap_err(),
        text_syntax(1, 1, SyntaxKind::ExpectedRecord)
    );
    let good = Parser::from_bytes("{\"2:é\":1}".as_bytes()).unwrap().parse_record().unwrap();
    assert_eq!(good.field(0).name, "é");
}

#[test]
fn syntax_errors_carry_a_message() {
    let e = SyntaxError { line: 1, column: 8, kind: SyntaxKind::InvalidInteger };
    assert_eq!(e.message(), "not a 64-bit integer in plain decimal form");
    let q = SyntaxError { line: 1, column: 1, kind: SyntaxKind::ExpectedQuote };
    assert_eq!(q.message(), "expected `\"`");
    let r = SyntaxError { line: 1, column: 1, kind: SyntaxKind::ExpectedRecord };
    assert_eq!(r.message(), "the text must open a record with `{`");
}
