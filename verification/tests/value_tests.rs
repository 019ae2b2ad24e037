use lnmp_py_core::api::envelope_wrap;
use lnmp_py_core::envelope::EnvelopeBuilder;
use lnmp_py_core::value::{Record, RecordError, Value};
use lnmp_py_core::vector::Vector;

fn value_sample() -> Record {
    let mut record = Record::new();
    record.insert("a".to_string(), Value::Integer(1)).unwrap();
    record.insert("b".to_string(), Value::String("x".to_string())).unwrap();
    record
}

#[test]
fn record_keeps_insertion_order() {
    let record = value_sample();
    assert_eq!(record.len(), 2);
    assert_eq!(record.field(0).name, "a");
    assert_eq!(record.field(1).name, "b");
    assert!(record.field(0).value.same(&Value::Integer(1)));
    assert_eq!(record.position("b"), Some(1));
    assert_eq!(record.position("c"), None);
    assert!(record.get("b").unwrap().same(&Value::String("x".to_string())));
    assert!(record.get("zz").is_none());
}

#[test]
fn record_refuses_duplicate_and_empty_names() {
    let mut record = value_sample();
    assert_eq!(
        record.insert("a".to_string(), Value::Null).unwrap_err(),
        RecordError::DuplicateField
    );
    assert_eq!(record.insert(String::new(), Value::Null).unwrap_err(), RecordError::EmptyName);
    assert_eq!(record.len(), 2);
    assert!(record.same(&value_sample()));
}

#[test]
fn equality_is_structural_and_ordered() {
    let mut other = Record::new();
    other.insert("b".to_string(), Value::String("x".to_string())).unwrap();
    other.insert("a".to_string(), Value::Integer(1)).unwrap();
    assert!(!other.same(&value_sample()));
    assert!(value_sample().same(&value_sample()));
    let left = Value::Array(vec![Value::Null, Value::Bool(true), Value::Record(value_sample())]);
    let right = Value::Array(vec![Value::Null, Value::Bool(true), Value::Record(value_sample())]);
    assert!(left.same(&right));
    let shorter = Value::Array(vec![Value::Null, Value::Bool(true)]);
    assert!(!left.same(&shorter));
    assert!(!Value::Integer(1).same(&Value::Float(1)));
    assert!(!Value::Bytes(vec![1, 2]).same(&Value::Spatial(vec![1, 2])));
    assert!(Value::Embedding(Vector::from_f32_bits(vec![1, 2]))
        .same(&Value::Embedding(Vector::from_f32_bits(vec![1, 2]))));
    assert!(!Value::Embedding(Vector::from_f32_bits(vec![1, 2]))
        .same(&Value::Embedding(Vector::from_f32_bits(vec![1, 3]))));
}

#[test]
fn duplicate_copies_every_level() {
    let mut record = value_sample();
    record
        .insert(
            "nested".to_string(),
            Value::Array(vec![Value::Record(value_sample()), Value::Bytes(vec![9, 8])]),
        )
        .unwrap();
    let copy = record.duplicate();
    assert!(copy.same(&record));
    assert!(Value::Record(copy).duplicate().same(&Value::Record(record)));
}

#[test]
fn envelope_takes_the_given_timestamp() {
    let envelope =
        envelope_wrap(&value_sample(), "svc".to_string(), Some(1732373147000), None, 5);
    assert_eq!(envelope.timestamp(), Some(1732373147000));
    assert_eq!(envelope.source(), Some("svc".to_string()));
    assert_eq!(envelope.trace_id(), None);
    assert!(envelope.record().same(&value_sample()));
    assert_eq!(envelope.metadata().timestamp, Some(1732373147000));
}

#[test]
fn envelope_defaults_its_timestamp_to_now() {
    let envelope =
        envelope_wrap(&value_sample(), "svc".to_string(), None, Some("t-1".to_string()), 77);
    assert_eq!(envelope.timestamp(), Some(77));
    assert_eq!(envelope.trace_id(), Some("t-1".to_string()));
}

#[test]
fn builder_sets_each_part() {
    let built = EnvelopeBuilder::new(value_sample()).trace_id("t".to_string()).build(9);
    assert_eq!(built.source(), None);
    assert_eq!(built.trace_id(), Some("t".to_string()));
    assert_eq!(built.timestamp(), Some(9));
    let stamped = EnvelopeBuilder::new(Record::new())
        .source("s".to_string())
        .timestamp(3)
        .build(9);
    assert_eq!(stamped.timestamp(), Some(3));
    assert_eq!(stamped.source(), Some("s".to_string()));
    assert_eq!(stamped.record().len(), 0);
}
