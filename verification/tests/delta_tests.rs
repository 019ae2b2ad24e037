use lnmp_py_core::api::{embedding_apply_delta, embedding_delta};
use lnmp_py_core::delta::{DeltaChange, DeltaError, VectorDelta};
use lnmp_py_core::vector::Vector;

fn delta_bits(values: &[f32]) -> Vec<u32> {
    values.iter().map(|v| v.to_bits()).collect()
}

fn delta_vector(values: &[f32]) -> Vector {
    Vector::from_f32_bits(delta_bits(values))
}

#[test]
fn vector_keeps_its_components() {
    let v = delta_vector(&[0.5, -0.5, 1.0]);
    assert_eq!(v.len(), 3);
    assert_eq!(v.get(1), (-0.5f32).to_bits());
    assert_eq!(v.as_f32_bits(), delta_bits(&[0.5, -0.5, 1.0]));
    let empty = Vector::from_f32_bits(Vec::new());
    assert_eq!(empty.len(), 0);
}

#[test]
fn delta_of_one_changed_component() {
    let base = delta_vector(&[1.0, 2.0, 3.0]);
    let updated = delta_vector(&[1.0, 5.0, 3.0]);
    let delta = VectorDelta::from_vectors(&base, &updated, 7).unwrap();
    assert_eq!(delta.generation(), 7);
    assert_eq!(delta.dimension(), 3);
    assert_eq!(delta.change_count(), 1);
    assert_eq!(delta.change(0), DeltaChange { index: 1, value: 5.0f32.to_bits() });
    let applied = delta.apply(&base).unwrap();
    assert_eq!(applied.as_f32_bits(), delta_bits(&[1.0, 5.0, 3.0]));
}

#[test]
fn delta_changes_are_ascending_and_exact() {
    let base = delta_vector(&[1.0, 2.0, 3.0, 4.0, 0.0]);
    let updated = delta_vector(&[1.0, 2.5, 3.0, 3.5, -0.0]);
    let delta = VectorDelta::from_vectors(&base, &updated, 100).unwrap();
    assert_eq!(delta.change_count(), 3);
    assert_eq!(delta.change(0), DeltaChange { index: 1, value: 2.5f32.to_bits() });
    assert_eq!(delta.change(1), DeltaChange { index: 3, value: 3.5f32.to_bits() });
    assert_eq!(delta.change(2), DeltaChange { index: 4, value: (-0.0f32).to_bits() });
}

#[test]
fn delta_of_equal_vectors_is_empty() {
    let base = delta_vector(&[1.0, f32::NAN, 3.0]);
    let same = delta_vector(&[1.0, f32::NAN, 3.0]);
    let delta = VectorDelta::from_vectors(&base, &same, 0).unwrap();
    assert_eq!(delta.change_count(), 0);
    assert_eq!(delta.dimension(), 3);
}

#[test]
fn apply_after_from_vectors_gives_the_updated_vector() {
    let mut a: Vec<f32> = Vec::new();
    let mut b: Vec<f32> = Vec::new();
    for i in 0..1536 {
        a.push(0.1 + (i as f32) * 0.001);
        b.push(if i % 100 == 0 { 0.11 + (i as f32) * 0.001 } else { 0.1 + (i as f32) * 0.001 });
    }
    let base = delta_vector(&a);
    let updated = delta_vector(&b);
    let delta = VectorDelta::from_vectors(&base, &updated, 1).unwrap();
    assert_eq!(delta.change_count(), 16);
    let applied = delta.apply(&base).unwrap();
    assert_eq!(applied.as_f32_bits(), delta_bits(&b));
}

#[test]
fn from_vectors_refuses_unequal_lengths() {
    let base = delta_vector(&[1.0, 2.0]);
    let updated = delta_vector(&[1.0, 2.0, 3.0]);
    assert_eq!(
        VectorDelta::from_vectors(&base, &updated, 0).unwrap_err(),
        DeltaError::DimensionMismatch
    );
}

#[test]
fn apply_refuses_a_base_of_another_dimension() {
    let base = delta_vector(&[1.0, 2.0, 3.0]);
    let updated = delta_vector(&[1.0, 5.0, 3.0]);
    let delta = VectorDelta::from_vectors(&base, &updated, 0).unwrap();
    let short = delta_vector(&[1.0, 2.0]);
    assert_eq!(delta.apply(&short).unwrap_err(), DeltaError::DimensionMismatch);
    let long = delta_vector(&[1.0, 2.0, 3.0, 4.0]);
    assert_eq!(delta.apply(&long).unwrap_err(), DeltaError::DimensionMismatch);
}

#[test]
fn delta_wire_form_is_exact() {
    let delta = VectorDelta::new(
        0x0102,
        3,
        vec![DeltaChange { index: 1, value: 0x40A0_0000 }],
    )
    .unwrap();
    let bytes = delta.encode();
    let expected: Vec<u8> = vec![
        0x02, 0x01, 0, 0, 0, 0, 0, 0, // generation
        3, 0, 0, 0, 0, 0, 0, 0, // dimension
        1, 0, 0, 0, 0, 0, 0, 0, // change count
        1, 0, 0, 0, 0, 0, 0, 0, // index
        0x00, 0x00, 0xA0, 0x40, // value
    ];
    assert_eq!(bytes, expected);
}

#[test]
fn delta_decode_gives_back_what_was_encoded() {
    let changes = vec![
        DeltaChange { index: 10, value: 0.123f32.to_bits() },
        DeltaChange { index: 20, value: (-0.456f32).to_bits() },
        DeltaChange { index: 3, value: f32::NAN.to_bits() },
    ];
    let delta = VectorDelta::new(999, 64, changes.clone()).unwrap();
    let bytes = delta.encode();
    assert_eq!(bytes.len(), 24 + 3 * 12);
    let decoded = VectorDelta::decode(&bytes).unwrap();
    assert_eq!(decoded.generation(), 999);
    assert_eq!(decoded.dimension(), 64);
    assert_eq!(decoded.change_count(), 3);
    for k in 0..3 {
        assert_eq!(decoded.change(k), changes[k]);
    }
    assert_eq!(decoded.encode(), bytes);
}

#[test]
fn delta_decode_refuses_corrupt_bytes() {
    let delta = VectorDelta::new(1, 8, vec![DeltaChange { index: 2, value: 7 }]).unwrap();
    let bytes = delta.encode();
    assert_eq!(VectorDelta::decode(&[]).unwrap_err(), DeltaError::CorruptDelta);
    assert_eq!(VectorDelta::decode(&bytes[..23]).unwrap_err(), DeltaError::CorruptDelta);
    assert_eq!(
        VectorDelta::decode(&bytes[..bytes.len() - 1]).unwrap_err(),
        DeltaError::CorruptDelta
    );
    let mut longer = bytes.clone();
    longer.push(0);
    assert_eq!(VectorDelta::decode(&longer).unwrap_err(), DeltaError::CorruptDelta);
    let mut out_of_range = bytes.clone();
    out_of_range[24] = 8;
    assert_eq!(VectorDelta::decode(&out_of_range).unwrap_err(), DeltaError::CorruptDelta);
    let mut in_range = bytes.clone();
    in_range[24] = 7;
    assert_eq!(VectorDelta::decode(&in_range).unwrap().change(0).index, 7);
}

#[test]
fn delta_new_refuses_an_index_at_the_dimension() {
    let bad = VectorDelta::new(0, 2, vec![DeltaChange { index: 2, value: 0 }]);
    assert_eq!(bad.unwrap_err(), DeltaError::CorruptDelta);
    let good = VectorDelta::new(0, 2, vec![DeltaChange { index: 1, value: 0 }]);
    assert!(good.is_ok());
}

#[test]
fn later_changes_of_one_index_win() {
    let delta = VectorDelta::new(
        0,
        2,
        vec![DeltaChange { index: 0, value: 11 }, DeltaChange { index: 0, value: 22 }],
    )
    .unwrap();
    let applied = delta.apply(&Vector::from_f32_bits(vec![1, 2])).unwrap();
    assert_eq!(applied.as_f32_bits(), vec![22, 2]);
}

#[test]
fn embedding_delta_then_apply_round_trips() {
    let base = delta_bits(&[1.0, 2.0, 3.0]);
    let updated = delta_bits(&[1.0, 5.0, 3.0]);
    let (count, bytes) = embedding_delta(base.clone(), updated.clone()).unwrap();
    assert_eq!(count, 1);
    assert_eq!(bytes.len(), 36);
    let applied = embedding_apply_delta(base, &bytes).unwrap();
    assert_eq!(applied, updated);
}

#[test]
fn embedding_delta_reports_its_faults() {
    assert_eq!(
        embedding_delta(delta_bits(&[1.0]), delta_bits(&[1.0, 2.0])).unwrap_err(),
        DeltaError::DimensionMismatch
    );
    let (_, bytes) = embedding_delta(delta_bits(&[1.0, 2.0]), delta_bits(&[1.0, 3.0])).unwrap();
    assert_eq!(
        embedding_apply_delta(delta_bits(&[1.0, 2.0, 3.0]), &bytes).unwrap_err(),
        DeltaError::DimensionMismatch
    );
    assert_eq!(
        embedding_apply_delta(delta_bits(&[1.0, 2.0]), &bytes[..5]).unwrap_err(),
        DeltaError::CorruptDelta
    );
}
