use lnmp_py_core::api::{quantize, QuantizeError};
use lnmp_py_core::quant::{quantize_embedding, QuantError, QuantScheme};
use lnmp_py_core::vector::Vector;

fn quant_vector(values: &[f32]) -> Vector {
    Vector::from_f32_bits(values.iter().map(|v| v.to_bits()).collect())
}

fn quant_bits(values: &[f32]) -> Vec<u32> {
    values.iter().map(|v| v.to_bits()).collect()
}

fn quant_max_abs(values: &[f32]) -> f32 {
    let mut max = 0.0f32;
    for v in values {
        if v.abs() > max {
            max = v.abs();
        }
    }
    max
}

fn quant_expected_level(v: f32, max: f32, levels: f64) -> i8 {
    if max == 0.0 {
        return 0;
    }
    let q = (levels * (v.abs() as f64) / (max as f64) + 0.5).floor().min(levels);
    if v.is_sign_negative() {
        -(q as i8)
    } else {
        q as i8
    }
}

fn quant_samples() -> Vec<Vec<f32>> {
    let mut out: Vec<Vec<f32>> = Vec::new();
    out.push(vec![0.12, -0.45, 0.33]);
    out.push(vec![1.0, -0.5, 0.25, 0.0]);
    out.push(vec![1.0e-40, -3.0e-39, 2.0e-41]);
    out.push(vec![f32::MAX, -f32::MAX / 3.0, 1.0, f32::MIN_POSITIVE]);
    out.push(vec![1.17549435e-38, 2.0e-38, -1.5e-38]);
    out.push(vec![127.0, 126.5, 0.5, -0.49999997, 63.5]);
    out.push(vec![16777215.0, 16777214.0, 8388608.0, 1.0]);
    let mut state: u32 = 0x1234_5678;
    for _ in 0..400 {
        let mut v: Vec<f32> = Vec::new();
        for _ in 0..7 {
            state = state.wrapping_mul(1664525).wrapping_add(1013904223);
            let candidate = f32::from_bits(state);
            if candidate.is_finite() {
                v.push(candidate);
            }
        }
        if !v.is_empty() {
            out.push(v);
        }
    }
    out
}

#[test]
fn int8_of_a_simple_vector_is_exact() {
    let q = quantize_embedding(&quant_vector(&[1.0, -0.5, 0.25, 0.0]), QuantScheme::Int8).unwrap();
    assert_eq!(q.scheme(), QuantScheme::Int8);
    assert_eq!(q.dimension(), 4);
    assert_eq!(q.scale(), Some((1.0f32 / 127.0).to_bits()));
    assert_eq!(q.codes(), vec![127u8, 0xC0, 32, 0]);
    let mut payload = (1.0f32 / 127.0).to_bits().to_le_bytes().to_vec();
    payload.extend_from_slice(&[127u8, 0xC0, 32, 0]);
    assert_eq!(q.payload(), payload);
}

#[test]
fn int4_of_a_simple_vector_is_exact() {
    let q = quantize_embedding(&quant_vector(&[1.0, -0.5, 0.25]), QuantScheme::Int4).unwrap();
    assert_eq!(q.scheme(), QuantScheme::Int4);
    assert_eq!(q.dimension(), 3);
    assert_eq!(q.scale(), Some((1.0f32 / 7.0).to_bits()));
    assert_eq!(q.codes(), vec![0x7Cu8, 0x20]);
}

#[test]
fn binary_of_a_simple_vector_is_exact() {
    let values = [1.0f32, -1.0, 0.0, -0.0, 2.5, -3.0, 1.0e-40, -1.0e-40, 5.0];
    let q = quantize_embedding(&quant_vector(&values), QuantScheme::Binary).unwrap();
    assert_eq!(q.scheme(), QuantScheme::Binary);
    assert_eq!(q.dimension(), 9);
    assert_eq!(q.scale(), None);
    assert_eq!(q.codes(), vec![93u8, 1]);
    assert_eq!(q.payload(), vec![93u8, 1]);
}

#[test]
fn binary_has_one_bit_per_component_rounded_up_to_bytes() {
    for n in 1..40usize {
        let values: Vec<f32> = (0..n).map(|i| if i % 3 == 0 { -1.0 } else { 1.0 }).collect();
        let q = quantize_embedding(&quant_vector(&values), QuantScheme::Binary).unwrap();
        let codes = q.codes();
        assert_eq!(codes.len() * 8, ((n + 7) / 8) * 8);
        for i in 0..codes.len() * 8 {
            let bit = (codes[i / 8] >> (i % 8)) & 1;
            let expected = if i < n && i % 3 != 0 { 1 } else { 0 };
            assert_eq!(bit, expected);
        }
    }
}

#[test]
fn int8_levels_stay_in_range_and_follow_the_formula() {
    for values in quant_samples() {
        let q = quantize_embedding(&quant_vector(&values), QuantScheme::Int8).unwrap();
        let codes = q.codes();
        let max = quant_max_abs(&values);
        assert_eq!(codes.len(), values.len());
        for i in 0..values.len() {
            let level = codes[i] as i8;
            assert!(level >= -127 && level <= 127);
            assert_eq!(level, quant_expected_level(values[i], max, 127.0));
        }
    }
}

#[test]
fn int4_levels_stay_in_range_and_follow_the_formula() {
    for values in quant_samples() {
        let q = quantize_embedding(&quant_vector(&values), QuantScheme::Int4).unwrap();
        let codes = q.codes();
        let max = quant_max_abs(&values);
        assert_eq!(codes.len(), (values.len() + 1) / 2);
        for i in 0..values.len() {
            let nibble = if i % 2 == 0 { codes[i / 2] >> 4 } else { codes[i / 2] & 15 };
            let level = if nibble >= 8 { nibble as i8 - 16 } else { nibble as i8 };
            assert!(level >= -7 && level <= 7);
            assert_eq!(level, quant_expected_level(values[i], max, 7.0));
        }
        if values.len() % 2 == 1 {
            assert_eq!(codes[codes.len() - 1] & 15, 0);
        }
    }
}

#[test]
fn stored_scale_is_the_largest_magnitude_over_the_levels() {
    for values in quant_samples() {
        let max = quant_max_abs(&values);
        let q8 = quantize_embedding(&quant_vector(&values), QuantScheme::Int8).unwrap();
        let q4 = quantize_embedding(&quant_vector(&values), QuantScheme::Int4).unwrap();
        if max == 0.0 {
            assert_eq!(q8.scale(), Some(1.0f32.to_bits()));
            assert_eq!(q4.scale(), Some(1.0f32.to_bits()));
        } else {
            assert_eq!(q8.scale(), Some((max / 127.0).to_bits()));
            assert_eq!(q4.scale(), Some((max / 7.0).to_bits()));
        }
    }
}

#[test]
fn all_zero_vector_gives_zero_bytes_and_scale_one() {
    let q = quantize_embedding(&quant_vector(&[0.0, -0.0, 0.0]), QuantScheme::Int8).unwrap();
    assert_eq!(q.scale(), Some(1.0f32.to_bits()));
    assert_eq!(q.codes(), vec![0u8, 0, 0]);
    let q4 = quantize_embedding(&quant_vector(&[0.0, 0.0, 0.0]), QuantScheme::Int4).unwrap();
    assert_eq!(q4.scale(), Some(1.0f32.to_bits()));
    assert_eq!(q4.codes(), vec![0u8, 0]);
}

#[test]
fn quantizing_is_deterministic() {
    for values in quant_samples() {
        let a = quantize_embedding(&quant_vector(&values), QuantScheme::Int8).unwrap();
        let b = quantize_embedding(&quant_vector(&values), QuantScheme::Int8).unwrap();
        assert_eq!(a.payload(), b.payload());
    }
}

#[test]
fn empty_vector_is_refused() {
    for scheme in [QuantScheme::Int8, QuantScheme::Int4, QuantScheme::Binary] {
        assert_eq!(
            quantize_embedding(&quant_vector(&[]), scheme).unwrap_err(),
            QuantError::EmptyVector
        );
    }
}

#[test]
fn non_finite_components_are_refused() {
    for scheme in [QuantScheme::Int8, QuantScheme::Int4, QuantScheme::Binary] {
        for bad in [f32::NAN, f32::INFINITY, f32::NEG_INFINITY] {
            assert_eq!(
                quantize_embedding(&quant_vector(&[1.0, bad, 2.0]), scheme).unwrap_err(),
                QuantError::NonFiniteValue
            );
        }
    }
}

#[test]
fn quantize_knows_its_schemes_by_name() {
    let v = quant_bits(&[1.0, -0.5, 0.25, 0.0]);
    let mut int8 = (1.0f32 / 127.0).to_bits().to_le_bytes().to_vec();
    int8.extend_from_slice(&[127u8, 0xC0, 32, 0]);
    assert_eq!(quantize(v.clone(), "QInt8").unwrap(), int8);
    let mut int4 = (1.0f32 / 7.0).to_bits().to_le_bytes().to_vec();
    int4.extend_from_slice(&[0x7Cu8, 0x20]);
    assert_eq!(quantize(v.clone(), "QInt4").unwrap(), int4);
    assert_eq!(quantize(v.clone(), "Binary").unwrap(), vec![0b1101u8]);
    assert_eq!(quantize(v.clone(), "Int8").unwrap_err(), QuantizeError::InvalidScheme);
    assert_eq!(quantize(Vec::new(), "nope").unwrap_err(), QuantizeError::InvalidScheme);
    assert_eq!(quantize(Vec::new(), "QInt8").unwrap_err(), QuantizeError::EmptyVector);
    assert_eq!(
        quantize(quant_bits(&[f32::NAN]), "Binary").unwrap_err(),
        QuantizeError::NonFiniteValue
    );
}
