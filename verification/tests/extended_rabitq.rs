//! Quantization to a few bits per component.

use omendb_hnsw::extended_rabitq::{
    apply_random_signs, fast_hadamard_transform, fast_hadamard_transform_inplace, ExtendedRaBitQ,
    ExtendedRaBitQParams, QuantizationBits, QuantizedVector,
};

fn bits(values: &[f32]) -> Vec<u32> {
    values.iter().map(|v| v.to_bits()).collect()
}

fn floats(values: &[u32]) -> Vec<f32> {
    values.iter().map(|v| f32::from_bits(*v)).collect()
}

fn pair(a: u32, b: u32) -> (u32, u32) {
    let (a, b) = (f32::from_bits(a), f32::from_bits(b));
    ((a + b).to_bits(), (a - b).to_bits())
}

fn norm(v: u32, n: usize) -> u32 {
    (f32::from_bits(v) * (1.0 / (n as f32).sqrt())).to_bits()
}

fn squared_error(a: &[u32], b: &[u32]) -> u32 {
    let sum: f32 = a
        .iter()
        .zip(b.iter())
        .map(|(x, y)| (f32::from_bits(*x) - f32::from_bits(*y)).powi(2))
        .sum();
    sum.to_bits()
}

fn scales(params: &ExtendedRaBitQParams) -> Vec<u32> {
    let low = f32::from_bits(params.rescale_range.0);
    let high = f32::from_bits(params.rescale_range.1);
    let n = params.num_rescale_factors;
    if n == 1 {
        return vec![((low + high) / 2.0).to_bits()];
    }
    let step = (high - low) / (n - 1) as f32;
    (0..n).map(|i| (low + i as f32 * step).to_bits()).collect()
}

fn grid(levels: f32) -> impl Fn(u32, u32) -> u8 {
    move |v: u32, scale: u32| {
        let scaled = f32::from_bits(v) * f32::from_bits(scale);
        (scaled * (levels - 1.0)).round().clamp(0.0, levels - 1.0) as u8
    }
}

fn value(levels: f32) -> impl Fn(u8, u32) -> u32 {
    move |q: u8, scale: u32| (q as f32 / (levels - 1.0) / f32::from_bits(scale)).to_bits()
}

fn quantize(quantizer: &ExtendedRaBitQ, vector: &[f32]) -> QuantizedVector {
    let levels = quantizer.params().bits_per_dim.levels() as f32;
    quantizer.quantize(
        &bits(vector),
        &scales(quantizer.params()),
        &grid(levels),
        &value(levels),
        &squared_error,
        &pair,
        &norm,
    )
}

fn reconstruct(quantizer: &ExtendedRaBitQ, data: &[u8], scale: u32, n: usize) -> Vec<f32> {
    let levels = quantizer.params().bits_per_dim.levels() as f32;
    floats(&quantizer.reconstruct(data, scale, n, &value(levels)))
}

fn error(quantizer: &ExtendedRaBitQ, vector: &[f32], qv: &QuantizedVector) -> f32 {
    let levels = quantizer.params().bits_per_dim.levels() as f32;
    f32::from_bits(quantizer.compute_error(
        &bits(vector),
        &qv.data,
        qv.scale,
        &value(levels),
        &squared_error,
    ))
}

fn params(
    bits_per_dim: QuantizationBits,
    num_rescale_factors: usize,
    range: (f32, f32),
) -> ExtendedRaBitQParams {
    ExtendedRaBitQParams {
        bits_per_dim,
        num_rescale_factors,
        rescale_range: (range.0.to_bits(), range.1.to_bits()),
        ..Default::default()
    }
}

#[test]
fn test_quantization_bits_conversion() {
    assert_eq!(QuantizationBits::Bits2.to_u8(), 2);
    assert_eq!(QuantizationBits::Bits4.to_u8(), 4);
    assert_eq!(QuantizationBits::Bits8.to_u8(), 8);
}

#[test]
fn test_quantization_bits_levels() {
    assert_eq!(QuantizationBits::Bits2.levels(), 4);
    assert_eq!(QuantizationBits::Bits4.levels(), 16);
    assert_eq!(QuantizationBits::Bits8.levels(), 256);
}

#[test]
fn test_quantization_bits_values_per_byte() {
    assert_eq!(QuantizationBits::Bits2.values_per_byte(), 4);
    assert_eq!(QuantizationBits::Bits4.values_per_byte(), 2);
    assert_eq!(QuantizationBits::Bits8.values_per_byte(), 1);
}

#[test]
fn labels_name_the_bits() {
    assert_eq!(QuantizationBits::Bits2.label(), "2-bit");
    assert_eq!(QuantizationBits::Bits7.label(), "7-bit");
}

#[test]
fn odd_widths_have_a_byte_each() {
    assert_eq!(QuantizationBits::Bits3.values_per_byte(), 2);
    assert_eq!(QuantizationBits::Bits5.values_per_byte(), 1);
    assert_eq!(QuantizationBits::Bits7.values_per_byte(), 1);
    let quantizer = ExtendedRaBitQ::new(ExtendedRaBitQParams::bits3());
    assert_eq!(quantizer.pack_quantized(&[7, 0, 5], 3), vec![7, 0, 5]);
    assert_eq!(quantizer.unpack_quantized(&[7, 0, 5], 3, 2), vec![7, 0]);
}

#[test]
fn test_default_params() {
    let params = ExtendedRaBitQParams::default();
    assert_eq!(params.bits_per_dim, QuantizationBits::Bits4);
    assert_eq!(params.num_rescale_factors, 12);
    assert_eq!(params.rescale_range, (0.5f32.to_bits(), 2.0f32.to_bits()));
}

#[test]
fn test_preset_params() {
    let params2 = ExtendedRaBitQParams::bits2();
    assert_eq!(params2.bits_per_dim, QuantizationBits::Bits2);

    let params4 = ExtendedRaBitQParams::bits4();
    assert_eq!(params4.bits_per_dim, QuantizationBits::Bits4);

    let params8 = ExtendedRaBitQParams::bits8();
    assert_eq!(params8.bits_per_dim, QuantizationBits::Bits8);
    assert_eq!(params8.num_rescale_factors, 16);
}

#[test]
fn preset_ranges_are_these_floats() {
    let range = |p: ExtendedRaBitQParams| {
        (f32::from_bits(p.rescale_range.0), f32::from_bits(p.rescale_range.1))
    };
    assert_eq!(range(ExtendedRaBitQParams::bits8()), (0.7, 1.5));
    assert_eq!(range(ExtendedRaBitQParams::bits5()), (0.6, 1.6));
    assert_eq!(range(ExtendedRaBitQParams::bits7()), (0.7, 1.4));
    assert_eq!(ExtendedRaBitQParams::bits5().num_rescale_factors, 14);
    assert_eq!(ExtendedRaBitQParams::bits7().num_rescale_factors, 16);
}

#[test]
fn test_quantized_vector_creation() {
    let data = vec![0u8, 128, 255];
    let qv = QuantizedVector::new(data.clone(), 1.5f32.to_bits(), 8, 3);

    assert_eq!(qv.data, data);
    assert_eq!(f32::from_bits(qv.scale), 1.5);
    assert_eq!(qv.bits, 8);
    assert_eq!(qv.dimensions, 3);
    assert!(!qv.fht_applied);
}

#[test]
fn test_quantized_vector_compression_ratio() {
    let data = vec![0u8; 64];
    let qv = QuantizedVector::new(data, 1.0f32.to_bits(), 4, 128);

    assert_eq!(qv.byte_sizes(), (512, 69));
    let (original, compressed) = qv.byte_sizes();
    let ratio = original as f32 / compressed as f32;
    assert!(ratio > 7.0 && ratio < 8.0);
}

#[test]
fn test_create_quantizer() {
    let quantizer = ExtendedRaBitQ::default_4bit();
    assert_eq!(quantizer.params().bits_per_dim, QuantizationBits::Bits4);
}

#[test]
fn test_pack_unpack_2bit() {
    let quantizer = ExtendedRaBitQ::new(ExtendedRaBitQParams {
        bits_per_dim: QuantizationBits::Bits2,
        ..Default::default()
    });

    let values = vec![0u8, 1, 2, 3, 0, 1, 2, 3];
    let packed = quantizer.pack_quantized(&values, 2);
    assert_eq!(packed.len(), 2);
    assert_eq!(packed[0], 0b1110_0100);

    let unpacked = quantizer.unpack_quantized(&packed, 2, 8);
    assert_eq!(unpacked, values);
}

#[test]
fn test_pack_unpack_4bit() {
    let quantizer = ExtendedRaBitQ::new(ExtendedRaBitQParams {
        bits_per_dim: QuantizationBits::Bits4,
        ..Default::default()
    });

    let values = vec![0u8, 1, 2, 3, 4, 5, 6, 7];
    let packed = quantizer.pack_quantized(&values, 4);
    assert_eq!(packed.len(), 4);
    assert_eq!(packed[1], 0x23);

    let unpacked = quantizer.unpack_quantized(&packed, 4, 8);
    assert_eq!(unpacked, values);
}

#[test]
fn test_pack_unpack_8bit() {
    let quantizer = ExtendedRaBitQ::new(ExtendedRaBitQParams {
        bits_per_dim: QuantizationBits::Bits8,
        ..Default::default()
    });

    let values = vec![0u8, 10, 20, 30, 40, 50, 60, 70];
    let packed = quantizer.pack_quantized(&values, 8);
    assert_eq!(packed.len(), 8);

    let unpacked = quantizer.unpack_quantized(&packed, 8, 8);
    assert_eq!(unpacked, values);
}

#[test]
fn incomplete_bytes_are_filled_with_zeros() {
    let quantizer = ExtendedRaBitQ::default_4bit();
    assert_eq!(quantizer.pack_quantized(&[9], 4), vec![0x90]);
    assert_eq!(quantizer.pack_quantized(&[1, 2, 3, 0, 3], 2), vec![0b0011_1001, 0b11]);
    assert_eq!(quantizer.unpack_quantized(&[0x9a], 4, 1), vec![9]);
    assert_eq!(quantizer.unpack_quantized(&[0x9a], 4, 0), Vec::<u8>::new());
    assert_eq!(quantizer.unpack_quantized(&[0x9a], 4, 7), vec![9, 10]);
    assert_eq!(quantizer.pack_quantized(&[0x1f, 0x2e], 4), vec![0xfe]);
}

#[test]
fn test_quantize_simple_vector() {
    let quantizer = ExtendedRaBitQ::new(params(QuantizationBits::Bits4, 4, (0.5, 1.5)));

    let vector = vec![0.0, 0.25, 0.5, 0.75, 1.0];
    let quantized = quantize(&quantizer, &vector);

    assert_eq!(quantized.dimensions, 5);
    assert_eq!(quantized.bits, 4);
    assert!(f32::from_bits(quantized.scale) > 0.0);
    assert!(quantized.data.len() <= 4);
}

#[test]
fn test_quantize_reconstruct_accuracy() {
    let quantizer = ExtendedRaBitQ::new(params(QuantizationBits::Bits8, 8, (0.8, 1.2)));

    let vector = vec![0.1, 0.2, 0.3, 0.4, 0.5, 0.6, 0.7, 0.8];
    let quantized = quantize(&quantizer, &vector);
    let reconstructed = reconstruct(&quantizer, &quantized.data, quantized.scale, vector.len());

    for (orig, recon) in vector.iter().zip(reconstructed.iter()) {
        let error = (orig - recon).abs();
        assert!(error < 0.1, "Error too large: {} vs {}", orig, recon);
    }
}

#[test]
fn test_quantize_uniform_vector() {
    let quantizer = ExtendedRaBitQ::default_4bit();

    let vector = vec![0.5; 10];
    let quantized = quantize(&quantizer, &vector);
    let reconstructed = reconstruct(&quantizer, &quantized.data, quantized.scale, vector.len());

    let avg = reconstructed.iter().sum::<f32>() / reconstructed.len() as f32;
    for &val in &reconstructed {
        assert!((val - avg).abs() < 0.2);
    }
}

#[test]
fn test_compute_error() {
    let quantizer = ExtendedRaBitQ::default_4bit();

    let original = vec![0.1, 0.2, 0.3, 0.4];
    let quantized = quantize(&quantizer, &original);
    let error = error(&quantizer, &original, &quantized);

    assert!(error >= 0.0);
    assert!(error.is_finite());
}

#[test]
fn test_quantize_different_bit_widths() {
    let test_vector = vec![0.1, 0.2, 0.3, 0.4, 0.5];

    let q2 = ExtendedRaBitQ::new(ExtendedRaBitQParams::bits2());
    let qv2 = quantize(&q2, &test_vector);
    assert_eq!(qv2.bits, 2);

    let q4 = ExtendedRaBitQ::default_4bit();
    let qv4 = quantize(&q4, &test_vector);
    assert_eq!(qv4.bits, 4);

    let q8 = ExtendedRaBitQ::new(ExtendedRaBitQParams::bits8());
    let qv8 = quantize(&q8, &test_vector);
    assert_eq!(qv8.bits, 8);

    assert!(qv2.data.len() <= qv4.data.len());
    assert!(qv4.data.len() <= qv8.data.len());
}

#[test]
fn test_quantize_high_dimensional() {
    let quantizer = ExtendedRaBitQ::default_4bit();

    let vector: Vec<f32> = (0..128).map(|i| (i as f32) / 128.0).collect();
    let quantized = quantize(&quantizer, &vector);

    assert_eq!(quantized.dimensions, 128);
    assert_eq!(quantized.bits, 4);
    assert_eq!(quantized.data.len(), 64);

    let reconstructed = reconstruct(&quantizer, &quantized.data, quantized.scale, 128);
    assert_eq!(reconstructed.len(), 128);
}

#[test]
fn test_fht_basic() {
    let result = floats(&fast_hadamard_transform(&bits(&[1.0, 0.0, 0.0, 0.0]), &pair, &norm));

    assert_eq!(result.len(), 4);
    for &val in &result {
        assert!((val - 0.5).abs() < 0.01);
    }
}

#[test]
fn test_fht_identity() {
    let original = vec![1.0, 2.0, 3.0, 4.0];
    let mut data = bits(&original);

    fast_hadamard_transform_inplace(&mut data, &pair, &norm);
    fast_hadamard_transform_inplace(&mut data, &pair, &norm);

    for (orig, result) in original.iter().zip(floats(&data).iter()) {
        let difference: f32 = orig - result;
        assert!(difference.abs() < 0.001, "FHT not self-inverse");
    }
}

#[test]
fn the_transform_adds_and_subtracts() {
    let result = floats(&fast_hadamard_transform(&bits(&[1.0, 2.0, 3.0, 4.0]), &pair, &norm));
    assert_eq!(result, vec![5.0, -1.0, -2.0, 0.0]);
}

#[test]
fn other_lengths_stay_in_place() {
    let mut data = bits(&[1.0, 2.0, 3.0]);
    fast_hadamard_transform_inplace(&mut data, &pair, &norm);
    assert_eq!(floats(&data), vec![1.0, 2.0, 3.0]);
}

#[test]
fn test_fht_non_power_of_2() {
    let data = bits(&[1.0, 2.0, 3.0, 4.0, 5.0]);
    let result = floats(&fast_hadamard_transform(&data, &pair, &norm));

    assert_eq!(result.len(), 5);
    assert!(result.iter().any(|&v| (v - 1.0).abs() > 0.01));
}

#[test]
fn test_fht_empty() {
    let result = fast_hadamard_transform(&[], &pair, &norm);
    assert!(result.is_empty());
}

#[test]
fn test_random_signs() {
    let mut data = bits(&[1.0, 2.0, 3.0, 4.0]);
    let seed = 42u64;

    apply_random_signs(&mut data, seed);

    let once = floats(&data);
    let has_negative = once.iter().any(|&v| v < 0.0);
    let has_positive = once.iter().any(|&v| v > 0.0);
    assert!(has_negative || has_positive);

    apply_random_signs(&mut data, seed);

    for &val in &floats(&data) {
        assert!([1.0, -1.0, 2.0, -2.0, 3.0, -3.0, 4.0, -4.0]
            .iter()
            .any(|&v: &f32| (val - v).abs() < 0.001));
    }
}

#[test]
fn signs_flipped_twice_are_back() {
    let original = bits(&[1.0, -2.0, 0.0, 4.5, -0.0, 7.0, 8.0, 9.0]);
    let mut data = original.clone();
    apply_random_signs(&mut data, 7);
    assert_ne!(data, original);
    apply_random_signs(&mut data, 7);
    assert_eq!(data, original);
}

#[test]
fn test_quantize_with_fht() {
    let quantizer = ExtendedRaBitQ::new(ExtendedRaBitQParams::bits4_fht());

    let vector: Vec<f32> = (0..128).map(|i| (i as f32) / 128.0).collect();
    let quantized = quantize(&quantizer, &vector);

    assert_eq!(quantized.dimensions, 128);
    assert_eq!(quantized.bits, 4);
    assert!(quantized.fht_applied);
    assert!(f32::from_bits(quantized.scale) > 0.0);
}

#[test]
fn test_fht_quantization_accuracy() {
    let q_no_fht = ExtendedRaBitQ::new(ExtendedRaBitQParams::bits4());
    let q_fht = ExtendedRaBitQ::new(ExtendedRaBitQParams::bits4_fht());

    let vector: Vec<f32> = (0..64).map(|i| (i as f32) / 64.0).collect();

    let qv_no_fht = quantize(&q_no_fht, &vector);
    let qv_fht = quantize(&q_fht, &vector);

    assert_eq!(qv_no_fht.dimensions, 64);
    assert_eq!(qv_fht.dimensions, 64);
    assert!(!qv_no_fht.fht_applied);
    assert!(qv_fht.fht_applied);
}

#[test]
fn a_rotated_vector_is_rotated_back() {
    let quantizer = ExtendedRaBitQ::new(ExtendedRaBitQParams::with_fht(QuantizationBits::Bits8));
    let qv = QuantizedVector::new_with_fht(vec![10, 20, 30, 40], 1.0f32.to_bits(), 8, 4, true);
    let levels = 256.0;
    let back = floats(&quantizer.reconstruct_full(&qv, &value(levels), &pair, &norm));

    let mut again = bits(&back);
    apply_random_signs(&mut again, 4);
    fast_hadamard_transform_inplace(&mut again, &pair, &norm);
    for (v, q) in floats(&again).iter().zip([10.0f32, 20.0, 30.0, 40.0]) {
        assert!((v - q / 255.0).abs() < 0.0001);
    }

    let plain = QuantizedVector::new(vec![255, 0], 1.0f32.to_bits(), 8, 2);
    let same = floats(&quantizer.reconstruct_full(&plain, &value(levels), &pair, &norm));
    assert_eq!(same, vec![1.0, 0.0]);
}

#[test]
fn test_fht_high_dimensional() {
    let quantizer = ExtendedRaBitQ::new(ExtendedRaBitQParams::with_fht(QuantizationBits::Bits4));

    let vector: Vec<f32> = (0..768).map(|i| ((i % 100) as f32) / 100.0).collect();
    let quantized = quantize(&quantizer, &vector);

    assert_eq!(quantized.dimensions, 768);
    assert!(quantized.fht_applied);
}

#[test]
fn test_bits3_constructor() {
    let params = ExtendedRaBitQParams::bits3();
    assert_eq!(params.bits_per_dim, QuantizationBits::Bits3);
    assert_eq!(params.bits_per_dim.to_u8(), 3);
    assert_eq!(params.bits_per_dim.levels(), 8);
}

#[test]
fn test_bits5_constructor() {
    let params = ExtendedRaBitQParams::bits5();
    assert_eq!(params.bits_per_dim, QuantizationBits::Bits5);
    assert_eq!(params.bits_per_dim.to_u8(), 5);
    assert_eq!(params.bits_per_dim.levels(), 32);
}

#[test]
fn test_bits7_constructor() {
    let params = ExtendedRaBitQParams::bits7();
    assert_eq!(params.bits_per_dim, QuantizationBits::Bits7);
    assert_eq!(params.bits_per_dim.to_u8(), 7);
    assert_eq!(params.bits_per_dim.levels(), 128);
}

#[test]
fn test_quantize_3bit() {
    let quantizer = ExtendedRaBitQ::new(ExtendedRaBitQParams::bits3());

    let vector: Vec<f32> = (0..64).map(|i| (i as f32) / 64.0).collect();
    let quantized = quantize(&quantizer, &vector);

    assert_eq!(quantized.dimensions, 64);
    assert_eq!(quantized.bits, 3);
    assert!(f32::from_bits(quantized.scale) > 0.0);

    let reconstructed = reconstruct(&quantizer, &quantized.data, quantized.scale, 64);
    assert_eq!(reconstructed.len(), 64);
}

#[test]
fn test_quantize_5bit() {
    let quantizer = ExtendedRaBitQ::new(ExtendedRaBitQParams::bits5());

    let vector: Vec<f32> = (0..64).map(|i| (i as f32) / 64.0).collect();
    let quantized = quantize(&quantizer, &vector);

    assert_eq!(quantized.dimensions, 64);
    assert_eq!(quantized.bits, 5);
    assert!(f32::from_bits(quantized.scale) > 0.0);

    let reconstructed = reconstruct(&quantizer, &quantized.data, quantized.scale, 64);
    assert_eq!(reconstructed.len(), 64);
}

#[test]
fn test_quantize_7bit() {
    let quantizer = ExtendedRaBitQ::new(ExtendedRaBitQParams::bits7());

    let vector: Vec<f32> = (0..64).map(|i| (i as f32) / 64.0).collect();
    let quantized = quantize(&quantizer, &vector);

    assert_eq!(quantized.dimensions, 64);
    assert_eq!(quantized.bits, 7);
    assert!(f32::from_bits(quantized.scale) > 0.0);

    let reconstructed = reconstruct(&quantizer, &quantized.data, quantized.scale, 64);
    assert_eq!(reconstructed.len(), 64);
}

#[test]
fn test_bit_width_accuracy_ordering() {
    let vector: Vec<f32> = (0..128).map(|i| (i as f32) / 128.0).collect();

    let q2 = ExtendedRaBitQ::new(ExtendedRaBitQParams::bits2());
    let q3 = ExtendedRaBitQ::new(ExtendedRaBitQParams::bits3());
    let q4 = ExtendedRaBitQ::new(ExtendedRaBitQParams::bits4());
    let q5 = ExtendedRaBitQ::new(ExtendedRaBitQParams::bits5());

    let err2 = error(&q2, &vector, &quantize(&q2, &vector));
    let err3 = error(&q3, &vector, &quantize(&q3, &vector));
    let err4 = error(&q4, &vector, &quantize(&q4, &vector));
    let err5 = error(&q5, &vector, &quantize(&q5, &vector));

    assert!(err4 <= err2 * 2.0, "4-bit should be more accurate than 2-bit");
    assert!(err5 <= err3 * 2.0, "5-bit should be more accurate than 3-bit");
}

#[test]
fn the_factor_that_loses_least_is_taken() {
    let quantizer = ExtendedRaBitQ::new(ExtendedRaBitQParams::bits8());
    let factors = vec![0.5f32.to_bits(), 1.0f32.to_bits(), 0.25f32.to_bits()];
    let whole = [1.0, 0.0];
    let qv = quantizer.quantize(
        &bits(&whole),
        &factors,
        &grid(256.0),
        &value(256.0),
        &squared_error,
        &pair,
        &norm,
    );
    assert_eq!(f32::from_bits(qv.scale), 1.0);
    assert_eq!(qv.data, vec![255, 0]);

    let none = quantizer.quantize(
        &bits(&whole),
        &vec![],
        &grid(256.0),
        &value(256.0),
        &squared_error,
        &pair,
        &norm,
    );
    assert_eq!(f32::from_bits(none.scale), 1.0);
    assert!(none.data.is_empty());
}
