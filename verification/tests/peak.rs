use wavalyze::audio::{Buffer, BufferE, F32Bits};
use wavalyze::peak::peak_index;

fn f32_buffer(data: Vec<f32>) -> BufferE {
    BufferE::F32(Buffer { sample_rate: 48_000, bit_depth: 32, data: data.into_iter().map(|x| F32Bits(x.to_bits())).collect() })
}

/// Normalized absolute value of sample `ix`: floats as they are, integers over their full scale.
fn magnitude(buffer: &BufferE, ix: usize) -> f64 {
    match buffer {
        BufferE::F32(b) => f32::from_bits(b.data[ix].0).abs() as f64,
        BufferE::I32(b) => (b.data[ix] as f64 / 2f64.powi(b.bit_depth as i32 - 1)).abs(),
        BufferE::I16(b) => (b.data[ix] as f64 / 2f64.powi(b.bit_depth as i32 - 1)).abs(),
    }
}

fn detect_peak_magnitude(buffer: &BufferE, start: i64, end: i64) -> Option<f64> {
    peak_index(buffer, start, end, false).map(|ix| magnitude(buffer, ix))
}

#[test]
fn detects_positive_peak() {
    let buffer = f32_buffer(vec![-0.2, 0.75, -0.5]);

    assert_eq!(detect_peak_magnitude(&buffer, 0, 3), Some(0.75));
}

#[test]
fn detects_negative_peak_by_absolute_magnitude() {
    let buffer = f32_buffer(vec![0.5, -0.9, 0.8]);

    assert!((detect_peak_magnitude(&buffer, 0, 3).unwrap() - 0.9).abs() < 1e-6);
}

#[test]
fn normalizes_i16_and_i32_peaks() {
    let i16_buffer = BufferE::I16(Buffer { sample_rate: 48_000, bit_depth: 16, data: vec![0, -16_384, 8_192] });
    let i32_buffer = BufferE::I32(Buffer { sample_rate: 48_000, bit_depth: 24, data: vec![0, -4_194_304, 2_097_152] });

    assert_eq!(detect_peak_magnitude(&i16_buffer, 0, 3), Some(0.5));
    assert_eq!(detect_peak_magnitude(&i32_buffer, 0, 3), Some(0.5));
}

#[test]
fn empty_or_out_of_bounds_range_has_no_peak() {
    let buffer = f32_buffer(vec![0.5, -0.9]);

    assert_eq!(detect_peak_magnitude(&buffer, 1, 1), None);
    assert_eq!(detect_peak_magnitude(&buffer, 10, 20), None);
}

#[test]
fn silence_reports_zero_peak() {
    let buffer = f32_buffer(vec![0.0, -0.0, 0.0]);

    assert_eq!(detect_peak_magnitude(&buffer, 0, 3), Some(0.0));
}

#[test]
fn ignores_non_finite_float_samples() {
    let buffer = f32_buffer(vec![f32::NAN, f32::INFINITY, -0.4, f32::NEG_INFINITY]);
    let only_non_finite = f32_buffer(vec![f32::NAN, f32::INFINITY]);

    assert!((detect_peak_magnitude(&buffer, 0, 4).unwrap() - 0.4).abs() < 1e-6);
    assert_eq!(detect_peak_magnitude(&only_non_finite, 0, 2), None);
}

#[test]
fn peak_index_is_the_first_of_equal_magnitudes() {
    let buffer = f32_buffer(vec![0.1, -0.7, 0.7, 0.3]);
    assert_eq!(peak_index(&buffer, 0, 4, false), Some(1));
    assert_eq!(peak_index(&buffer, 2, 4, false), Some(2));
}

#[test]
fn ranges_are_clamped_to_the_buffer() {
    let buffer = BufferE::I16(Buffer { sample_rate: 8_000, bit_depth: 16, data: vec![3, -9, 4] });
    assert_eq!(peak_index(&buffer, -5, 100, false), Some(1));
    assert_eq!(peak_index(&buffer, 2, 1, false), None);
    assert_eq!(peak_index(&buffer, i64::MIN, i64::MAX, false), Some(1));
    let extremes = BufferE::I16(Buffer { sample_rate: 8_000, bit_depth: 16, data: vec![i16::MAX, i16::MIN] });
    assert_eq!(peak_index(&extremes, 0, 2, false), Some(1));
}

#[test]
fn float_magnitude_order_matches_the_bit_order() {
    let values = [0.0f32, 1e-40, 1e-10, 0.3, 0.5, 1.0, 7.5, f32::MAX];
    for (i, a) in values.iter().enumerate() {
        for b in &values[i..] {
            let buffer = f32_buffer(vec![-*a, *b]);
            let expected = if b > a { 1 } else { 0 };
            assert_eq!(peak_index(&buffer, 0, 2, false), Some(expected));
        }
    }
}

use wavalyze::peak::local_range;

#[test]
fn infinities_count_when_asked() {
    let buffer = f32_buffer(vec![0.5, f32::NEG_INFINITY, f32::NAN, 2.0]);
    assert_eq!(peak_index(&buffer, 0, 4, true), Some(1));
    assert_eq!(peak_index(&buffer, 0, 4, false), Some(3));
    let nans = f32_buffer(vec![f32::NAN, -f32::NAN]);
    assert_eq!(peak_index(&nans, 0, 2, true), None);
}

#[test]
fn timeline_ranges_map_to_clamped_local_ranges() {
    assert_eq!(local_range(100, 10, 20, 5), (15, 25));
    assert_eq!(local_range(100, -50, 20, 5), (0, 25));
    assert_eq!(local_range(100, 90, 200, 5), (95, 100));
    assert_eq!(local_range(100, 30, 20, 0), (30, 20));
    assert_eq!(local_range(0, 0, 10, 0), (0, 0));
}
