use wavalyze::audio::{Buffer, BufferE, F32Bits};
use wavalyze::detect_offset::{
    OffsetDetectionMode, combine_offsets, detect_min_offset, detect_offset, offset_summary,
};

fn f32_buffer(data: Vec<f32>) -> BufferE {
    BufferE::F32(Buffer {
        sample_rate: 48_000,
        bit_depth: 32,
        data: data.into_iter().map(|x| F32Bits(x.to_bits())).collect(),
    })
}

#[test]
fn detects_first_non_zero_and_last_leading_zero() {
    let buffer = f32_buffer(vec![0.0, -0.0, 0.25]);

    assert_eq!(detect_offset(&buffer, OffsetDetectionMode::FirstNonZero), Some(2));
    assert_eq!(detect_offset(&buffer, OffsetDetectionMode::LastLeadingZero), Some(1));
}

#[test]
fn sine_style_initial_zero_uses_sample_zero_as_last_leading_zero() {
    let buffer = f32_buffer(vec![0.0, 0.25, 0.5]);

    assert_eq!(detect_offset(&buffer, OffsetDetectionMode::FirstNonZero), Some(1));
    assert_eq!(detect_offset(&buffer, OffsetDetectionMode::LastLeadingZero), Some(0));
}

#[test]
fn immediate_non_zero_has_no_leading_zero() {
    let buffer = f32_buffer(vec![0.25, 0.0]);

    assert_eq!(detect_offset(&buffer, OffsetDetectionMode::FirstNonZero), Some(0));
    assert_eq!(detect_offset(&buffer, OffsetDetectionMode::LastLeadingZero), None);
}

#[test]
fn silence_has_no_detected_offset() {
    let buffer = f32_buffer(vec![0.0, -0.0, 0.0]);

    assert_eq!(detect_offset(&buffer, OffsetDetectionMode::FirstNonZero), None);
    assert_eq!(detect_offset(&buffer, OffsetDetectionMode::LastLeadingZero), None);
}

#[test]
fn supports_integer_buffers() {
    let i16_buffer = BufferE::I16(Buffer { sample_rate: 48_000, bit_depth: 16, data: vec![0, 0, -1] });
    let i32_buffer = BufferE::I32(Buffer { sample_rate: 48_000, bit_depth: 24, data: vec![0, 2] });

    assert_eq!(detect_offset(&i16_buffer, OffsetDetectionMode::FirstNonZero), Some(2));
    assert_eq!(detect_offset(&i32_buffer, OffsetDetectionMode::LastLeadingZero), Some(0));
}

#[test]
fn worker_uses_minimum_valid_offset_across_buffers() {
    let buffers = vec![
        f32_buffer(vec![0.0, 0.0, 1.0]),
        f32_buffer(vec![0.0, 1.0]),
        f32_buffer(vec![0.0, 0.0, 0.0]),
    ];

    let offset = detect_min_offset(&buffers, OffsetDetectionMode::FirstNonZero);
    assert_eq!(offset, Some(1));
    assert_eq!(offset_summary(offset), "offset 1");
}

#[test]
fn empty_buffer_has_no_offset() {
    let buffer = f32_buffer(vec![]);
    assert_eq!(detect_offset(&buffer, OffsetDetectionMode::FirstNonZero), None);
    assert_eq!(detect_min_offset(&[], OffsetDetectionMode::FirstNonZero), None);
}

#[test]
fn negative_zero_and_nan_payloads_are_told_apart() {
    // -0.0 counts as zero, a NaN does not.
    let buffer = f32_buffer(vec![-0.0, f32::NAN]);
    assert_eq!(detect_offset(&buffer, OffsetDetectionMode::FirstNonZero), Some(1));
}

#[test]
fn combining_offsets_keeps_the_smaller_and_ignores_missing_ones() {
    assert_eq!(combine_offsets(None, None), None);
    assert_eq!(combine_offsets(None, Some(4)), Some(4));
    assert_eq!(combine_offsets(Some(3), None), Some(3));
    assert_eq!(combine_offsets(Some(7), Some(2)), Some(2));
}

#[test]
fn summary_reports_offset_or_silence() {
    assert_eq!(offset_summary(Some(1234)), "offset 1234");
    assert_eq!(offset_summary(Some(0)), "offset 0");
    assert_eq!(offset_summary(Some(-56)), "offset -56");
    assert_eq!(offset_summary(Some(i64::MIN)), format!("offset {}", i64::MIN));
    assert_eq!(offset_summary(None), "no non-zero sample");
}

#[test]
fn last_leading_zero_on_several_buffers_takes_the_smallest() {
    let buffers = vec![f32_buffer(vec![0.0, 0.0, 0.0, 1.0]), f32_buffer(vec![1.0]), f32_buffer(vec![0.0, 1.0])];
    assert_eq!(detect_min_offset(&buffers, OffsetDetectionMode::LastLeadingZero), Some(0));
}
