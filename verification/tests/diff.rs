use wavalyze::audio::{Buffer, BufferE, F32Bits};
use wavalyze::diff::{DiffError, DiffPlan, diff_plan, distinct_sorted};

fn f32_buffer(data: &[f32], sample_rate: u32) -> BufferE {
    BufferE::F32(Buffer {
        sample_rate,
        bit_depth: 32,
        data: data.iter().map(|x| F32Bits(x.to_bits())).collect(),
    })
}

fn samples(buffer: &BufferE) -> Vec<f32> {
    match buffer {
        BufferE::F32(b) => b.data.iter().map(|x| f32::from_bits(x.0)).collect(),
        _ => unreachable!(),
    }
}

/// The diff samples a plan describes: `a - b`, a missing sample reading as zero.
fn diff_data(plan: &DiffPlan, a: &BufferE, b: &BufferE) -> Vec<f32> {
    let a = samples(a);
    let b = samples(b);
    plan.sources
        .iter()
        .map(|(ia, ib)| ia.map_or(0.0, |i| a[i]) - ib.map_or(0.0, |i| b[i]))
        .collect()
}

#[test]
fn diff_pads_shorter_buffer_with_zero() {
    let a = f32_buffer(&[1.0, 2.0, 3.0], 48_000);
    let b = f32_buffer(&[0.5], 48_000);

    let plan = diff_plan(&a, &b, 0, 0).unwrap();

    assert_eq!(plan.sample_ix_offset_diff, 0);
    assert_eq!(diff_data(&plan, &a, &b), vec![0.5, 2.0, 3.0]);
}

#[test]
fn diff_applies_signed_offsets() {
    let a = f32_buffer(&[1.0, 2.0, 3.0], 48_000);
    let b = f32_buffer(&[10.0, 20.0, 30.0], 48_000);

    let plan = diff_plan(&a, &b, 1, 0).unwrap();

    assert_eq!(plan.sample_ix_offset_diff, 1);
    assert_eq!(diff_data(&plan, &a, &b), vec![1.0, -8.0, -17.0, -30.0]);
}

#[test]
fn diff_rejects_sample_rate_mismatch() {
    let a = f32_buffer(&[1.0], 48_000);
    let b = f32_buffer(&[1.0], 44_100);

    assert!(diff_plan(&a, &b, 0, 0).is_err());
}

#[test]
fn mismatch_error_names_both_rates() {
    let a = f32_buffer(&[1.0], 48_000);
    let b = f32_buffer(&[1.0], 44_100);
    assert_eq!(
        diff_plan(&a, &b, 0, 0),
        Err(DiffError::SampleRateMismatch { rate_a: 48_000, rate_b: 44_100 })
    );
}

#[test]
fn plan_lists_source_indices_and_rate() {
    let a = f32_buffer(&[1.0, 2.0], 44_100);
    let b = f32_buffer(&[3.0], 44_100);
    let plan = diff_plan(&a, &b, 0, -2).unwrap();
    assert_eq!(plan.sample_rate, 44_100);
    assert_eq!(plan.sample_ix_offset_diff, 0);
    assert_eq!(plan.sources, vec![(Some(0), None), (Some(1), None), (None, Some(0))]);
}

#[test]
fn empty_inputs_give_an_empty_diff() {
    let a = f32_buffer(&[], 48_000);
    let b = f32_buffer(&[], 48_000);
    let plan = diff_plan(&a, &b, 0, 0).unwrap();
    assert!(plan.sources.is_empty());
}

#[test]
fn distinct_sorted_removes_duplicates_and_sorts() {
    assert_eq!(distinct_sorted(&[3, 1, 3, 0, 1]), vec![0, 1, 3]);
    assert_eq!(distinct_sorted(&[]), Vec::<usize>::new());
}
