use std::collections::HashSet;
use std::path::PathBuf;
use wavalyze::audio::{Buffer, BufferE, F32Bits, SampleType, Samples, WavSpec};
use wavalyze::config::{SelectionConfig, StartEditMode, StatsOptions, ViewConfig, default_true};
use wavalyze::demo::{
    DemoTimedConfig, DemoTimedSummary, compute_demo_stage, demo_stage_name, demo_summary, run_demo_iterations,
    run_demo_timed,
};
use wavalyze::dependencies::{Diff, affected_diffs};
use wavalyze::files::FileVisibilityState;
use wavalyze::load_manager::LoadManager;
use wavalyze::view_buffer::ViewBufferE;

fn diff(out: u64, a: u64, b: u64) -> (u64, Diff) {
    (
        out,
        Diff {
            buffer_id_diff: out,
            buffer_id_a: a,
            buffer_id_b: b,
            sample_ix_offset_a: 0,
            sample_ix_offset_b: 0,
            sample_ix_offset_diff: 0,
        },
    )
}

#[test]
fn affected_diffs_follow_chains_in_dependency_order() {
    // 10 = 1 - 2, 11 = 10 - 3, 12 = 4 - 5; 11 is listed before the diff it reads.
    let topology = vec![diff(11, 10, 3), diff(10, 1, 2), diff(12, 4, 5)];
    let changed: HashSet<u64> = [1].into_iter().collect();
    let ids: Vec<u64> = affected_diffs(&topology, &changed).iter().map(|(id, _)| *id).collect();
    assert_eq!(ids, vec![10, 11]);
}

#[test]
fn unrelated_changes_affect_no_diff() {
    let topology = vec![diff(10, 1, 2)];
    let changed: HashSet<u64> = [7].into_iter().collect();
    assert!(affected_diffs(&topology, &changed).is_empty());
}

#[test]
fn shared_inputs_mark_every_reader() {
    let topology = vec![diff(10, 1, 2), diff(11, 2, 3), diff(12, 4, 5)];
    let changed: HashSet<u64> = [2].into_iter().collect();
    let ids: Vec<u64> = affected_diffs(&topology, &changed).iter().map(|(id, _)| *id).collect();
    assert_eq!(ids, vec![10, 11]);
}

#[test]
fn file_visibility_state_tracks_partial_visibility() {
    assert_eq!(FileVisibilityState::from_channels(&[Some(true), Some(true)]), FileVisibilityState::AllVisible);
    assert_eq!(FileVisibilityState::from_channels(&[Some(false), Some(true)]), FileVisibilityState::PartiallyVisible);
    assert_eq!(FileVisibilityState::from_channels(&[Some(false), Some(false)]), FileVisibilityState::NoneVisible);
}

#[test]
fn a_channel_without_track_counts_as_hidden() {
    assert_eq!(FileVisibilityState::from_channels(&[None, Some(true)]), FileVisibilityState::PartiallyVisible);
    assert_eq!(FileVisibilityState::from_channels(&[None]), FileVisibilityState::NoneVisible);
    assert_eq!(FileVisibilityState::from_channels(&[]), FileVisibilityState::NoneVisible);
}

#[test]
fn load_manager_matches_results_to_registered_loads() {
    let mut manager: LoadManager<u32> = LoadManager::new();
    assert_eq!(manager.pending(), 0);
    let a = manager.start_load(PathBuf::from("a.wav"), 7);
    let b = manager.start_load(PathBuf::from("b.wav"), 8);
    assert_eq!((a, b), (1, 2));
    assert_eq!(manager.pending(), 2);
    assert_eq!(manager.progress_handle(b), Some(8));
    assert_eq!(manager.finish_load(a), Some(7));
    assert_eq!(manager.pending(), 1);
    assert_eq!(manager.progress_handle(a), None);
    let entry = manager.any_progress_entry().unwrap();
    assert_eq!(entry.path, PathBuf::from("b.wav"));
    assert_eq!(entry.handle, 8);
}

#[test]
fn finishing_an_unknown_load_still_counts_down() {
    let mut manager: LoadManager<u32> = LoadManager::default();
    manager.start_load(PathBuf::from("a.wav"), 1);
    assert_eq!(manager.finish_load(99), None);
    assert_eq!(manager.pending(), 0);
    assert_eq!(manager.finish_load(98), None);
    assert_eq!(manager.pending(), 0);
    assert!(manager.any_progress_entry().is_some());
}

#[test]
fn demo_stage_names() {
    assert_eq!(demo_stage_name(0, 4), "preparing");
    assert_eq!(demo_stage_name(1, 4), "processing 2");
    assert_eq!(demo_stage_name(2, 4), "processing 3");
    assert_eq!(demo_stage_name(3, 4), "finalizing");
}

fn reference_iterations(mut value: u64, stage_ix: u32, start_ix: u32, end_ix: u32) -> u64 {
    for ix in start_ix..end_ix {
        let ix = ix as u64;
        value = value
            .wrapping_mul(1_664_525)
            .wrapping_add(1_013_904_223)
            .wrapping_add(ix.rotate_left((stage_ix % 13) + 1));
        value ^= value >> 17;
        value = value.rotate_left(((ix % 23) + 1) as u32);
    }
    value
}

#[test]
fn demo_work_matches_the_reference_steps() {
    assert_eq!(run_demo_iterations(5, 3, 0, 100), reference_iterations(5, 3, 0, 100));
    assert_eq!(run_demo_iterations(5, 3, 10, 10), 5);
    assert_eq!(compute_demo_stage(2, 10, 9), reference_iterations(9 ^ (2u64 << 32), 2, 0, 10_000));
    let config = DemoTimedConfig { stage_count: 3, work_units: 20_000 };
    let summary = run_demo_timed(7, config);
    let expected = (0..3).fold(0u64, |acc, s| acc ^ reference_iterations(7 ^ ((s as u64) << 32), s, 0, 20_000));
    assert_eq!(summary, DemoTimedSummary { stage_count: 3, checksum: expected });
}

#[test]
fn demo_defaults_and_summary() {
    assert_eq!(DemoTimedConfig::default(), DemoTimedConfig { stage_count: 4, work_units: 5_000_000 });
    assert_eq!(demo_summary(&DemoTimedSummary { stage_count: 0, checksum: 0 }), "0 stages complete, checksum 0");
    assert_eq!(
        demo_summary(&DemoTimedSummary { stage_count: 4, checksum: u64::MAX }),
        format!("4 stages complete, checksum {}", u64::MAX)
    );
}

#[test]
fn config_defaults() {
    assert!(default_true());
    assert_eq!(StartEditMode::default(), StartEditMode::KeepEnd);
    assert_eq!(SelectionConfig::default().start_edit_mode, StartEditMode::KeepEnd);
    assert!(ViewConfig::default().show_right_panel);
    let stats = StatsOptions::default();
    assert!(stats.rms && stats.peak);
}

#[test]
fn view_buffer_length_and_clear_keep_the_form() {
    let mut b: ViewBufferE<u8> = ViewBufferE::LinePerPixelColumn(vec![[1, 2], [3, 4]]);
    assert_eq!(b.len(), 2);
    assert!(!b.is_empty());
    b.clear();
    assert!(b.is_empty());
    assert!(matches!(b, ViewBufferE::LinePerPixelColumn(_)));
    let one: ViewBufferE<u8> = ViewBufferE::OneLine(vec![1, 2, 3]);
    assert_eq!(one.len(), 3);
}

#[test]
fn samples_are_allocated_per_channel() {
    let s: Samples<i16> = Samples::new(3, 4, 0);
    assert_eq!(s.nr_channels(), 3);
    assert!(s.data.iter().all(|c| c == &vec![0i16; 4]));
    assert_eq!(s.sample_type, SampleType::Float);
    assert_eq!(s.spec, WavSpec::default());
}

#[test]
fn buffer_reports_length_and_rate() {
    let b = BufferE::F32(Buffer { sample_rate: 44_100, bit_depth: 32, data: vec![F32Bits(0); 5] });
    assert_eq!(b.nr_samples(), 5);
    assert_eq!(b.sample_rate(), 44_100);
}
