use std::collections::HashSet;
use std::path::PathBuf;
use std::time::Instant;
use wavalyze::dependencies::Diff;
use wavalyze::load_manager::LoadManager;
use wavalyze::monitoring::FileChanges;
use wavalyze::reload::{
    DiffPairError, MissingInput, ReloadError, SourceCheck, StampCheck, channels_still_present,
    clear_reload_errors, diff_pair_sources, mark_reload_failed, plan_reload, plan_reload_now,
    readiness_now, reload_diff_inputs, validate_reload,
};

fn path(parts: &[&str]) -> Vec<String> {
    parts.iter().map(|p| p.to_string()).collect()
}

fn diff(out: u64, a: u64, b: u64) -> (u64, Diff) {
    (
        out,
        Diff {
            buffer_id_diff: out,
            buffer_id_a: a,
            buffer_id_b: b,
            sample_ix_offset_a: 0,
            sample_ix_offset_b: 0,
            sample_ix_offset_diff: 0,
        },
    )
}

/// Two watched files: `a.wav` changed at revision 2, `b.wav` unchanged at revision 0.
fn watched() -> FileChanges {
    let mut changes = FileChanges::new();
    changes.watch(path(&["/", "a.wav"]));
    changes.watch(path(&["/", "b.wav"]));
    changes.paths[0].1.revision = 2;
    changes.paths[0].1.changed = true;
    changes
}

fn open_files() -> Vec<(u64, Option<Vec<String>>)> {
    vec![
        (1, Some(path(&["/", "a.wav"]))),
        (2, Some(path(&["/", "b.wav"]))),
        (3, None),
        (4, Some(path(&["/", "c.wav"]))),
    ]
}

#[test]
fn diff_pairs_need_a_selection() {
    assert_eq!(diff_pair_sources(&[], &[0, 1], &[0, 1]), Err(DiffPairError::NoPairs));
}

#[test]
fn diff_pairs_map_channels_to_loaded_positions() {
    let r = diff_pair_sources(&[(3, 1), (0, 3)], &[0, 3], &[1, 3]);
    assert_eq!(r, Ok(vec![(1, 0), (0, 1)]));
}

#[test]
fn diff_pairs_report_the_first_missing_channel() {
    assert_eq!(
        diff_pair_sources(&[(0, 0), (2, 5)], &[0, 1], &[0]),
        Err(DiffPairError::MissingA(2))
    );
    assert_eq!(
        diff_pair_sources(&[(0, 4), (2, 5)], &[0, 1], &[0]),
        Err(DiffPairError::MissingB(4))
    );
}

#[test]
fn reread_file_must_keep_its_channels() {
    assert!(channels_still_present(&[0, 1], 2));
    assert!(!channels_still_present(&[0, 2], 2));
    assert!(channels_still_present(&[], 0));
}

#[test]
fn chained_diffs_find_inputs_produced_earlier() {
    let available: HashSet<u64> = [1, 2, 3].into_iter().collect();
    let diffs = vec![diff(10, 1, 2), diff(11, 10, 3)];
    assert_eq!(reload_diff_inputs(&diffs, &available), Ok(()));
}

#[test]
fn missing_diff_inputs_are_reported_a_first() {
    let available: HashSet<u64> = [1, 2].into_iter().collect();
    let out_of_order = vec![diff(11, 10, 1), diff(10, 1, 2)];
    assert_eq!(
        reload_diff_inputs(&out_of_order, &available),
        Err(MissingInput { index: 0, buffer_id: 10 })
    );
    let missing_b = vec![diff(10, 1, 2), diff(11, 10, 9)];
    assert_eq!(
        reload_diff_inputs(&missing_b, &available),
        Err(MissingInput { index: 1, buffer_id: 9 })
    );
}

#[test]
fn an_active_batch_takes_nothing() {
    let changes = watched();
    assert_eq!(plan_reload(true, &[1, 99], &open_files(), &changes, &[true, true]), Ok(vec![]));
}

#[test]
fn plan_takes_changed_files_once_and_skips_unchanged_ones() {
    let changes = watched();
    let plan = plan_reload(false, &[2, 1, 1], &open_files(), &changes, &[true, true]);
    assert_eq!(plan, Ok(vec![(1, path(&["/", "a.wav"]), 2)]));
}

#[test]
fn plan_failures() {
    let changes = watched();
    let files = open_files();
    assert_eq!(
        plan_reload(false, &[1, 99], &files, &changes, &[true, true]),
        Err(ReloadError::FileClosed(99))
    );
    assert_eq!(
        plan_reload(false, &[3], &files, &changes, &[true, true]),
        Err(ReloadError::NoDiskSource(3))
    );
    assert_eq!(
        plan_reload(false, &[4], &files, &changes, &[true, true]),
        Err(ReloadError::NotMonitored(4))
    );
    assert_eq!(
        plan_reload(false, &[1], &files, &changes, &[false, true]),
        Err(ReloadError::StillChanging(1))
    );
    assert_eq!(plan_reload(false, &[2], &files, &changes, &[true, false]), Ok(vec![]));
}

#[test]
fn planning_now_treats_paths_without_events_as_ready() {
    let mut changes = watched();
    assert_eq!(readiness_now(&changes), vec![true, true]);
    assert_eq!(
        plan_reload_now(false, &[1], &open_files(), &changes),
        Ok(vec![(1, path(&["/", "a.wav"]), 2)])
    );
    changes.paths[0].1.last_event_time = Some(Instant::now());
    assert_eq!(
        plan_reload_now(false, &[1], &open_files(), &changes),
        Err(ReloadError::StillChanging(1))
    );
}

fn check(id: u64, name: &str, revision: u64) -> SourceCheck {
    SourceCheck {
        id,
        path: path(&["/", name]),
        revision,
        file_unchanged: true,
        stamp: StampCheck::Same,
    }
}

#[test]
fn validation_accepts_an_unchanged_workspace() {
    let changes = watched();
    let topology = vec![diff(10, 1, 2)];
    let live: HashSet<u64> = [1, 2, 10].into_iter().collect();
    let r = validate_reload(5, 5, &topology, &topology, &[check(1, "a.wav", 2)], &changes, &topology, &live);
    assert_eq!(r, Ok(()));
}

#[test]
fn validation_rejects_a_stale_batch() {
    let changes = watched();
    let topology = vec![diff(10, 1, 2)];
    let live: HashSet<u64> = [1, 2, 10].into_iter().collect();
    let ok = [check(1, "a.wav", 2)];
    assert_eq!(
        validate_reload(4, 5, &topology, &topology, &ok, &changes, &topology, &live),
        Err(ReloadError::WorkspaceCleared)
    );
    assert_eq!(
        validate_reload(5, 5, &topology, &[], &ok, &changes, &topology, &live),
        Err(ReloadError::DependenciesChanged)
    );
    let mut moved = check(1, "a.wav", 2);
    moved.file_unchanged = false;
    assert_eq!(
        validate_reload(5, 5, &topology, &topology, &[moved], &changes, &topology, &live),
        Err(ReloadError::FileChanged(1))
    );
    assert_eq!(
        validate_reload(5, 5, &topology, &topology, &[check(4, "c.wav", 0)], &changes, &topology, &live),
        Err(ReloadError::FileClosed(4))
    );
    assert_eq!(
        validate_reload(5, 5, &topology, &topology, &[check(1, "a.wav", 1)], &changes, &topology, &live),
        Err(ReloadError::ChangedWhileUpdating(1))
    );
    let mut written = check(1, "a.wav", 2);
    written.stamp = StampCheck::Differs;
    assert_eq!(
        validate_reload(5, 5, &topology, &topology, &[written], &changes, &topology, &live),
        Err(ReloadError::ChangedWhileUpdating(1))
    );
    let mut unreadable = check(1, "a.wav", 2);
    unreadable.stamp = StampCheck::Unreadable;
    assert_eq!(
        validate_reload(5, 5, &topology, &topology, &[unreadable], &changes, &topology, &live),
        Err(ReloadError::StampUnreadable(1))
    );
    let closed: HashSet<u64> = [2, 10].into_iter().collect();
    assert_eq!(
        validate_reload(5, 5, &topology, &topology, &ok, &changes, &topology, &closed),
        Err(ReloadError::DiffSourceClosed(1))
    );
}

#[test]
fn a_failed_batch_stays_pending_with_its_error() {
    let mut changes = watched();
    changes.paths[1].1.changed = false;
    let failed = vec![(1, path(&["/", "a.wav"])), (2, path(&["/", "b.wav"]))];
    let still_open = vec![(2, Some(path(&["/", "b.wav"])))];
    let error = "Update kept previous data: bad file".to_string();
    mark_reload_failed(&mut changes, &failed, &still_open, &error);
    assert_eq!(changes.paths[0].1.error, None);
    assert_eq!(changes.paths[0].1.revision, 2);
    assert_eq!(changes.paths[1].1.error, Some(error));
    assert!(changes.paths[1].1.changed);
    assert_eq!(changes.paths[1].1.revision, 0);
}

#[test]
fn starting_a_batch_clears_its_errors_only() {
    let mut changes = watched();
    changes.paths[0].1.error = Some("old".to_string());
    changes.paths[1].1.error = Some("other".to_string());
    clear_reload_errors(&mut changes, &[(1, path(&["/", "a.wav"]), 2)]);
    assert_eq!(changes.paths[0].1.error, None);
    assert!(changes.paths[0].1.changed);
    assert_eq!(changes.paths[1].1.error, Some("other".to_string()));
}

#[test]
fn load_ids_are_fresh_and_increasing() {
    let mut manager: LoadManager<u8> = LoadManager::new();
    let mut seen = Vec::new();
    for k in 0..5u8 {
        let id = manager.start_load(PathBuf::from(format!("{k}.wav")), k);
        assert!(!seen.contains(&id));
        assert!(seen.iter().all(|&earlier| earlier < id));
        seen.push(id);
        if k % 2 == 0 {
            assert_eq!(manager.finish_load(id), Some(k));
        }
    }
    assert_eq!(manager.pending(), 2);
}

#[test]
fn a_failed_file_is_offered_again_at_its_revision() {
    let mut changes = watched();
    let files = open_files();
    let plan = plan_reload(false, &[1], &files, &changes, &[true, true]).unwrap();
    clear_reload_errors(&mut changes, &plan);
    changes.paths[0].1.changed = false;
    let failed: Vec<(u64, Vec<String>)> = plan.iter().map(|(id, p, _)| (*id, p.clone())).collect();
    mark_reload_failed(&mut changes, &failed, &files, &"Update kept previous data: x".to_string());
    assert_eq!(plan_reload(false, &[1], &files, &changes, &[true, true]), Ok(plan));
}
