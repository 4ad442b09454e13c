use std::time::{Duration, Instant};
use wavalyze::monitoring::{Change, QUIET_PERIOD_MILLIS, ready_after};

#[test]
fn a_fresh_change_is_ready_and_unchanged() {
    let change = Change::default();
    assert_eq!(change.revision, 0);
    assert!(!change.changed);
    assert!(change.ready());
}

#[test]
fn events_bump_the_revision_and_wait_for_quiet() {
    let mut change = Change::default();
    change.error = Some("reload failed".to_string());
    let now = Instant::now();
    for _ in 0..3 {
        change.record_event(now);
    }
    assert_eq!(change.revision, 3);
    assert!(change.changed);
    assert_eq!(change.error, None);
    assert!(!change.ready());
    change.last_event_time = Some(now - Duration::from_millis(QUIET_PERIOD_MILLIS));
    assert!(change.ready());
}

#[test]
fn quiet_period_threshold() {
    assert!(ready_after(None));
    assert!(!ready_after(Some(299)));
    assert!(ready_after(Some(300)));
    assert!(ready_after(Some(10_000)));
}

#[test]
fn record_event_now_marks_pending() {
    let mut change = Change::default();
    change.record_event_now();
    assert_eq!(change.revision, 1);
    assert!(change.changed);
    assert!(change.last_event_time.is_some());
}

use wavalyze::monitoring::{FileChanges, FsEvent, FsEventKind};

fn path(s: &str) -> Vec<String> {
    let mut components = vec!["/".to_string()];
    components.extend(s.split('/').filter(|c| !c.is_empty()).map(str::to_string));
    components
}

fn event(kind: FsEventKind, paths: &[&Vec<String>]) -> FsEvent {
    FsEvent { kind, need_rescan: false, paths: paths.iter().map(|p| (*p).clone()).collect() }
}

fn change<'a>(changes: &'a FileChanges, p: &Vec<String>) -> &'a Change {
    changes.change(p).unwrap()
}

#[test]
fn coalesces_writes_and_ignores_access_and_unrelated_paths() {
    let mut changes = FileChanges::new();
    let path = path("/work/target/change-events.wav");
    changes.watch(path.clone());
    let now = Instant::now();
    changes.record_event(&event(FsEventKind::Access, &[&path]), now);
    changes.record_event(&event(FsEventKind::Modify, &[&self::path("/work/unrelated.wav")]), now);
    assert!(!change(&changes, &path).changed);
    for _ in 0..3 {
        changes.record_event(&event(FsEventKind::Modify, &[&path]), now);
    }
    assert_eq!(changes.paths.len(), 1);
    assert_eq!(change(&changes, &path).revision, 3);
    assert!(!change(&changes, &path).ready());
    changes.paths[0].1.last_event_time = Some(now - Duration::from_millis(QUIET_PERIOD_MILLIS));
    assert!(change(&changes, &path).ready());
}

#[test]
fn replacement_and_removal_remain_pending_until_acknowledged() {
    let mut changes = FileChanges::new();
    let path = path("/work/target/replaced.wav");
    changes.watch(path.clone());
    let now = Instant::now();
    let temporary = self::path("/work/temporary.wav");
    changes.record_event(&event(FsEventKind::ModifyName, &[&temporary, &path]), now);
    changes.record_event(&event(FsEventKind::Remove, &[&path]), now);
    changes.record_event(&event(FsEventKind::Create, &[&path]), now);
    assert!(change(&changes, &path).changed);
    assert_eq!(change(&changes, &path).revision, 3);
    changes.retain(&vec![]);
    assert!(changes.paths.is_empty());
}

#[test]
fn directory_events_affect_only_descendants_and_release_stale_watches() {
    let mut changes = FileChanges::new();
    let base = path("/work/target/ancestor-events");
    let scenario = path("/work/target/ancestor-events/scenario");
    let run = path("/work/target/ancestor-events/scenario/run");
    let a = path("/work/target/ancestor-events/scenario/run/a.wav");
    let b = path("/work/target/ancestor-events/scenario/run/b.wav");
    let unrelated = path("/work/target/ancestor-events/scenario-other/c.wav");
    changes.watch(a.clone());
    changes.watch(b.clone());
    changes.watch(unrelated.clone());
    changes.directories = changes.needed_directories();
    let dropped = changes.record_event(&event(FsEventKind::Remove, &[&scenario]), Instant::now());
    assert!(change(&changes, &a).changed);
    assert!(change(&changes, &b).changed);
    assert!(!change(&changes, &unrelated).changed);
    assert!(!changes.directories.contains(&scenario));
    assert!(!changes.directories.contains(&run));
    assert!(changes.directories.contains(&base));
    assert!(dropped.contains(&scenario) && dropped.contains(&run));
    // Closing one scenario must retain shared ancestors for other loaded files.
    changes.retain(&vec![unrelated]);
    assert!(changes.directories.contains(&base));
    changes.retain(&vec![]);
    assert!(changes.directories.is_empty());
}

#[test]
fn rescan_marks_every_path_and_drops_every_watch() {
    let mut changes = FileChanges::new();
    let a = path("/x/a.wav");
    let b = path("/y/b.wav");
    changes.watch(a.clone());
    changes.watch(b.clone());
    changes.directories = changes.needed_directories();
    let dropped = changes.record_event(
        &FsEvent { kind: FsEventKind::Other, need_rescan: true, paths: vec![] },
        Instant::now(),
    );
    assert!(change(&changes, &a).changed && change(&changes, &b).changed);
    assert!(changes.directories.is_empty());
    assert_eq!(dropped.len(), 3);
}

#[test]
fn modifying_a_directory_does_not_touch_its_files() {
    let mut changes = FileChanges::new();
    let a = path("/x/dir/a.wav");
    changes.watch(a.clone());
    changes.record_event(&event(FsEventKind::Modify, &[&path("/x/dir")]), Instant::now());
    assert!(!change(&changes, &a).changed);
}

#[test]
fn watching_twice_keeps_one_entry_and_its_state() {
    let mut changes = FileChanges::new();
    let a = path("/x/a.wav");
    changes.watch(a.clone());
    changes.record_event(&event(FsEventKind::Modify, &[&a]), Instant::now());
    changes.watch(a.clone());
    assert_eq!(changes.paths.len(), 1);
    assert_eq!(change(&changes, &a).revision, 1);
    assert!(changes.change(&path("/x/b.wav")).is_none());
}

#[test]
fn needed_directories_are_shared_ancestors_once() {
    let mut changes = FileChanges::new();
    changes.watch(path("/x/y/a.wav"));
    changes.watch(path("/x/z/b.wav"));
    let mut needed = changes.needed_directories();
    needed.sort();
    assert_eq!(needed, vec![path("/"), path("/x"), path("/x/y"), path("/x/z")]);
    changes.mark_watched(path("/x"));
    changes.mark_watched(path("/x"));
    assert_eq!(changes.directories, vec![path("/x")]);
    let mut missing = changes.directories_to_watch();
    missing.sort();
    assert_eq!(missing, vec![path("/"), path("/x/y"), path("/x/z")]);
}

#[test]
fn duplicate_path_instances_are_acknowledged_individually() {
    let mut changes = FileChanges::new();
    let p = path("/x/a.wav");
    changes.watch(p.clone());
    changes.record_event(&event(FsEventKind::Modify, &[&p]), Instant::now());
    let sources = vec![(1, p.clone()), (2, p.clone()), (3, path("/x/other.wav"))];
    assert_eq!(changes.changed_ids(&sources), vec![1, 2]);
    changes.acknowledge_reload(&sources, 1, 1);
    assert!(change(&changes, &p).changed);
    assert_eq!(changes.changed_ids(&sources), vec![2]);
    changes.acknowledge_reload(&sources, 2, 1);
    assert!(!change(&changes, &p).changed);
    assert_eq!(change(&changes, &p).error, None);
    assert!(changes.changed_ids(&sources).is_empty());
}

#[test]
fn acknowledging_a_file_without_source_changes_nothing() {
    let mut changes = FileChanges::new();
    let p = path("/x/a.wav");
    changes.watch(p.clone());
    changes.record_event(&event(FsEventKind::Modify, &[&p]), Instant::now());
    changes.acknowledge_reload(&vec![(1, p.clone())], 9, 1);
    assert!(changes.acknowledged.is_empty());
    assert!(change(&changes, &p).changed);
}

#[test]
fn acknowledgements_of_closed_files_are_forgotten() {
    let mut changes = FileChanges::new();
    changes.acknowledged.insert(1, 4);
    changes.acknowledged.insert(2, 5);
    changes.retain_acknowledged(&vec![2, 3]);
    assert_eq!(changes.acknowledged.len(), 1);
    assert_eq!(changes.acknowledged.get(&2), Some(&5));
}
