use std::collections::{HashMap, HashSet};
use wavalyze::dependencies::{Diff, affected_tracks_for_buffers, diff_topology, redirect_buffer, redirect_diff};
use wavalyze::files::track_insert_index;
use wavalyze::shortcuts::{ShortcutAction, ShortcutBinding, ShortcutScope};

fn diff(out: u64, a: u64, b: u64) -> Diff {
    Diff {
        buffer_id_diff: out,
        buffer_id_a: a,
        buffer_id_b: b,
        sample_ix_offset_a: 1,
        sample_ix_offset_b: -2,
        sample_ix_offset_diff: 3,
    }
}

#[test]
fn topology_is_sorted_and_keeps_reachable_retired_recipes() {
    // 30 reads the removed intermediate 20, which reads the removed 10; 40 was a standalone
    // removed diff and is not needed.
    let live = vec![diff(30, 20, 5), diff(25, 1, 2)];
    let retired: HashMap<u64, Diff> = [(20, diff(20, 10, 6)), (10, diff(10, 1, 3)), (40, diff(40, 1, 2))].into_iter().collect();
    let topology = diff_topology(&live, &retired);
    let ids: Vec<u64> = topology.iter().map(|(id, _)| *id).collect();
    assert_eq!(ids, vec![10, 20, 25, 30]);
    assert_eq!(topology[1].1, diff(20, 10, 6));
}

#[test]
fn live_recipes_win_over_retired_ones() {
    let live = vec![diff(7, 1, 2)];
    let retired: HashMap<u64, Diff> = [(7, diff(7, 3, 4))].into_iter().collect();
    assert_eq!(diff_topology(&live, &retired), vec![(7, diff(7, 1, 2))]);
}

#[test]
fn empty_workspace_has_empty_topology() {
    assert!(diff_topology(&[], &HashMap::new()).is_empty());
}

#[test]
fn affected_tracks_are_sources_and_dependent_diffs_in_display_order() {
    let topology = vec![(10, diff(10, 1, 2)), (11, diff(11, 10, 3))];
    let tracks = vec![(100, 11), (101, 3), (102, 1), (103, 10), (104, 2)];
    let changed: HashSet<u64> = [1].into_iter().collect();
    assert_eq!(affected_tracks_for_buffers(&tracks, &topology, &changed), vec![100, 102, 103]);
}

#[test]
fn recipes_follow_replacement_buffers() {
    let replacements: HashMap<u64, u64> = [(1, 91), (10, 90)].into_iter().collect();
    assert_eq!(redirect_buffer(1, &replacements), 91);
    assert_eq!(redirect_buffer(2, &replacements), 2);
    let d = redirect_diff(diff(10, 1, 2), &replacements);
    assert_eq!(d, Diff { buffer_id_diff: 90, buffer_id_a: 91, buffer_id_b: 2, ..diff(10, 1, 2) });
}

#[test]
fn restored_track_goes_after_the_tracks_of_earlier_channels() {
    let channels = vec![(1, true), (2, false), (3, true), (4, false), (5, true)];
    assert_eq!(track_insert_index(&channels, 1), Some(0));
    assert_eq!(track_insert_index(&channels, 4), Some(2));
    assert_eq!(track_insert_index(&channels, 5), Some(2));
    assert_eq!(track_insert_index(&channels, 9), None);
}

#[test]
fn fallback_label_joins_modifiers_and_key() {
    let b = ShortcutBinding::new(ShortcutAction::ZoomToSelection, "NotAKey")
        .with_scope(ShortcutScope::Global)
        .with_command()
        .with_shift();
    assert_eq!(b.fallback_label(), "Cmd/Ctrl+Shift+NotAKey");
    let mut all = ShortcutBinding::new(ShortcutAction::ZoomToFull, "Q");
    all.command = true;
    all.ctrl = true;
    all.alt = true;
    all.shift = true;
    assert_eq!(all.fallback_label(), "Cmd/Ctrl+Ctrl+Alt+Shift+Q");
    assert_eq!(ShortcutBinding::new(ShortcutAction::ZoomToFull, "Q").fallback_label(), "Q");
}

use wavalyze::diff::plan_fits;
use wavalyze::shortcuts::ShortcutConfig;

#[test]
fn dispatch_tries_more_specific_bindings_first() {
    let config = ShortcutConfig {
        bindings: vec![
            ShortcutBinding::new(ShortcutAction::ZoomToFull, "A"),
            ShortcutBinding::new(ShortcutAction::ZoomToSelection, "A").with_command().with_shift(),
            ShortcutBinding::new(ShortcutAction::FillScreenHeight, "NotAKey").with_command(),
            ShortcutBinding::new(ShortcutAction::RecenterYAll, "B").with_command(),
            ShortcutBinding::new(ShortcutAction::ZoomToFull, "C").with_scope(ShortcutScope::OneHand),
        ],
    };
    assert_eq!(config.dispatch_order(ShortcutScope::Global), vec![1, 3, 0]);
    assert_eq!(config.dispatch_order(ShortcutScope::OneHand), vec![4]);
}

#[test]
fn default_bindings_dispatch_in_specificity_order() {
    let config = ShortcutConfig::default();
    // Global defaults: zoom to selection, fill height and recenter use two modifiers, zoom to
    // full one.
    assert_eq!(config.dispatch_order(ShortcutScope::Global), vec![0, 4, 6, 2]);
    assert_eq!(config.dispatch_order(ShortcutScope::OneHand), vec![1, 3, 5, 7]);
}

#[test]
fn plans_outside_the_sample_index_range_are_refused() {
    assert!(plan_fits(10, 20, 0, -5));
    assert!(!plan_fits(10, 20, i64::MIN, 0));
    assert!(!plan_fits(10, 0, -(i64::MAX - 5), 0));
    assert!(!plan_fits(0, 0, i64::MAX, -i64::MAX));
}
