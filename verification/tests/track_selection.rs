use slotmap::{DefaultKey, Key, SlotMap};
use wavalyze::track_selection::{TrackId, TrackSelection, TrackSelectionMode};

fn track_ids(count: usize) -> Vec<TrackId> {
    let mut tracks = SlotMap::<DefaultKey, ()>::with_key();
    (0..count).map(|_| tracks.insert(()).data().as_ffi()).collect()
}

fn assert_selected(selection: &TrackSelection, expected: &[TrackId]) {
    assert_eq!(selection.selected_ids().len(), expected.len());
    for track_id in expected {
        assert!(selection.is_selected(*track_id));
    }
}

#[test]
fn replace_keeps_only_clicked_track() {
    let order = track_ids(2);
    let mut selection = TrackSelection::default();

    selection.apply(order[0], TrackSelectionMode::Replace, &order);
    selection.apply(order[1], TrackSelectionMode::Replace, &order);

    assert_selected(&selection, &[order[1]]);
}

#[test]
fn toggle_adds_and_removes_tracks() {
    let order = track_ids(3);
    let mut selection = TrackSelection::default();

    selection.apply(order[0], TrackSelectionMode::Replace, &order);
    selection.apply(order[2], TrackSelectionMode::Toggle, &order);
    assert_selected(&selection, &[order[0], order[2]]);

    selection.apply(order[0], TrackSelectionMode::Toggle, &order);
    assert_selected(&selection, &[order[2]]);
}

#[test]
fn range_replaces_selection_between_anchor_and_clicked_track() {
    let order = track_ids(4);
    let mut selection = TrackSelection::default();

    selection.apply(order[1], TrackSelectionMode::Replace, &order);
    selection.apply(order[3], TrackSelectionMode::Range, &order);
    assert_selected(&selection, &order[1..=3]);

    selection.apply(order[0], TrackSelectionMode::Range, &order);
    assert_selected(&selection, &order[0..=1]);
}

#[test]
fn range_uses_current_track_order() {
    let ids = track_ids(4);
    let mut selection = TrackSelection::default();
    selection.apply(ids[1], TrackSelectionMode::Replace, &ids);

    let reordered = [ids[3], ids[1], ids[0], ids[2]];
    selection.apply(ids[2], TrackSelectionMode::Range, &reordered);

    assert_selected(&selection, &[ids[1], ids[0], ids[2]]);
}

#[test]
fn removing_anchor_makes_next_range_a_replacement() {
    let order = track_ids(3);
    let mut selection = TrackSelection::default();
    selection.apply(order[1], TrackSelectionMode::Replace, &order);

    selection.remove(order[1]);
    selection.apply(order[2], TrackSelectionMode::Range, &order);

    assert_selected(&selection, &[order[2]]);
}

#[test]
fn clear_removes_selection_and_anchor() {
    let order = track_ids(2);
    let mut selection = TrackSelection::default();
    selection.apply(order[0], TrackSelectionMode::Replace, &order);

    selection.clear();
    selection.apply(order[1], TrackSelectionMode::Range, &order);

    assert_selected(&selection, &[order[1]]);
}

#[test]
fn click_on_unknown_track_changes_nothing() {
    let order = vec![1, 2, 3];
    let mut selection = TrackSelection::new();
    selection.apply(2, TrackSelectionMode::Replace, &order);
    selection.apply(9, TrackSelectionMode::Replace, &order);
    selection.apply(9, TrackSelectionMode::Toggle, &order);
    assert_eq!(selection.selected_ids(), vec![2]);
}

#[test]
fn toggling_twice_restores_the_selection() {
    let order = vec![10, 20, 30];
    let mut selection = TrackSelection::new();
    selection.apply(10, TrackSelectionMode::Replace, &order);
    selection.apply(30, TrackSelectionMode::Toggle, &order);
    selection.apply(30, TrackSelectionMode::Toggle, &order);
    assert_eq!(selection.selected_ids(), vec![10]);
    assert!(!selection.is_selected(30));
}

#[test]
fn range_without_anchor_selects_the_clicked_track() {
    let order = vec![5, 6, 7];
    let mut selection = TrackSelection::new();
    selection.apply(7, TrackSelectionMode::Range, &order);
    assert_eq!(selection.selected_ids(), vec![7]);
    selection.apply(5, TrackSelectionMode::Range, &order);
    let mut ids = selection.selected_ids();
    ids.sort();
    assert_eq!(ids, vec![5, 6, 7]);
}
