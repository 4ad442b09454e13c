use wavalyze::actions::{
    ActionError, FollowUp, OffsetApplication, apply_detected_offset, integration_follow_ups, stats_range,
    track_offset_scan,
};
use wavalyze::detect_offset::{OffsetDetectionResult, OffsetDetectionTarget};

#[test]
fn stale_results_are_dropped() {
    assert_eq!(integration_follow_ups(3, 4, true), None);
}

#[test]
fn current_results_zoom_and_refill_an_equal_height_layout() {
    assert_eq!(integration_follow_ups(4, 4, false), Some(vec![FollowUp::ZoomToFull]));
    assert_eq!(
        integration_follow_ups(4, 4, true),
        Some(vec![FollowUp::ZoomToFull, FollowUp::FillEqualHeight])
    );
}

#[test]
fn track_offset_scan_skips_inheriting_tracks() {
    assert_eq!(track_offset_scan(7, None), Err(ActionError::TrackNotFound(7)));
    assert_eq!(track_offset_scan(7, Some((true, 3))), Ok(None));
    assert_eq!(track_offset_scan(7, Some((false, 3))), Ok(Some(3)));
}

#[test]
fn detected_offsets_apply_only_to_current_targets() {
    let track = OffsetDetectionTarget::Track { track_id: 1, buffer_id: 5 };
    let file = OffsetDetectionTarget::File { file_id: 2 };
    let found = |target| OffsetDetectionResult { target, sample_ix_offset: Some(-12) };
    assert_eq!(
        apply_detected_offset(found(track), Some(5), false),
        OffsetApplication::Track { track_id: 1, sample_ix_offset: -12 }
    );
    assert_eq!(apply_detected_offset(found(track), Some(6), true), OffsetApplication::Ignore);
    assert_eq!(apply_detected_offset(found(track), None, true), OffsetApplication::Ignore);
    assert_eq!(
        apply_detected_offset(found(file), None, true),
        OffsetApplication::File { file_id: 2, sample_ix_offset: -12 }
    );
    assert_eq!(apply_detected_offset(found(file), None, false), OffsetApplication::Ignore);
    let nothing = OffsetDetectionResult { target: track, sample_ix_offset: None };
    assert_eq!(apply_detected_offset(nothing, Some(5), true), OffsetApplication::Ignore);
}

#[test]
fn stats_cover_the_selection_or_the_shifted_buffer() {
    assert_eq!(stats_range(Some((10, 20)), 100, 1000), (10, 20));
    assert_eq!(stats_range(None, 100, 1000), (-100, 900));
    assert_eq!(stats_range(None, -5, 10), (5, 15));
}
