use wavalyze::files::{file_offset_followers, offset_inheritance, restore_channel_plan};

#[test]
fn restored_track_goes_after_earlier_tracks_with_the_file_offset() {
    let channels = [(10, true), (11, false), (12, true), (20, false)];
    assert_eq!(restore_channel_plan(false, &channels, 20, Some(-48)), Some((2, -48)));
    assert_eq!(restore_channel_plan(false, &channels, 11, Some(7)), Some((1, 7)));
}

#[test]
fn restoring_needs_a_missing_track_an_open_file_and_its_offset() {
    let channels = [(10, true), (11, false)];
    assert_eq!(restore_channel_plan(true, &channels, 11, Some(0)), None);
    assert_eq!(restore_channel_plan(false, &channels, 99, Some(0)), None);
    assert_eq!(restore_channel_plan(false, &channels, 11, None), None);
}

#[test]
fn only_inheriting_tracks_follow_the_file_offset() {
    let channels = [Some((1, true)), None, Some((2, false)), Some((3, true))];
    assert_eq!(file_offset_followers(&channels), vec![1, 3]);
    assert_eq!(file_offset_followers(&[]), Vec::<u64>::new());
}

#[test]
fn offset_inheritance_adopts_the_file_offset_when_enabled() {
    assert_eq!(offset_inheritance(true, Some(9), true), Some(Some(9)));
    assert_eq!(offset_inheritance(true, Some(9), false), Some(None));
    assert_eq!(offset_inheritance(true, None, false), Some(None));
    assert_eq!(offset_inheritance(true, None, true), None);
    assert_eq!(offset_inheritance(false, Some(9), false), None);
}
