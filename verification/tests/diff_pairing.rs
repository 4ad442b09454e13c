use wavalyze::detect_offset::OffsetDetectionMode;
use wavalyze::diff_pairing::{PendingDiffPairing, ReadConfig, toggle_offset_detection};

fn pairing(ch_ixs_a: Vec<usize>, ch_ixs_b: Vec<usize>) -> PendingDiffPairing {
    PendingDiffPairing::new(ReadConfig::new("a.wav"), ReadConfig::new("b.wav"), ch_ixs_a, ch_ixs_b)
}

#[test]
fn file_offsets_survive_pairing_setup() {
    let pairing = PendingDiffPairing::new(
        ReadConfig::new("a.wav").with_sample_ix_offset(-12),
        ReadConfig::new("b.wav").with_sample_ix_offset(34),
        vec![0],
        vec![0],
    );

    assert_eq!(pairing.file_a.sample_ix_offset, -12);
    assert_eq!(pairing.file_b.sample_ix_offset, 34);
}

#[test]
fn offset_detection_selects_replaces_and_toggles_off() {
    let mut pairing = pairing(vec![0], vec![0]);

    pairing.toggle_offset_detection_a(OffsetDetectionMode::FirstNonZero);
    assert_eq!(pairing.offset_detection_a, Some(OffsetDetectionMode::FirstNonZero));

    pairing.toggle_offset_detection_a(OffsetDetectionMode::LastLeadingZero);
    assert_eq!(pairing.offset_detection_a, Some(OffsetDetectionMode::LastLeadingZero));

    pairing.toggle_offset_detection_a(OffsetDetectionMode::LastLeadingZero);
    assert_eq!(pairing.offset_detection_a, None);
}

#[test]
fn offset_detection_keeps_manual_offsets_as_silence_fallback() {
    let mut pairing = PendingDiffPairing::new(
        ReadConfig::new("a.wav").with_sample_ix_offset(12),
        ReadConfig::new("b.wav").with_sample_ix_offset(-4),
        vec![0],
        vec![0],
    );

    pairing.toggle_offset_detection_a(OffsetDetectionMode::FirstNonZero);
    pairing.toggle_offset_detection_b(OffsetDetectionMode::LastLeadingZero);

    assert_eq!(pairing.file_a.sample_ix_offset, 12);
    assert_eq!(pairing.file_b.sample_ix_offset, -4);
    assert_eq!(pairing.offset_detection_b, Some(OffsetDetectionMode::LastLeadingZero));
}

#[test]
fn diagonal_is_checked_by_default() {
    let pairing = pairing(vec![0, 1], vec![0, 1, 2]);

    assert_eq!(pairing.selected_pairs(), vec![(0, 0), (1, 1)]);
}

#[test]
fn diagonal_uses_position_not_raw_channel_index() {
    let pairing = pairing(vec![2, 5], vec![1, 3]);

    assert_eq!(pairing.selected_pairs(), vec![(2, 1), (5, 3)]);
}

#[test]
fn selected_pairs_reflects_toggled_cells() {
    let mut pairing = pairing(vec![0, 1, 2], vec![0, 1, 2]);
    pairing.checked[1][1] = false;
    pairing.checked[0][2] = true;

    assert_eq!(pairing.selected_pairs(), vec![(0, 0), (0, 2), (2, 2)]);
}

#[test]
fn any_checked_reports_empty_selection() {
    let mut pairing = pairing(vec![0], vec![0]);
    assert!(pairing.any_checked());

    pairing.checked[0][0] = false;
    assert!(!pairing.any_checked());
}

#[test]
fn read_config_reads_every_channel_at_offset_zero() {
    let config = ReadConfig::new("x.wav");
    assert_eq!(config.filepath, "x.wav");
    assert_eq!(config.ch_ixs, None);
    assert_eq!(config.sample_ix_offset, 0);
}

#[test]
fn toggling_twice_switches_detection_off() {
    let on = toggle_offset_detection(None, OffsetDetectionMode::FirstNonZero);
    assert_eq!(on, Some(OffsetDetectionMode::FirstNonZero));
    assert_eq!(toggle_offset_detection(on, OffsetDetectionMode::FirstNonZero), None);
}

#[test]
fn default_pairing_checks_only_the_diagonal() {
    let m = PendingDiffPairing::default_pairing(2, 3);
    assert_eq!(m, vec![vec![true, false, false], vec![false, true, false]]);
}

#[test]
fn set_default_pairing_restores_the_diagonal_and_clear_unchecks_all() {
    let mut pairing = pairing(vec![0, 1], vec![0, 1]);
    pairing.checked[0][1] = true;
    pairing.checked[1][1] = false;
    pairing.set_default_pairing();
    assert_eq!(pairing.checked, vec![vec![true, false], vec![false, true]]);

    pairing.clear();
    assert!(!pairing.any_checked());
    assert_eq!(pairing.selected_pairs(), Vec::<(usize, usize)>::new());
}
