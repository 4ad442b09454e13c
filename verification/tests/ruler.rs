use wavalyze::ruler::{TickType, ceil_to_multiple, floor_to_multiple, ix_ticks};

#[test]
fn test_ceil_to_multiple() {
    assert_eq!(ceil_to_multiple(-120, 50), -100);
    assert_eq!(ceil_to_multiple(-100, 50), -100);
    assert_eq!(ceil_to_multiple(-50, 50), -50);
    assert_eq!(ceil_to_multiple(0, 50), 0);
    assert_eq!(ceil_to_multiple(50, 50), 50);
    assert_eq!(ceil_to_multiple(99, 50), 100);
    assert_eq!(ceil_to_multiple(100, 50), 100);
}

#[test]
fn test_floor_to_multiple() {
    assert_eq!(floor_to_multiple(-120, 50), -150);
    assert_eq!(floor_to_multiple(-100, 50), -100);
    assert_eq!(floor_to_multiple(-50, 50), -50);
    assert_eq!(floor_to_multiple(0, 50), 0);
    assert_eq!(floor_to_multiple(50, 50), 50);
    assert_eq!(floor_to_multiple(99, 50), 50);
    assert_eq!(floor_to_multiple(100, 50), 100);
}

#[test]
fn test_ticks() {
    // Samples -120..100 on a 1000 pixel ruler with a tick every 100 pixels: labels every 100
    // samples, mid ticks every 50, small ticks every 10.
    let ticks = ix_ticks(-120, 100, 100);
    assert_eq!(ticks.len(), 23);
    assert_eq!(ticks[0], (-120, TickType::Small));
    assert_eq!(ticks[22], (100, TickType::Labeled));
    for (ix, tick_type) in &ticks {
        assert_eq!(ix % 10, 0);
        let expected = if ix % 100 == 0 {
            TickType::Labeled
        } else if ix % 50 == 0 {
            TickType::Mid
        } else {
            TickType::Small
        };
        assert_eq!(*tick_type, expected);
    }
    assert!(ticks.windows(2).all(|w| w[1].0 == w[0].0 + 10));
}

#[test]
fn ticks_round_the_range_inwards_to_the_small_step() {
    let ticks = ix_ticks(-7, 23, 100);
    assert_eq!(
        ticks,
        vec![(0, TickType::Labeled), (10, TickType::Small), (20, TickType::Small)]
    );
}

#[test]
fn label_step_below_ten_ticks_every_sample() {
    let ticks = ix_ticks(0, 3, 2);
    assert_eq!(
        ticks,
        vec![(0, TickType::Labeled), (1, TickType::Mid), (2, TickType::Labeled), (3, TickType::Mid)]
    );
}

#[test]
fn empty_range_has_no_ticks() {
    assert!(ix_ticks(5, 4, 1).is_empty());
    assert!(ix_ticks(1, 9, 100).is_empty());
}

#[test]
fn negative_step_follows_the_euclidean_remainder() {
    assert_eq!(ceil_to_multiple(7, -5), 0);
    assert_eq!(floor_to_multiple(7, -5), 5);
}
