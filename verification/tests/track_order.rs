use wavalyze::track_order::TrackOrder;

fn order(ids: &[u64]) -> TrackOrder {
    let mut o = TrackOrder::new();
    for &id in ids {
        let end = o.ids.len();
        o.insert_track(id, end);
    }
    o
}

#[test]
fn insert_clamps_to_the_end() {
    let mut o = order(&[1, 2, 3]);
    o.insert_track(4, 1);
    assert_eq!(o.ids, vec![1, 4, 2, 3]);
    o.insert_track(5, 99);
    assert_eq!(o.ids, vec![1, 4, 2, 3, 5]);
}

#[test]
fn remove_keeps_the_others_in_order() {
    let mut o = order(&[1, 2, 3]);
    o.remove_track(2);
    assert_eq!(o.ids, vec![1, 3]);
    o.remove_track(7);
    assert_eq!(o.ids, vec![1, 3]);
}

#[test]
fn remove_after_insert_restores_the_order() {
    let mut o = order(&[1, 2, 3]);
    o.insert_track(9, 2);
    o.remove_track(9);
    assert_eq!(o.ids, vec![1, 2, 3]);
}

#[test]
fn dragging_moves_one_track() {
    let mut o = order(&[1, 2, 3, 4]);
    o.move_track(1, 2);
    assert_eq!(o.ids, vec![2, 3, 1, 4]);
    o.move_track(4, 0);
    assert_eq!(o.ids, vec![4, 2, 3, 1]);
    assert_eq!(o.position(3), Some(2));
    assert_eq!(o.position(8), None);
}
