use photo_map::summary::{drawn_on_track, in_summary, CountTally, DEFAULT_MIN_POINTS};

#[test]
fn summary_takes_clusters_with_enough_points() {
    assert_eq!(DEFAULT_MIN_POINTS, 5);
    assert!(in_summary(5, 5));
    assert!(!in_summary(4, 5));
    assert!(in_summary(0, 0));
    assert!(!in_summary(-1, 0));
}

#[test]
fn track_draws_clusters_of_more_than_five() {
    assert!(!drawn_on_track(5));
    assert!(drawn_on_track(6));
}

#[test]
fn tally_keeps_total_and_max() {
    let mut t = CountTally::new();
    assert!(t.record(3));
    assert!(!t.record(2));
    assert!(!t.record(3));
    assert!(t.record(7));
    assert_eq!(t.total(), 15);
    assert_eq!(t.max(), 7);
}
