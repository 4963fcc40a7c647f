use photo_map::live::{stored_timestamp, LiveTrack, HISTORY, LOCAL_CLOCK_OFFSET_MS};

#[test]
fn loaded_track_is_oldest_first() {
    let t = LiveTrack::from_newest_first(vec![(30, "c"), (20, "b"), (10, "a")]);
    assert_eq!(t.all(), vec![&"a", &"b", &"c"]);
    assert_eq!(t.len(), 3);
}

#[test]
fn record_keeps_at_most_history() {
    let mut t = LiveTrack::new();
    for i in 0..(HISTORY as u64 + 5) {
        t.record(i, i);
    }
    assert_eq!(t.len(), HISTORY);
    let all = t.all();
    assert_eq!(*all[0], 5);
    assert_eq!(*all[HISTORY - 1], HISTORY as u64 + 4);
}

#[test]
fn record_appends_newest_last() {
    let mut t = LiveTrack::new();
    t.record(5, 'x');
    t.record(7, 'y');
    assert_eq!(t.all(), vec![&'x', &'y']);
}

#[test]
fn since_keeps_strictly_later_positions() {
    let t = LiveTrack::from_newest_first(vec![(30, 3), (20, 2), (10, 1)]);
    assert_eq!(t.since(20), vec![&3]);
    assert_eq!(t.since(0), vec![&1, &2, &3]);
    assert_eq!(t.since(30), Vec::<&i32>::new());
}

#[test]
fn stored_timestamp_takes_off_ten_hours() {
    assert_eq!(LOCAL_CLOCK_OFFSET_MS, 10 * 60 * 60 * 1000);
    assert_eq!(stored_timestamp(36_000_000), 0);
    assert_eq!(stored_timestamp(1_500_036_000_000), 1_500_000_000_000);
}

#[test]
fn loaded_track_keeps_newest_history() {
    let newest_first: Vec<(u64, u64)> = (0..(HISTORY as u64 + 3)).rev().map(|i| (i, i)).collect();
    let t = LiveTrack::from_newest_first(newest_first);
    assert_eq!(t.len(), HISTORY);
    let all = t.all();
    assert_eq!(*all[0], 3);
    assert_eq!(*all[HISTORY - 1], HISTORY as u64 + 2);
}

#[test]
fn records_after_loading_keep_newest_of_all() {
    let loaded: Vec<(u64, u64)> = (0..60u64).rev().map(|i| (i, i)).collect();
    let mut t = LiveTrack::from_newest_first(loaded);
    for i in 60..130u64 {
        t.record(i, i);
    }
    let all: Vec<u64> = t.all().into_iter().cloned().collect();
    assert_eq!(all, (30..130u64).collect::<Vec<_>>());
}
