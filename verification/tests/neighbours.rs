use photo_map::neighbours::{NeighbourScan, State};

/// Drives a scan the way the clustering does, with `out[i]` telling whether
/// point `i` is out of reach of the centre.
fn drive(centre: usize, out: &[bool]) -> Vec<usize> {
    let mut scan = NeighbourScan::new(centre, out.len());
    let mut found = Vec::new();
    loop {
        match scan.next_candidate() {
            None => break,
            Some(i) => {
                if let Some(j) = scan.report(out[i]) {
                    found.push(j);
                }
            }
        }
    }
    found
}

#[test]
fn transition_walks_prefix_suffix_end() {
    let mut s = State::Prefix;
    s.transition();
    assert_eq!(s, State::Suffix);
    s.transition();
    assert_eq!(s, State::End);
    s.transition();
    assert_eq!(s, State::End);
}

#[test]
fn scan_yields_backward_then_forward_runs() {
    // points 0..8, centre 4; 1 and 7 are out of reach
    let out = [false, true, false, false, false, false, false, true];
    assert_eq!(drive(4, &out), vec![3, 2, 4, 5, 6]);
}

#[test]
fn scan_stops_each_direction_at_first_break() {
    // 2 is out of reach but 0 is not: the backward walk never gets to 0
    let out = [false, false, true, false, false, true, false];
    assert_eq!(drive(3, &out), vec![3, 4]);
}

#[test]
fn scan_of_lonely_centre_is_just_the_centre() {
    let out = [true, false, true];
    assert_eq!(drive(1, &out), vec![1]);
}

#[test]
fn scan_centre_out_of_reach_yields_backward_run_only() {
    let out = [false, false, true, false];
    assert_eq!(drive(2, &out), vec![1, 0]);
}

#[test]
fn scan_first_point_has_no_backward_run() {
    let out = [false, false, false];
    assert_eq!(drive(0, &out), vec![0, 1, 2]);
}

#[test]
fn scan_last_point_walks_back_to_start() {
    let out = [false, false, false];
    assert_eq!(drive(2, &out), vec![1, 0, 2]);
}

#[test]
fn scan_is_fused_after_end() {
    let mut scan = NeighbourScan::new(0, 1);
    assert_eq!(scan.next_candidate(), Some(0));
    assert_eq!(scan.report(true), None);
    assert_eq!(scan.state(), State::End);
    assert_eq!(scan.next_candidate(), None);
    assert_eq!(scan.next_candidate(), None);
    assert_eq!(scan.report(false), None);
}

#[test]
fn scan_counts_per_direction() {
    let mut scan = NeighbourScan::new(2, 4);
    assert_eq!(scan.centre(), 2);
    assert_eq!(scan.next_candidate(), Some(1));
    assert_eq!(scan.report(false), Some(1));
    assert_eq!(scan.count(), 1);
    assert_eq!(scan.next_candidate(), Some(0));
    assert_eq!(scan.report(false), Some(0));
    assert_eq!(scan.count(), 2);
    // the backward walk is exhausted: the count starts again forwards
    assert_eq!(scan.next_candidate(), Some(2));
    assert_eq!(scan.state(), State::Suffix);
    assert_eq!(scan.count(), 0);
    assert_eq!(scan.report(false), Some(2));
    assert_eq!(scan.count(), 1);
    assert_eq!(scan.next_candidate(), Some(3));
    assert_eq!(scan.report(true), None);
    assert_eq!(scan.count(), 0);
    assert_eq!(scan.state(), State::End);
}

#[test]
fn report_without_candidate_changes_nothing() {
    let mut scan = NeighbourScan::new(1, 3);
    assert_eq!(scan.report(true), None);
    assert_eq!(scan.state(), State::Prefix);
    assert_eq!(scan.next_candidate(), Some(0));
}

#[test]
fn scan_with_monotone_reach_finds_every_point_within_reach() {
    // out of reach only grows walking away from the centre 3
    let out = [true, true, false, false, false, true, true];
    let mut found = drive(3, &out);
    found.sort();
    assert_eq!(found, vec![2, 3, 4]);
}

#[test]
fn centre_within_reach_is_its_own_neighbour() {
    let out = [true, false, true];
    assert!(drive(1, &out).contains(&1));
}
