use aetherquill::ring_detector::{covered_bin_count, largest_gap, mark_bin};

#[test]
fn gap_across_bin_zero_is_found_whole() {
    // Bins 3, 0 and 1 are empty: the run wraps around the circle.
    let bins = [false, false, true, false];
    let gap = largest_gap(&bins);
    assert_eq!((gap.start, gap.length), (3, 3));
}

#[test]
fn longest_run_wins_over_earlier_shorter_run() {
    let bins = [false, true, false, false, true, true];
    let gap = largest_gap(&bins);
    assert_eq!((gap.start, gap.length), (2, 2));
}

#[test]
fn ties_go_to_the_lowest_start() {
    let bins = [true, false, true, false, true, false];
    let gap = largest_gap(&bins);
    assert_eq!((gap.start, gap.length), (1, 1));
}

#[test]
fn fully_covered_ring_has_no_gap() {
    let bins = [true; 8];
    let gap = largest_gap(&bins);
    assert_eq!((gap.start, gap.length), (0, 0));
}

#[test]
fn empty_ring_is_one_whole_gap() {
    let bins = [false; 5];
    let gap = largest_gap(&bins);
    assert_eq!((gap.start, gap.length), (0, 5));
}

#[test]
fn gap_never_covers_a_marked_bin() {
    let mut bins = [false; 12];
    for raw in [0i64, 1, 2, 7, -1, 13] {
        mark_bin(&mut bins, raw);
    }
    // Marked: 0, 1, 2, 7, 11 (= -1), 1 (= 13).
    assert_eq!(covered_bin_count(&bins), 5);
    let gap = largest_gap(&bins);
    assert_eq!((gap.start, gap.length), (3, 4));
    for k in 0..gap.length {
        assert!(!bins[(gap.start + k) % bins.len()]);
    }
}

#[test]
fn negative_angles_wrap_around() {
    let mut bins = [false; 10];
    mark_bin(&mut bins, -10);
    mark_bin(&mut bins, -23);
    mark_bin(&mut bins, i64::MIN);
    assert!(bins[0]);
    assert!(bins[7]);
    // i64::MIN = -9223372036854775808 = 2 (mod 10)
    assert!(bins[2]);
    assert_eq!(covered_bin_count(&bins), 3);
}

use aetherquill::ring_detector::{activation_event, PreviousRing};

#[test]
fn activation_fires_on_the_transition_from_open_to_sealed() {
    let open = PreviousRing { found: true, complete: false, nearly_complete: true };
    assert!(activation_event(Some(open), true, false));
    // Still open: nothing to activate.
    assert!(!activation_event(Some(open), false, false));
    // A second ring on the page blocks activation.
    assert!(!activation_event(Some(open), true, true));
    // The open ring was too far from complete.
    assert!(!activation_event(Some(PreviousRing { nearly_complete: false, ..open }), true, false));
}

#[test]
fn no_activation_for_a_ring_sealed_on_first_detection() {
    assert!(!activation_event(None, true, false));
    let missing = PreviousRing { found: false, complete: false, nearly_complete: false };
    assert!(!activation_event(Some(missing), true, false));
    let sealed = PreviousRing { found: true, complete: true, nearly_complete: true };
    assert!(!activation_event(Some(sealed), true, false));
}

use aetherquill::ring_detector::distinct_candidates;

fn relation(n: usize, pairs: &[(usize, usize)]) -> Vec<Vec<bool>> {
    let mut same = vec![vec![false; n]; n];
    for &(a, b) in pairs {
        same[a][b] = true;
    }
    same
}

#[test]
fn duplicates_of_a_kept_ring_are_merged() {
    // 1 duplicates 0; 3 duplicates 2; 2 is distinct from 0.
    let same = relation(4, &[(0, 1), (2, 3)]);
    assert_eq!(distinct_candidates(&same), vec![0, 2]);
}

#[test]
fn only_kept_rings_absorb_later_candidates() {
    // 1 duplicates 0 and is dropped, so 2, a duplicate of 1 only, stays.
    let same = relation(3, &[(0, 1), (1, 2)]);
    assert_eq!(distinct_candidates(&same), vec![0, 2]);
    assert!(distinct_candidates(&[]).is_empty());
}
