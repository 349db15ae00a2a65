use orbit_playground::path::{future_path, past_path};

#[test]
fn a_future_path_of_full_quality_joins_every_snapshot() {
    let path = future_path(2, 10, 4, 1);
    assert_eq!(path.segments, vec![(2, 3), (2, 4), (3, 5), (4, 6)]);
    assert!(!path.reaches_end);
}

#[test]
fn a_future_path_ends_segments_at_multiples_of_the_quality() {
    let path = future_path(3, 20, 10, 4);
    // steps 1, 5 and 9 reach the indices 4, 8 and 12
    assert_eq!(path.segments, vec![(3, 5), (4, 9), (8, 13)]);
    assert!(!path.reaches_end);
}

#[test]
fn a_future_path_stops_at_the_last_snapshot() {
    let path = future_path(5, 8, 100, 2);
    assert_eq!(path.segments, vec![(5, 7)]);
    assert!(path.reaches_end);
    let exact = future_path(5, 8, 2, 2);
    assert_eq!(exact.segments, vec![(5, 7)]);
    assert!(!exact.reaches_end);
    let one_more = future_path(5, 8, 3, 2);
    assert_eq!(one_more.segments, vec![(5, 7)]);
    assert!(one_more.reaches_end);
}

#[test]
fn a_future_path_from_the_last_snapshot_is_empty() {
    let path = future_path(7, 8, 5, 1);
    assert!(path.segments.is_empty());
    assert!(path.reaches_end);
    let none = future_path(7, 8, 0, 1);
    assert!(none.segments.is_empty());
    assert!(!none.reaches_end);
}

#[test]
fn a_past_path_of_full_quality_joins_every_snapshot() {
    let path = past_path(5, 3, 1);
    assert_eq!(path.segments, vec![(5, 4), (5, 3), (4, 2)]);
    assert!(!path.reaches_end);
}

#[test]
fn a_past_path_ends_segments_where_present_and_steps_sum_to_a_multiple() {
    let path = past_path(10, 9, 4);
    // steps 2 and 6, where 12 and 16 are multiples of 4
    assert_eq!(path.segments, vec![(10, 7), (8, 3)]);
    assert!(!path.reaches_end);
}

#[test]
fn a_past_path_stops_at_the_first_snapshot() {
    let path = past_path(2, 50, 1);
    assert_eq!(path.segments, vec![(2, 1), (2, 0)]);
    assert!(path.reaches_end);
    let exact = past_path(2, 2, 1);
    assert_eq!(exact.segments, vec![(2, 1), (2, 0)]);
    assert!(!exact.reaches_end);
    let at_start = past_path(0, 1, 1);
    assert!(at_start.segments.is_empty());
    assert!(at_start.reaches_end);
}

#[test]
fn a_path_at_the_far_end_of_the_index_range_does_not_overflow() {
    let path = past_path(usize::MAX, 3, usize::MAX);
    assert_eq!(path.segments, vec![(usize::MAX, usize::MAX - 1)]);
    assert!(!path.reaches_end);
}
