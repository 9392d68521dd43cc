use fozziejoin::interval::{fuzzy_indices_interval_int, OverlapType};
use fozziejoin::types::Error;

#[test]
fn any_overlap_scenario() {
    // (1,5) overlaps (4,10); (6,8) starts past its end with gap tolerance 0
    let left = vec![(1, 5)];
    let right = vec![(4, 10), (6, 8)];
    let ps = fuzzy_indices_interval_int(&left, &right, OverlapType::Any, 0, 0, None).unwrap();
    assert_eq!(ps, vec![(1, 1)]);
}

#[test]
fn gap_tolerance_reaches_nearby_intervals() {
    let left = vec![(1, 5)];
    let right = vec![(7, 9)];
    // gap between (1,5) and (7,9) is 2
    let near = fuzzy_indices_interval_int(&left, &right, OverlapType::Any, 1, 0, None).unwrap();
    assert_eq!(near, vec![]);
    let far = fuzzy_indices_interval_int(&left, &right, OverlapType::Any, 2, 0, None).unwrap();
    assert_eq!(far, vec![(1, 1)]);
}

#[test]
fn minimum_overlap_is_required() {
    let left = vec![(1, 5)];
    let right = vec![(4, 10)];
    // overlap length is min(5,10) - max(1,4) = 1
    let ok = fuzzy_indices_interval_int(&left, &right, OverlapType::Any, 0, 1, None).unwrap();
    assert_eq!(ok, vec![(1, 1)]);
    let no = fuzzy_indices_interval_int(&left, &right, OverlapType::Any, 0, 2, None).unwrap();
    assert_eq!(no, vec![]);
}

#[test]
fn within_mode_requires_containment() {
    let left = vec![(4, 6), (3, 12)];
    let right = vec![(2, 10)];
    let ps = fuzzy_indices_interval_int(&left, &right, OverlapType::Within, 0, 0, None).unwrap();
    assert_eq!(ps, vec![(1, 1)]);
}

#[test]
fn start_and_end_alignment_modes() {
    let left = vec![(5, 9)];
    let right = vec![(5, 20), (2, 9)];
    let starts =
        fuzzy_indices_interval_int(&left, &right, OverlapType::Start, 0, 0, None).unwrap();
    assert_eq!(starts, vec![(1, 1)]);
    let ends = fuzzy_indices_interval_int(&left, &right, OverlapType::End, 0, 0, None).unwrap();
    assert_eq!(ends, vec![(1, 2)]);
}

#[test]
fn invalid_interval_is_fatal() {
    let left = vec![(1, 5), (9, 2)];
    let right = vec![(4, 10)];
    let r = fuzzy_indices_interval_int(&left, &right, OverlapType::Any, 0, 0, None);
    assert_eq!(r.err().unwrap(), Error::InvalidInterval { row: 2, left_side: true });
    let r2 = fuzzy_indices_interval_int(&right, &left, OverlapType::Any, 0, 0, None);
    assert_eq!(r2.err().unwrap(), Error::InvalidInterval { row: 2, left_side: false });
}

#[test]
fn unsorted_right_side_is_handled() {
    // the matcher sorts the right side itself; row numbers follow the input
    let left = vec![(10, 12), (1, 2)];
    let right = vec![(11, 30), (0, 1), (5, 6)];
    let ps = fuzzy_indices_interval_int(&left, &right, OverlapType::Any, 0, 0, None).unwrap();
    assert_eq!(ps, vec![(1, 1), (2, 2)]);
}

#[test]
fn touching_intervals_overlap_with_gap_zero() {
    let left = vec![(1, 5)];
    let right = vec![(5, 9)];
    let ps = fuzzy_indices_interval_int(&left, &right, OverlapType::Any, 0, 0, None).unwrap();
    assert_eq!(ps, vec![(1, 1)]);
}
