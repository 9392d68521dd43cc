use fozziejoin::join::{difference_join, NumKeyPair};
use fozziejoin::types::{Dist, Error};

fn col(vals: &[Option<i64>]) -> Vec<Option<i64>> {
    vals.to_vec()
}

fn key(left: &[Option<i64>], right: &[Option<i64>]) -> NumKeyPair {
    NumKeyPair { left: col(left), right: col(right) }
}

fn pairs(res: &fozziejoin::survivor::MatchResult) -> Vec<(usize, usize)> {
    res.left_rows.iter().zip(res.right_rows.iter()).map(|(&a, &b)| (a, b)).collect()
}

#[test]
fn tolerance_scenario_in_hundredths() {
    // 1.0 and 1.05 in hundredth ticks at tolerance 0.1: distance 0.05
    let keys = vec![key(&[Some(100), Some(500)], &[Some(105), Some(1000)])];
    let res = difference_join(&keys, 10, None).unwrap();
    assert_eq!(pairs(&res), vec![(1, 1)]);
    assert_eq!(res.dists[0], vec![Dist::Exact(5)]);
}

#[test]
fn boundary_distance_is_included() {
    // comparisons use <=: a difference equal to the tolerance matches
    let keys = vec![key(&[Some(19)], &[Some(29), Some(30)])];
    let res = difference_join(&keys, 10, None).unwrap();
    assert_eq!(pairs(&res), vec![(1, 1)]);
    assert_eq!(res.dists[0], vec![Dist::Exact(10)]);
}

#[test]
fn negative_values_match_across_zero() {
    let keys = vec![key(&[Some(-5)], &[Some(4), Some(6), Some(-16)])];
    let res = difference_join(&keys, 10, None).unwrap();
    assert_eq!(pairs(&res), vec![(1, 1)]);
    assert_eq!(res.dists[0], vec![Dist::Exact(9)]);
}

#[test]
fn zero_tolerance_keeps_exact_matches_only() {
    let keys = vec![key(&[Some(7), Some(8)], &[Some(7), Some(9)])];
    let res = difference_join(&keys, 0, None).unwrap();
    assert_eq!(pairs(&res), vec![(1, 1)]);
    assert_eq!(res.dists[0], vec![Dist::Exact(0)]);
}

#[test]
fn missing_values_never_match() {
    let keys = vec![key(&[None, Some(5)], &[Some(5), None])];
    let res = difference_join(&keys, 10, None).unwrap();
    assert_eq!(pairs(&res), vec![(2, 1)]);
}

#[test]
fn multi_key_tolerance_intersection() {
    // the pair must lie within the tolerance under every key pair
    let keys = vec![
        key(&[Some(10), Some(20)], &[Some(11), Some(21)]),
        key(&[Some(100), Some(200)], &[Some(105), Some(900)]),
    ];
    let res = difference_join(&keys, 10, None).unwrap();
    assert_eq!(pairs(&res), vec![(1, 1)]);
    assert_eq!(res.dists.len(), 2);
    assert_eq!(res.dists[0], vec![Dist::Exact(1)]);
    assert_eq!(res.dists[1], vec![Dist::Exact(5)]);
}

#[test]
fn identity_is_always_included() {
    let keys = vec![key(&[Some(42)], &[Some(42)])];
    let res = difference_join(&keys, 0, None).unwrap();
    assert_eq!(pairs(&res), vec![(1, 1)]);
    assert_eq!(res.dists[0], vec![Dist::Exact(0)]);
}

#[test]
fn no_keys_is_an_error_numeric() {
    let keys: Vec<NumKeyPair> = vec![];
    assert_eq!(difference_join(&keys, 1, None).err().unwrap(), Error::NoKeys);
}

#[test]
fn extreme_values_do_not_wrap() {
    let keys = vec![key(&[Some(i64::MIN)], &[Some(i64::MAX), Some(i64::MIN + 3)])];
    let res = difference_join(&keys, 10, None).unwrap();
    assert_eq!(pairs(&res), vec![(1, 2)]);
    assert_eq!(res.dists[0], vec![Dist::Exact(3)]);
}
