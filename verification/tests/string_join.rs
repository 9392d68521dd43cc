use fozziejoin::edit::EditMetric;
use fozziejoin::join::{string_join, StringKeyPair};
use fozziejoin::matcher::StrMetric;
use fozziejoin::qgram::TokenMetric;
use fozziejoin::types::{Dist, Error, JoinType, Threshold};

fn col(vals: &[Option<&str>]) -> Vec<Option<String>> {
    vals.iter().map(|v| v.map(|s| s.to_string())).collect()
}

fn key(left: &[Option<&str>], right: &[Option<&str>]) -> StringKeyPair {
    StringKeyPair { left: col(left), right: col(right) }
}

fn pairs(res: &fozziejoin::survivor::MatchResult) -> Vec<(usize, usize)> {
    res.left_rows.iter().zip(res.right_rows.iter()).map(|(&a, &b)| (a, b)).collect()
}

const LEV: StrMetric = StrMetric::Edit(EditMetric::Levenshtein);

#[test]
fn levenshtein_scenario() {
    // cat/bat and dog/dot match at distance one; no other pair does
    let keys = vec![key(&[Some("cat"), Some("dog")], &[Some("bat"), Some("dot")])];
    let res = string_join(&keys, LEV, Threshold { num: 1, den: 1 }, JoinType::Inner, None)
        .unwrap();
    assert_eq!(pairs(&res), vec![(1, 1), (2, 2)]);
    assert_eq!(res.dists.len(), 1);
    assert_eq!(res.dists[0], vec![Dist::Exact(1), Dist::Exact(1)]);
}

#[test]
fn jaccard_identical_values_score_zero() {
    let keys = vec![key(&[Some("abcd")], &[Some("abcd")])];
    let res = string_join(
        &keys,
        StrMetric::Token(TokenMetric::Jaccard, 2),
        Threshold { num: 0, den: 1 },
        JoinType::Inner,
        None,
    )
    .unwrap();
    assert_eq!(pairs(&res), vec![(1, 1)]);
    assert_eq!(res.dists[0], vec![Dist::Exact(0)]);
}

#[test]
fn full_mode_enumerates_every_pair_with_unknown_labels() {
    // a missing value is compared explicitly and labeled, not omitted
    let keys = vec![key(&[Some("cat"), None], &[Some("bat")])];
    let res = string_join(&keys, LEV, Threshold { num: 1, den: 1 }, JoinType::Full, None)
        .unwrap();
    assert_eq!(pairs(&res), vec![(1, 1), (2, 1)]);
    assert_eq!(res.dists[0], vec![Dist::Exact(1), Dist::Unknown]);
}

#[test]
fn full_mode_keeps_pairs_beyond_the_threshold() {
    let keys = vec![key(&[Some("cat")], &[Some("elephant")])];
    let res = string_join(&keys, LEV, Threshold { num: 1, den: 1 }, JoinType::Full, None)
        .unwrap();
    assert_eq!(pairs(&res), vec![(1, 1)]);
    assert_eq!(res.dists[0], vec![Dist::Exact(6)]);
}

#[test]
fn missing_values_never_match_outside_full_mode() {
    let keys = vec![key(&[None, Some("cat")], &[None, Some("cat")])];
    let res = string_join(&keys, LEV, Threshold { num: 3, den: 1 }, JoinType::Inner, None)
        .unwrap();
    assert_eq!(pairs(&res), vec![(2, 2)]);
}

#[test]
fn multi_key_intersection() {
    // pair (1,1) passes both keys; (2,2) passes only the first
    let keys = vec![
        key(&[Some("cat"), Some("dog")], &[Some("bat"), Some("dot")]),
        key(&[Some("red"), Some("blue")], &[Some("rad"), Some("grey")]),
    ];
    let res = string_join(&keys, LEV, Threshold { num: 1, den: 1 }, JoinType::Inner, None)
        .unwrap();
    assert_eq!(pairs(&res), vec![(1, 1)]);
    // one distance slot per key pair, in key order
    assert_eq!(res.dists.len(), 2);
    assert_eq!(res.dists[0], vec![Dist::Exact(1)]);
    assert_eq!(res.dists[1], vec![Dist::Exact(1)]);
}

#[test]
fn duplicates_expand_via_cross_product_sorted() {
    let keys = vec![key(
        &[Some("aa"), Some("aa")],
        &[Some("aa"), Some("aa")],
    )];
    let res = string_join(&keys, LEV, Threshold { num: 0, den: 1 }, JoinType::Inner, None)
        .unwrap();
    assert_eq!(pairs(&res), vec![(1, 1), (1, 2), (2, 1), (2, 2)]);
}

#[test]
fn threshold_monotonicity_on_concrete_data() {
    let keys = vec![key(
        &[Some("cat"), Some("dome")],
        &[Some("bat"), Some("dot"), Some("crate")],
    )];
    let narrow = string_join(&keys, LEV, Threshold { num: 1, den: 1 }, JoinType::Inner, None)
        .unwrap();
    let wide = string_join(&keys, LEV, Threshold { num: 2, den: 1 }, JoinType::Inner, None)
        .unwrap();
    let np = pairs(&narrow);
    let wp = pairs(&wide);
    for p in &np {
        assert!(wp.contains(p));
    }
    assert!(wp.len() > np.len());
}

#[test]
fn fractional_thresholds_admit_distances_up_to_the_ratio() {
    // 3/2 admits distance 1 but not 2
    let keys = vec![key(&[Some("cat")], &[Some("bat"), Some("bit")])];
    let res = string_join(&keys, LEV, Threshold { num: 3, den: 2 }, JoinType::Inner, None)
        .unwrap();
    assert_eq!(pairs(&res), vec![(1, 1)]);
}

#[test]
fn length_pruning_keeps_matches_at_the_window_edge() {
    // |len("ab") - len("abcdef")| = 4 = the threshold: must not be pruned
    let keys = vec![key(&[Some("ab")], &[Some("abcdef"), Some("abcdefg")])];
    let res = string_join(&keys, LEV, Threshold { num: 4, den: 1 }, JoinType::Inner, None)
        .unwrap();
    assert_eq!(pairs(&res), vec![(1, 1)]);
    assert_eq!(res.dists[0], vec![Dist::Exact(4)]);
}

#[test]
fn no_keys_is_an_error() {
    let keys: Vec<StringKeyPair> = vec![];
    let r = string_join(&keys, LEV, Threshold { num: 1, den: 1 }, JoinType::Inner, None);
    assert_eq!(r.err().unwrap(), Error::NoKeys);
}

#[test]
fn mismatched_column_lengths_are_an_error() {
    let keys = vec![
        key(&[Some("a")], &[Some("b")]),
        key(&[Some("a"), Some("c")], &[Some("b")]),
    ];
    let r = string_join(&keys, LEV, Threshold { num: 1, den: 1 }, JoinType::Inner, None);
    assert_eq!(r.err().unwrap(), Error::ColumnLengthMismatch { key: 1 });
}

#[test]
fn hamming_join_rejects_unequal_lengths() {
    let keys = vec![key(&[Some("abc")], &[Some("abcd"), Some("abd")])];
    let res = string_join(
        &keys,
        StrMetric::Edit(EditMetric::Hamming),
        Threshold { num: 1, den: 1 },
        JoinType::Inner,
        None,
    )
    .unwrap();
    assert_eq!(pairs(&res), vec![(1, 2)]);
    assert_eq!(res.dists[0], vec![Dist::Exact(1)]);
}

#[test]
fn worker_pool_size_does_not_change_the_result() {
    let keys = vec![key(
        &[Some("cat"), Some("dog"), Some("bird")],
        &[Some("bat"), Some("dot"), Some("bard")],
    )];
    let a = string_join(&keys, LEV, Threshold { num: 1, den: 1 }, JoinType::Inner, Some(2))
        .unwrap();
    let b = string_join(&keys, LEV, Threshold { num: 1, den: 1 }, JoinType::Inner, None)
        .unwrap();
    assert_eq!(pairs(&a), pairs(&b));
    assert_eq!(a.dists, b.dists);
}
