use fozziejoin::qgram::{
    cosine_within, gram_list, jaccard_within, Cosine, Jaccard, QGram,
};
use fozziejoin::types::Threshold;

fn chars(s: &str) -> Vec<char> {
    s.chars().collect()
}

fn grams_of(s: &str, q: usize) -> Vec<Vec<char>> {
    gram_list(&chars(s), q)
}

#[test]
fn gram_list_windows_in_order() {
    let g = grams_of("abcd", 2);
    assert_eq!(g.len(), 3);
    assert_eq!(g[0], vec!['a', 'b']);
    assert_eq!(g[1], vec!['b', 'c']);
    assert_eq!(g[2], vec!['c', 'd']);
}

#[test]
fn gram_list_short_value_has_no_grams() {
    assert_eq!(grams_of("a", 2).len(), 0);
    assert_eq!(grams_of("", 3).len(), 0);
}

#[test]
fn qgram_count_distance() {
    // "abc": {ab, bc}; "abd": {ab, bd}: mismatch bc + bd = 2
    let d = QGram.compute(&grams_of("abc", 2), &grams_of("abd", 2));
    assert_eq!(d, 2);
    // repeated grams count with multiplicity: "aaa": {aa x2}, "aa": {aa x1}
    let d2 = QGram.compute(&grams_of("aaa", 2), &grams_of("aa", 2));
    assert_eq!(d2, 1);
}

#[test]
fn jaccard_parts_and_threshold() {
    // union {ab, bc, bd} = 3, intersection {ab} = 1, distance 2/3
    let (i, u) = Jaccard.parts(&grams_of("abc", 2), &grams_of("abd", 2));
    assert_eq!((i, u), (1, 3));
    assert!(jaccard_within(i, u, &Threshold { num: 2, den: 3 }));
    assert!(!jaccard_within(i, u, &Threshold { num: 1, den: 2 }));
}

#[test]
fn jaccard_empty_gram_sets_score_the_sentinel() {
    // both sides shorter than the gram size: distance 1
    let (i, u) = Jaccard.parts(&grams_of("a", 2), &grams_of("b", 2));
    assert_eq!((i, u), (0, 0));
    assert!(jaccard_within(i, u, &Threshold { num: 1, den: 1 }));
    assert!(!jaccard_within(i, u, &Threshold { num: 99, den: 100 }));
}

#[test]
fn cosine_parts_and_threshold() {
    // "aa" vs "aa", q = 1: count vectors {a: 2}: dot 4, norms 4 and 4
    let (dot, n1, n2) = Cosine.parts(&grams_of("aa", 1), &grams_of("aa", 1));
    assert_eq!((dot, n1, n2), (4, 4, 4));
    // distance 0, admitted even at threshold 0
    assert!(cosine_within(dot, n1, n2, &Threshold { num: 0, den: 1 }));
    // orthogonal vectors: distance 1
    let (dot2, m1, m2) = Cosine.parts(&grams_of("a", 1), &grams_of("b", 1));
    assert_eq!(dot2, 0);
    assert!(!cosine_within(dot2, m1, m2, &Threshold { num: 1, den: 2 }));
    assert!(cosine_within(dot2, m1, m2, &Threshold { num: 1, den: 1 }));
}

#[test]
fn cosine_zero_norm_scores_the_sentinel() {
    let (dot, n1, n2) = Cosine.parts(&grams_of("", 1), &grams_of("ab", 1));
    assert_eq!((dot, n1), (0, 0));
    assert!(n2 > 0);
    assert!(!cosine_within(dot, n1, n2, &Threshold { num: 1, den: 2 }));
    assert!(cosine_within(dot, n1, n2, &Threshold { num: 1, den: 1 }));
}
