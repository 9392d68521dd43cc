use fozziejoin::edit::{
    edit_key_dist, hamming_distance, lcs_distance, osa_distance, EditMetric, HAMMING_SENTINEL,
};

fn chars(s: &str) -> Vec<char> {
    s.chars().collect()
}

#[test]
fn osa_textbook_pair() {
    assert_eq!(osa_distance(&chars("kitten"), &chars("sitting")), 3);
}

#[test]
fn osa_counts_a_transposition_once() {
    assert_eq!(osa_distance(&chars("ab"), &chars("ba")), 1);
    assert_eq!(osa_distance(&chars("abcd"), &chars("abdc")), 1);
}

#[test]
fn osa_restricted_transposition() {
    // OSA edits each substring at most once, unlike Damerau-Levenshtein
    assert_eq!(osa_distance(&chars("ca"), &chars("abc")), 3);
}

#[test]
fn osa_empty_sides() {
    assert_eq!(osa_distance(&chars(""), &chars("abc")), 3);
    assert_eq!(osa_distance(&chars("abc"), &chars("")), 3);
    assert_eq!(osa_distance(&chars(""), &chars("")), 0);
}

#[test]
fn levenshtein_through_outside_crate() {
    // would fail if the wrapper handed an argument length back unchanged
    assert_eq!(
        edit_key_dist(EditMetric::Levenshtein, &chars("kitten"), &chars("sitting")),
        3
    );
    assert_eq!(
        edit_key_dist(EditMetric::Levenshtein, &chars("flaw"), &chars("lawn")),
        2
    );
}

#[test]
fn damerau_levenshtein_through_outside_crate() {
    // unrestricted transpositions: "ca" -> "ac" -> "abc"
    assert_eq!(
        edit_key_dist(EditMetric::DamerauLevenshtein, &chars("ca"), &chars("abc")),
        2
    );
    assert_eq!(
        edit_key_dist(EditMetric::DamerauLevenshtein, &chars("ab"), &chars("ba")),
        1
    );
}

#[test]
fn hamming_counts_mismatches() {
    assert_eq!(hamming_distance(&chars("karolin"), &chars("kathrin")), 3);
    assert_eq!(hamming_distance(&chars("abc"), &chars("abc")), 0);
}

#[test]
fn hamming_unequal_lengths_auto_fail() {
    assert_eq!(hamming_distance(&chars("ab"), &chars("abc")), HAMMING_SENTINEL);
}

#[test]
fn lcs_complement_distance() {
    // lcs("abc", "axc") = "ac": 3 + 3 - 2*2 = 2
    assert_eq!(lcs_distance(&chars("abc"), &chars("axc")), 2);
    assert_eq!(lcs_distance(&chars("abc"), &chars("abc")), 0);
    assert_eq!(lcs_distance(&chars("abc"), &chars("xyz")), 6);
}

#[test]
fn identity_short_circuits_every_metric() {
    for m in [
        EditMetric::Osa,
        EditMetric::Levenshtein,
        EditMetric::DamerauLevenshtein,
        EditMetric::Hamming,
        EditMetric::Lcs,
    ] {
        assert_eq!(edit_key_dist(m, &chars("same"), &chars("same")), 0);
    }
}
