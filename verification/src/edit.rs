//! The edit-distance metric family: Levenshtein, Damerau-Levenshtein,
//! Optimal String Alignment, Hamming and the longest-common-subsequence
//! complement, each defined over character sequences, together with the
//! identity and length-bound laws the pruning index relies on.

use vstd::prelude::*;
use crate::types::Threshold;
use crate::strutil::chars_eq;

verus! {

/// Distance reported by the Hamming metric for inputs of unequal length:
/// such a pair auto-fails against any realistic threshold instead of
/// raising an error.
pub const HAMMING_SENTINEL: u64 = u64::MAX;

pub open spec fn min2(a: nat, b: nat) -> nat {
    if a <= b {
        a
    } else {
        b
    }
}

pub open spec fn max2(a: nat, b: nat) -> nat {
    if a >= b {
        a
    } else {
        b
    }
}

/// Levenshtein distance: the minimum number of single-character insertions,
/// deletions and substitutions turning `a` into `b`.
pub open spec fn lev(a: Seq<char>, b: Seq<char>) -> nat
    decreases a.len(), b.len(),
{
    if a.len() == 0 {
        b.len()
    } else if b.len() == 0 {
        a.len()
    } else {
        let sub: nat = if a.last() == b.last() {
            0
        } else {
            1
        };
        min2(
            min2(lev(a.drop_last(), b) + 1, lev(a, b.drop_last()) + 1),
            lev(a.drop_last(), b.drop_last()) + sub,
        )
    }
}

/// Optimal String Alignment distance: Levenshtein extended with a
/// transposition of the two trailing characters when they appear crossed,
/// each substring being edited at most once.
pub open spec fn osa(a: Seq<char>, b: Seq<char>) -> nat
    decreases a.len(), b.len(),
{
    if a.len() == 0 {
        b.len()
    } else if b.len() == 0 {
        a.len()
    } else {
        let sub: nat = if a.last() == b.last() {
            0
        } else {
            1
        };
        let base = min2(
            min2(osa(a.drop_last(), b) + 1, osa(a, b.drop_last()) + 1),
            osa(a.drop_last(), b.drop_last()) + sub,
        );
        if a.len() >= 2 && b.len() >= 2 && a.last() == b[b.len() - 2] && a[a.len() - 2]
            == b.last() {
            let trans: nat = if a.last() == b.last() {
                0
            } else {
                1
            };
            min2(base, osa(a.take(a.len() - 2), b.take(b.len() - 2)) + trans)
        } else {
            base
        }
    }
}

/// Mismatch count of two sequences compared position by position from the
/// end; for sequences of equal length this is the Hamming distance.
pub open spec fn ham(a: Seq<char>, b: Seq<char>) -> nat
    decreases a.len(),
{
    if a.len() == 0 || b.len() == 0 {
        0
    } else {
        ham(a.drop_last(), b.drop_last()) + if a.last() == b.last() {
            0nat
        } else {
            1nat
        }
    }
}

/// Length of the longest common subsequence of `a` and `b`.
pub open spec fn lcs_len(a: Seq<char>, b: Seq<char>) -> nat
    decreases a.len(), b.len(),
{
    if a.len() == 0 || b.len() == 0 {
        0
    } else if a.last() == b.last() {
        lcs_len(a.drop_last(), b.drop_last()) + 1
    } else {
        max2(lcs_len(a.drop_last(), b), lcs_len(a, b.drop_last()))
    }
}

/// The longest common subsequence never exceeds either input's length.
pub proof fn lemma_lcs_le_len(a: Seq<char>, b: Seq<char>)
    ensures
        lcs_len(a, b) <= a.len(),
        lcs_len(a, b) <= b.len(),
    decreases a.len(), b.len(),
{
    if a.len() == 0 || b.len() == 0 {
    } else if a.last() == b.last() {
        lemma_lcs_le_len(a.drop_last(), b.drop_last());
    } else {
        lemma_lcs_le_len(a.drop_last(), b);
        lemma_lcs_le_len(a, b.drop_last());
    }
}

/// The longest-common-subsequence complement distance: the number of
/// insertions and deletions turning `a` into `b`.
pub open spec fn lcs_dist(a: Seq<char>, b: Seq<char>) -> nat {
    ((a.len() - lcs_len(a, b)) + (b.len() - lcs_len(a, b))) as nat
}

/// A sequence has Levenshtein distance zero to itself.
pub proof fn lemma_lev_self(a: Seq<char>)
    ensures
        lev(a, a) == 0,
    decreases a.len(),
{
    if a.len() > 0 {
        lemma_lev_self(a.drop_last());
    }
}

/// A sequence has OSA distance zero to itself.
pub proof fn lemma_osa_self(a: Seq<char>)
    ensures
        osa(a, a) == 0,
    decreases a.len(),
{
    if a.len() > 0 {
        lemma_osa_self(a.drop_last());
    }
}

/// A sequence is its own longest common subsequence.
pub proof fn lemma_lcs_self(a: Seq<char>)
    ensures
        lcs_len(a, a) == a.len(),
    decreases a.len(),
{
    if a.len() > 0 {
        lemma_lcs_self(a.drop_last());
    }
}

/// Hamming distance of a sequence to itself is zero.
pub proof fn lemma_ham_self(a: Seq<char>)
    ensures
        ham(a, a) == 0,
    decreases a.len(),
{
    if a.len() > 0 {
        lemma_ham_self(a.drop_last());
    }
}

/// Levenshtein distance is at least the difference of the input lengths:
/// every edit operation changes the length by at most one.
pub proof fn lemma_lev_len_bound(a: Seq<char>, b: Seq<char>)
    ensures
        lev(a, b) + a.len() >= b.len(),
        lev(a, b) + b.len() >= a.len(),
    decreases a.len(), b.len(),
{
    if a.len() == 0 || b.len() == 0 {
    } else {
        lemma_lev_len_bound(a.drop_last(), b);
        lemma_lev_len_bound(a, b.drop_last());
        lemma_lev_len_bound(a.drop_last(), b.drop_last());
    }
}

/// OSA distance is at least the difference of the input lengths.
pub proof fn lemma_osa_len_bound(a: Seq<char>, b: Seq<char>)
    ensures
        osa(a, b) + a.len() >= b.len(),
        osa(a, b) + b.len() >= a.len(),
    decreases a.len(), b.len(),
{
    if a.len() == 0 || b.len() == 0 {
    } else {
        lemma_osa_len_bound(a.drop_last(), b);
        lemma_osa_len_bound(a, b.drop_last());
        lemma_osa_len_bound(a.drop_last(), b.drop_last());
        if a.len() >= 2 && b.len() >= 2 && a.last() == b[b.len() - 2] && a[a.len() - 2]
            == b.last() {
            lemma_osa_len_bound(a.take(a.len() - 2), b.take(b.len() - 2));
        }
    }
}

/// The LCS complement distance is at least the difference of the input
/// lengths.
pub proof fn lemma_lcs_dist_len_bound(a: Seq<char>, b: Seq<char>)
    ensures
        lcs_dist(a, b) + a.len() >= b.len(),
        lcs_dist(a, b) + b.len() >= a.len(),
{
    lemma_lcs_le_len(a, b);
}

/// OSA distance never exceeds the longer input's length: the diagonal of
/// the alignment substitutes every shared position and inserts or deletes
/// the rest.
pub proof fn lemma_osa_upper(a: Seq<char>, b: Seq<char>)
    ensures
        osa(a, b) <= max2(a.len(), b.len()),
    decreases a.len(), b.len(),
{
    if a.len() == 0 || b.len() == 0 {
    } else {
        lemma_osa_upper(a.drop_last(), b.drop_last());
    }
}

/// The entry of the OSA dynamic-programming matrix for the prefixes of
/// length `i` and `j`.
pub open spec fn osa_cell(a: Seq<char>, b: Seq<char>, i: int, j: int) -> nat {
    osa(a.take(i), b.take(j))
}

/// Optimal String Alignment distance, computed row by row over the
/// dynamic-programming matrix.
pub fn osa_distance(a: &Vec<char>, b: &Vec<char>) -> (r: usize)
    requires
        a@.len() < usize::MAX,
        b@.len() < usize::MAX,
    ensures
        r == osa(a@, b@),
{
    let l1 = a.len();
    let l2 = b.len();
    let mut mat: Vec<Vec<usize>> = Vec::new();

    let mut row0: Vec<usize> = Vec::new();
    let mut j: usize = 0;
    while j <= l2
        invariant
            0 <= j <= l2 + 1,
            l2 == b@.len() < usize::MAX,
            row0@.len() == j,
            forall|k: int| 0 <= k < j ==> row0@[k] == k,
        decreases l2 + 1 - j,
    {
        row0.push(j);
        j += 1;
    }
    proof {
        assert forall|k: int| 0 <= k <= l2 implies row0@[k] == osa_cell(a@, b@, 0, k) by {
            assert(a@.take(0) =~= Seq::<char>::empty());
            assert(b@.take(k).len() == k);
        }
    }
    mat.push(row0);

    let mut i1: usize = 0;
    while i1 < l1
        invariant
            0 <= i1 <= l1,
            l1 == a@.len() < usize::MAX,
            l2 == b@.len() < usize::MAX,
            mat@.len() == i1 + 1,
            forall|r: int| 0 <= r <= i1 ==> (#[trigger] mat@[r])@.len() == l2 + 1,
            forall|i: int, k: int|
                0 <= i <= i1 && 0 <= k <= l2 ==> (#[trigger] mat@[i]@[k]) == osa_cell(a@, b@, i, k),
        decreases l1 - i1,
    {
        let mut row: Vec<usize> = Vec::new();
        row.push(i1 + 1);
        proof {
            assert(b@.take(0) =~= Seq::<char>::empty());
            assert(a@.take(i1 + 1).len() == i1 + 1);
            assert(row@[0] == osa_cell(a@, b@, i1 + 1 as int, 0));
        }
        let mut i2: usize = 0;
        while i2 < l2
            invariant
                0 <= i1 < l1,
                0 <= i2 <= l2,
                l1 == a@.len() < usize::MAX,
                l2 == b@.len() < usize::MAX,
                mat@.len() == i1 + 1,
                forall|r: int| 0 <= r <= i1 ==> (#[trigger] mat@[r])@.len() == l2 + 1,
                forall|i: int, k: int|
                    0 <= i <= i1 && 0 <= k <= l2 ==> (#[trigger] mat@[i]@[k]) == osa_cell(
                        a@,
                        b@,
                        i,
                        k,
                    ),
                row@.len() == i2 + 1,
                forall|k: int|
                    0 <= k <= i2 ==> (#[trigger] row@[k]) == osa_cell(a@, b@, i1 + 1 as int, k),
            decreases l2 - i2,
        {
            let ghost ga = a@.take(i1 + 1 as int);
            let ghost gb = b@.take(i2 + 1 as int);
            proof {
                assert(ga.len() == i1 + 1);
                assert(gb.len() == i2 + 1);
                assert(ga.drop_last() =~= a@.take(i1 as int));
                assert(gb.drop_last() =~= b@.take(i2 as int));
                assert(ga.last() == a@[i1 as int]);
                assert(gb.last() == b@[i2 as int]);
                lemma_osa_upper(a@.take(i1 as int), b@.take(i2 + 1 as int));
                lemma_osa_upper(a@.take(i1 + 1 as int), b@.take(i2 as int));
                lemma_osa_upper(a@.take(i1 as int), b@.take(i2 as int));
            }
            let sub: usize = if a[i1] == b[i2] {
                0
            } else {
                1
            };
            let d1 = mat[i1][i2 + 1] + 1;
            let d2 = row[i2] + 1;
            let d3 = mat[i1][i2] + sub;
            let mut v = if d1 <= d2 {
                d1
            } else {
                d2
            };
            if d3 < v {
                v = d3;
            }
            proof {
                assert(v == min2(min2(d1 as nat, d2 as nat), d3 as nat));
            }
            if i1 >= 1 && i2 >= 1 && a[i1] == b[i2 - 1] && a[i1 - 1] == b[i2] {
                let trans: usize = if a[i1] == b[i2] {
                    0
                } else {
                    1
                };
                proof {
                    lemma_osa_upper(a@.take(i1 - 1 as int), b@.take(i2 - 1 as int));
                }
                let t = mat[i1 - 1][i2 - 1] + trans;
                if t < v {
                    v = t;
                }
                proof {
                    assert(ga.take(ga.len() - 2) =~= a@.take(i1 - 1 as int));
                    assert(gb.take(gb.len() - 2) =~= b@.take(i2 - 1 as int));
                    assert(ga[ga.len() - 2] == a@[i1 - 1 as int]);
                    assert(gb[gb.len() - 2] == b@[i2 - 1 as int]);
                    assert(v == osa(ga, gb));
                }
            } else {
                proof {
                    if ga.len() >= 2 && gb.len() >= 2 {
                        assert(ga[ga.len() - 2] == a@[i1 - 1 as int]);
                        assert(gb[gb.len() - 2] == b@[i2 - 1 as int]);
                    }
                    assert(v == osa(ga, gb));
                }
            }
            row.push(v);
            i2 += 1;
        }
        mat.push(row);
        i1 += 1;
    }
    let r = mat[l1][l2];
    proof {
        assert(a@.take(l1 as int) =~= a@);
        assert(b@.take(l2 as int) =~= b@);
    }
    r
}

/// Hamming distance: position-wise mismatch count for inputs of equal
/// length; inputs of unequal length auto-fail with the sentinel distance.
pub fn hamming_distance(a: &Vec<char>, b: &Vec<char>) -> (r: u64)
    ensures
        a@.len() == b@.len() ==> r == ham(a@, b@),
        a@.len() != b@.len() ==> r == HAMMING_SENTINEL,
{
    let n = a.len();
    if n != b.len() {
        return HAMMING_SENTINEL;
    }
    let mut cnt: u64 = 0;
    let mut i: usize = 0;
    while i < n
        invariant
            0 <= i <= n,
            n == a@.len() == b@.len(),
            cnt <= i,
            cnt == ham(a@.take(i as int), b@.take(i as int)),
        decreases n - i,
    {
        if a[i] != b[i] {
            cnt += 1;
        }
        i += 1;
        proof {
            assert(a@.take(i as int).drop_last() =~= a@.take(i - 1));
            assert(b@.take(i as int).drop_last() =~= b@.take(i - 1));
            assert(a@.take(i as int).last() == a@[i - 1]);
            assert(b@.take(i as int).last() == b@[i - 1]);
        }
    }
    proof {
        assert(a@.take(n as int) =~= a@);
        assert(b@.take(n as int) =~= b@);
    }
    cnt
}

/// The entry of the LCS dynamic-programming matrix for the prefixes of
/// length `i` and `j`.
pub open spec fn lcs_cell(a: Seq<char>, b: Seq<char>, i: int, j: int) -> nat {
    lcs_len(a.take(i), b.take(j))
}

/// Longest-common-subsequence length, computed row by row.
fn lcs_length(a: &Vec<char>, b: &Vec<char>) -> (r: usize)
    requires
        a@.len() < usize::MAX,
        b@.len() < usize::MAX,
    ensures
        r == lcs_len(a@, b@),
        r <= a@.len(),
        r <= b@.len(),
{
    let l1 = a.len();
    let l2 = b.len();
    let mut mat: Vec<Vec<usize>> = Vec::new();

    let mut row0: Vec<usize> = Vec::new();
    let mut j: usize = 0;
    while j <= l2
        invariant
            0 <= j <= l2 + 1,
            l2 == b@.len() < usize::MAX,
            row0@.len() == j,
            forall|k: int| 0 <= k < j ==> row0@[k] == 0,
        decreases l2 + 1 - j,
    {
        row0.push(0);
        j += 1;
    }
    proof {
        assert forall|k: int| 0 <= k <= l2 implies row0@[k] == lcs_cell(a@, b@, 0, k) by {
            assert(a@.take(0) =~= Seq::<char>::empty());
        }
    }
    mat.push(row0);

    let mut i1: usize = 0;
    while i1 < l1
        invariant
            0 <= i1 <= l1,
            l1 == a@.len(),
            l2 == b@.len(),
            mat@.len() == i1 + 1,
            forall|r: int| 0 <= r <= i1 ==> (#[trigger] mat@[r])@.len() == l2 + 1,
            forall|i: int, k: int|
                0 <= i <= i1 && 0 <= k <= l2 ==> (#[trigger] mat@[i]@[k]) == lcs_cell(a@, b@, i, k),
        decreases l1 - i1,
    {
        let mut row: Vec<usize> = Vec::new();
        row.push(0);
        proof {
            assert(b@.take(0) =~= Seq::<char>::empty());
            assert(row@[0] == lcs_cell(a@, b@, i1 + 1 as int, 0));
        }
        let mut i2: usize = 0;
        while i2 < l2
            invariant
                0 <= i1 < l1,
                0 <= i2 <= l2,
                l1 == a@.len(),
                l2 == b@.len(),
                mat@.len() == i1 + 1,
                forall|r: int| 0 <= r <= i1 ==> (#[trigger] mat@[r])@.len() == l2 + 1,
                forall|i: int, k: int|
                    0 <= i <= i1 && 0 <= k <= l2 ==> (#[trigger] mat@[i]@[k]) == lcs_cell(
                        a@,
                        b@,
                        i,
                        k,
                    ),
                row@.len() == i2 + 1,
                forall|k: int|
                    0 <= k <= i2 ==> (#[trigger] row@[k]) == lcs_cell(a@, b@, i1 + 1 as int, k),
            decreases l2 - i2,
        {
            let ghost ga = a@.take(i1 + 1 as int);
            let ghost gb = b@.take(i2 + 1 as int);
            proof {
                assert(ga.drop_last() =~= a@.take(i1 as int));
                assert(gb.drop_last() =~= b@.take(i2 as int));
                assert(ga.last() == a@[i1 as int]);
                assert(gb.last() == b@[i2 as int]);
                lemma_lcs_le_len(a@.take(i1 as int), b@.take(i2 as int));
            }
            let v = if a[i1] == b[i2] {
                mat[i1][i2] + 1
            } else {
                let up = mat[i1][i2 + 1];
                let left = row[i2];
                if up >= left {
                    up
                } else {
                    left
                }
            };
            proof {
                assert(v == lcs_len(ga, gb));
            }
            row.push(v);
            i2 += 1;
        }
        mat.push(row);
        i1 += 1;
    }
    let r = mat[l1][l2];
    proof {
        assert(a@.take(l1 as int) =~= a@);
        assert(b@.take(l2 as int) =~= b@);
        lemma_lcs_le_len(a@, b@);
    }
    r
}

/// The LCS complement distance of two character vectors.
pub fn lcs_distance(a: &Vec<char>, b: &Vec<char>) -> (r: usize)
    requires
        a@.len() + b@.len() < usize::MAX,
    ensures
        r == lcs_dist(a@, b@),
{
    let l = lcs_length(a, b);
    (a.len() - l) + (b.len() - l)
}

/// What `rapidfuzz`'s Damerau-Levenshtein distance returns: the minimum
/// number of insertions, deletions, substitutions and transpositions of
/// adjacent characters turning one sequence into the other.
pub uninterp spec fn damerau_of(a: Seq<char>, b: Seq<char>) -> nat;

/// Relies on rapidfuzz::distance::levenshtein::distance: the minimum number
/// of insertions, deletions and substitutions turning `a` into `b`, which is
/// the recurrence `lev` states.
#[verifier::external_body]
fn rf_levenshtein(a: &Vec<char>, b: &Vec<char>) -> (r: usize)
    ensures
        r == lev(a@, b@),
{
    rapidfuzz::distance::levenshtein::distance(a.iter().copied(), b.iter().copied())
}

/// Relies on rapidfuzz::distance::damerau_levenshtein::distance: the minimum
/// number of insertions, deletions, substitutions and adjacent
/// transpositions.  Since every one of those operations changes a sequence's
/// length by at most one, the distance is at least the difference of the two
/// lengths.
#[verifier::external_body]
fn rf_damerau_levenshtein(a: &Vec<char>, b: &Vec<char>) -> (r: usize)
    ensures
        r == damerau_of(a@, b@),
        r + a@.len() >= b@.len(),
        r + b@.len() >= a@.len(),
{
    rapidfuzz::distance::damerau_levenshtein::distance(a.iter().copied(), b.iter().copied())
}

/// The metrics of the edit-distance family.
#[derive(PartialEq, Eq, Structural, Clone, Copy, Debug)]
pub enum EditMetric {
    Osa,
    Levenshtein,
    DamerauLevenshtein,
    Hamming,
    Lcs,
}

/// The distance a metric of the edit family assigns to a pair of character
/// sequences.
pub open spec fn edit_dist_spec(m: EditMetric, a: Seq<char>, b: Seq<char>) -> nat {
    match m {
        EditMetric::Osa => osa(a, b),
        EditMetric::Levenshtein => lev(a, b),
        EditMetric::DamerauLevenshtein => damerau_of(a, b),
        EditMetric::Hamming => if a.len() == b.len() {
            ham(a, b)
        } else {
            HAMMING_SENTINEL as nat
        },
        EditMetric::Lcs => lcs_dist(a, b),
    }
}

/// The distance the engine reports for a pair of key values: identical
/// inputs short-circuit to zero without invoking the underlying algorithm.
pub open spec fn spec_edit_key_dist(m: EditMetric, a: Seq<char>, b: Seq<char>) -> nat {
    if a == b {
        0
    } else {
        edit_dist_spec(m, a, b)
    }
}

/// Computes the distance of one metric of the edit family, with the
/// short-circuit for identical inputs.
pub fn edit_key_dist(m: EditMetric, a: &Vec<char>, b: &Vec<char>) -> (r: u64)
    requires
        a@.len() + b@.len() < usize::MAX,
    ensures
        r == spec_edit_key_dist(m, a@, b@),
        a@ == b@ ==> r == 0,
{
    if chars_eq(a, b) {
        return 0;
    }
    match m {
        EditMetric::Osa => osa_distance(a, b) as u64,
        EditMetric::Levenshtein => rf_levenshtein(a, b) as u64,
        EditMetric::DamerauLevenshtein => rf_damerau_levenshtein(a, b) as u64,
        EditMetric::Hamming => hamming_distance(a, b),
        EditMetric::Lcs => lcs_distance(a, b) as u64,
    }
}

/// The two lengths lie within the threshold of one another; the length
/// window the pruning index scans.
pub open spec fn len_window(la: int, lb: int, t: Threshold) -> bool {
    &&& (la - lb) * t.den <= t.num
    &&& (lb - la) * t.den <= t.num
}

/// When a pair of key values matches under a metric of the edit family:
/// its reported distance is within the threshold.  For the
/// Damerau-Levenshtein metric, whose value is known only through the outside
/// implementation, the documented length bound is part of the relation.
pub open spec fn edit_included(m: EditMetric, a: Seq<char>, b: Seq<char>, t: Threshold) -> bool {
    &&& t.admits(spec_edit_key_dist(m, a, b))
    &&& (m is DamerauLevenshtein ==> len_window(a.len() as int, b.len() as int, t))
}

/// Identity: every metric of the edit family whose value the library
/// computes assigns distance zero to a pair of equal sequences.
pub proof fn lemma_edit_identity(m: EditMetric, a: Seq<char>)
    requires
        !(m is DamerauLevenshtein),
    ensures
        edit_dist_spec(m, a, a) == 0,
{
    match m {
        EditMetric::Osa => lemma_osa_self(a),
        EditMetric::Levenshtein => lemma_lev_self(a),
        EditMetric::DamerauLevenshtein => (),
        EditMetric::Hamming => lemma_ham_self(a),
        EditMetric::Lcs => lemma_lcs_self(a),
    }
}

/// Length-pruning soundness: any pair within the threshold under a computed
/// metric of the edit family has lengths within the threshold of each other,
/// so scanning only the length window never discards a true match.
pub proof fn lemma_edit_len_pruning(m: EditMetric, a: Seq<char>, b: Seq<char>, t: Threshold)
    requires
        t.valid(),
        !(m is DamerauLevenshtein),
        a.len() <= u64::MAX,
        b.len() <= u64::MAX,
        t.admits(spec_edit_key_dist(m, a, b)),
    ensures
        len_window(a.len() as int, b.len() as int, t),
{
    if a == b {
        assert((a.len() - b.len()) * t.den == 0);
    } else {
        let d = edit_dist_spec(m, a, b);
        match m {
            EditMetric::Osa => lemma_osa_len_bound(a, b),
            EditMetric::Levenshtein => lemma_lev_len_bound(a, b),
            EditMetric::DamerauLevenshtein => (),
            EditMetric::Hamming => (),
            EditMetric::Lcs => lemma_lcs_dist_len_bound(a, b),
        }
        assert(a.len() - b.len() <= d && b.len() - a.len() <= d);
        assert((a.len() - b.len()) * t.den <= t.num && (b.len() - a.len()) * t.den <= t.num)
            by (nonlinear_arith)
            requires
                t.den >= 1 && d * t.den <= t.num && a.len() - b.len() <= d && b.len() - a.len()
                    <= d,
        ;
    }
}

/// Damerau-Levenshtein pairs within the threshold also lie in the length
/// window, by the documented length bound of the outside implementation.
pub proof fn lemma_len_window_from_bound(la: int, lb: int, d: nat, t: Threshold)
    requires
        t.valid(),
        t.admits(d),
        la - lb <= d,
        lb - la <= d,
    ensures
        len_window(la, lb, t),
{
    assert((la - lb) * t.den <= t.num && (lb - la) * t.den <= t.num) by (nonlinear_arith)
        requires
            t.den >= 1 && d * t.den <= t.num && la - lb <= d && lb - la <= d,
    ;
}

/// Threshold monotonicity for the edit family: a pair included under a
/// threshold is included under every threshold at least as large.
pub proof fn lemma_edit_threshold_monotonic(
    m: EditMetric,
    a: Seq<char>,
    b: Seq<char>,
    t1: Threshold,
    t2: Threshold,
)
    requires
        t1.valid(),
        t2.valid(),
        t1.le(t2),
        edit_included(m, a, b, t1),
    ensures
        edit_included(m, a, b, t2),
{
    crate::types::lemma_admits_monotonic(spec_edit_key_dist(m, a, b), t1, t2);
    if m is DamerauLevenshtein {
        assert((a.len() - b.len()) * t2.den <= t2.num && (b.len() - a.len()) * t2.den <= t2.num)
            by (nonlinear_arith)
            requires
                t1.den >= 1 && t2.den >= 1 && t1.num * t2.den <= t2.num * t1.den && (a.len()
                    - b.len()) * t1.den <= t1.num && (b.len() - a.len()) * t1.den <= t1.num,
        ;
    }
}

} // verus!
