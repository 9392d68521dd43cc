//! The parallel candidate scanner for string metrics: one work unit per
//! unique left value, scanning the pruned right-side groups and expanding
//! matches to row pairs.  Work units read only the immutable key indexes and
//! are merged after all complete.

use vstd::prelude::*;
use rayon::iter::{IntoParallelRefIterator, ParallelIterator};
use crate::types::{cand_in, cands_unique, Candidate, Dist, Threshold};
use crate::strutil::{chars_eq, opt_view};
use crate::edit::{
    edit_included, edit_key_dist, lemma_edit_len_pruning, len_window, spec_edit_key_dist,
    EditMetric,
};
use crate::qgram::{
    cos_dot, cos_norm, cosine_within, cosine_within_parts, deep, grams, jaccard_inter,
    jaccard_union, jaccard_within, jaccard_within_parts, lemma_inter_le_keys, qgram_mismatch,
    token_dist, token_included, Cosine, Jaccard, QGram, TokenMetric, TOKEN_LEN_LIMIT,
};
use crate::group::{
    build_groups, group_value_wf, groups_grams_wf, groups_wf, lemma_rows_of_contains,
    lemma_rows_of_no_dup, rows_of, Group,
};

verus! {

/// A string metric: one of the edit-distance family, or one of the
/// token-set family with its gram size.
#[derive(PartialEq, Eq, Structural, Clone, Copy, Debug)]
pub enum StrMetric {
    Edit(EditMetric),
    Token(TokenMetric, usize),
}

/// When two present key values match under a string metric.
pub open spec fn str_included(sm: StrMetric, a: Seq<char>, b: Seq<char>, t: Threshold) -> bool {
    match sm {
        StrMetric::Edit(m) => edit_included(m, a, b, t),
        StrMetric::Token(tm, q) => token_included(tm, a, b, q as nat, t),
    }
}

/// The distance a string metric reports for two present key values.
pub open spec fn str_dist(sm: StrMetric, a: Seq<char>, b: Seq<char>) -> Dist {
    match sm {
        StrMetric::Edit(m) => Dist::Exact(spec_edit_key_dist(m, a, b) as u64),
        StrMetric::Token(tm, q) => token_dist(tm, a, b, q as nat),
    }
}

/// When a pair of key values is included in the candidate list: in full
/// mode every pair is; otherwise both values must be present and match.
pub open spec fn pair_included(
    sm: StrMetric,
    t: Threshold,
    full: bool,
    a: Option<Seq<char>>,
    b: Option<Seq<char>>,
) -> bool {
    full || (a is Some && b is Some && str_included(sm, a->0, b->0, t))
}

/// The distance label of a pair of key values: comparisons against a
/// missing value are `Unknown`.
pub open spec fn pair_dist(sm: StrMetric, a: Option<Seq<char>>, b: Option<Seq<char>>) -> Dist {
    match (a, b) {
        (Some(x), Some(y)) => str_dist(sm, x, y),
        _ => Dist::Unknown,
    }
}

/// Identity: any key value matches itself under every valid threshold, at
/// distance zero, whatever the metric.
pub proof fn lemma_identity(sm: StrMetric, a: Seq<char>, t: Threshold)
    requires
        t.valid(),
    ensures
        str_included(sm, a, a, t),
        str_dist(sm, a, a) == Dist::Exact(0),
{
    match sm {
        StrMetric::Edit(m) => {
            assert(spec_edit_key_dist(m, a, a) == 0);
            assert(0 * t.den == 0);
            assert((a.len() - a.len()) * t.den == 0);
        },
        StrMetric::Token(..) => {},
    }
}

/// Threshold monotonicity: a pair of key values included under one
/// threshold is included under every threshold at least as large, so the
/// match set can only grow with the threshold.
pub proof fn lemma_str_threshold_monotonic(
    sm: StrMetric,
    a: Seq<char>,
    b: Seq<char>,
    t1: Threshold,
    t2: Threshold,
)
    requires
        t1.valid(),
        t2.valid(),
        t1.le(t2),
        str_included(sm, a, b, t1),
    ensures
        str_included(sm, a, b, t2),
{
    match sm {
        StrMetric::Edit(m) => {
            crate::edit::lemma_edit_threshold_monotonic(m, a, b, t1, t2);
        },
        StrMetric::Token(tm, q) => {
            crate::qgram::lemma_token_threshold_monotonic(tm, a, b, q as nat, t1, t2);
        },
    }
}

/// Threshold monotonicity lifted to pairs of possibly missing values.
pub proof fn lemma_pair_threshold_monotonic(
    sm: StrMetric,
    t1: Threshold,
    t2: Threshold,
    full: bool,
    a: Option<Seq<char>>,
    b: Option<Seq<char>>,
)
    requires
        t1.valid(),
        t2.valid(),
        t1.le(t2),
        pair_included(sm, t1, full, a, b),
    ensures
        pair_included(sm, t2, full, a, b),
{
    if !full {
        lemma_str_threshold_monotonic(sm, a->0, b->0, t1, t2);
    }
}

/// Machine limit on one key value's length under a metric: the edit family
/// fills a dynamic-programming matrix, the token family compares exact gram
/// counts.
pub open spec fn val_len_ok(sm: StrMetric, n: nat) -> bool {
    match sm {
        StrMetric::Edit(_) => 2 * n < usize::MAX,
        StrMetric::Token(..) => n <= TOKEN_LEN_LIMIT,
    }
}

/// Machine limit on every present value of a key column.
pub open spec fn col_ok(sm: StrMetric, col: Seq<Option<String>>) -> bool {
    forall|i: int|
        0 <= i < col.len() ==> match #[trigger] col[i] {
            Some(s) => val_len_ok(sm, s@.len()),
            None => true,
        }
}

/// The threshold and metric parameters a scan needs: a positive
/// denominator, a positive gram size, and (for the exact cosine test)
/// threshold components within the token limit.
pub open spec fn params_ok(sm: StrMetric, t: Threshold) -> bool {
    &&& t.valid()
    &&& match sm {
        StrMetric::Token(tm, q) => q >= 1 && (tm is Cosine ==> t.num <= TOKEN_LEN_LIMIT && t.den
            <= TOKEN_LEN_LIMIT),
        StrMetric::Edit(_) => true,
    }
}

/// The gram size a metric needs precomputed, if any.
pub fn metric_gram_q(sm: StrMetric) -> (r: Option<usize>)
    ensures
        r == match sm {
            StrMetric::Token(_, q) => Some(q),
            StrMetric::Edit(_) => None::<usize>,
        },
{
    match sm {
        StrMetric::Token(_, q) => Some(q),
        StrMetric::Edit(_) => None,
    }
}

/// Exact test of the length window `|la - lb| <= num/den`.
fn len_window_exec(la: usize, lb: usize, t: &Threshold) -> (r: bool)
    requires
        t.valid(),
    ensures
        r == len_window(la as int, lb as int, *t),
{
    let d: u64 = if la >= lb {
        (la - lb) as u64
    } else {
        (lb - la) as u64
    };
    let r = t.admits_int(d);
    proof {
        if la >= lb {
            assert(((lb - la) as int) * (t.den as int) <= 0) by (nonlinear_arith)
                requires
                    lb <= la && t.den >= 0,
            ;
        } else {
            assert(((la - lb) as int) * (t.den as int) <= 0) by (nonlinear_arith)
                requires
                    la <= lb && t.den >= 0,
            ;
        }
    }
    r
}

/// Compares one pair of present key values under a string metric: whether
/// the pair is included (always, in full mode) and, when it is, its
/// distance.  The length window prunes edit-family comparisons first.
fn str_pair(
    sm: StrMetric,
    t: &Threshold,
    full: bool,
    gc: &Vec<char>,
    gg: &Vec<Vec<char>>,
    hc: &Vec<char>,
    hg: &Vec<Vec<char>>,
) -> (r: (bool, Dist))
    requires
        params_ok(sm, *t),
        val_len_ok(sm, gc@.len()),
        val_len_ok(sm, hc@.len()),
        sm matches StrMetric::Token(_, q) ==> deep(gg@) == grams(gc@, q as nat) && deep(hg@)
            == grams(hc@, q as nat),
    ensures
        r.0 == (full || str_included(sm, gc@, hc@, *t)),
        r.0 ==> r.1 == str_dist(sm, gc@, hc@),
{
    match sm {
        StrMetric::Edit(m) => {
            if !full {
                let w = len_window_exec(gc.len(), hc.len(), t);
                if !w {
                    proof {
                        if !(m is DamerauLevenshtein) {
                            if t.admits(spec_edit_key_dist(m, gc@, hc@)) {
                                lemma_edit_len_pruning(m, gc@, hc@, *t);
                            }
                        }
                        assert(!edit_included(m, gc@, hc@, *t));
                    }
                    return (false, Dist::Unknown);
                }
            }
            let d = edit_key_dist(m, gc, hc);
            let ok = full || t.admits_int(d);
            (ok, Dist::Exact(d))
        },
        StrMetric::Token(tm, q) => {
            if chars_eq(gc, hc) {
                return (true, Dist::Exact(0));
            }
            proof {
                assert(gg@.len() == deep(gg@).len());
                assert(hg@.len() == deep(hg@).len());
            }
            match tm {
                TokenMetric::Qgram => {
                    let d = QGram.compute(gg, hg);
                    let ok = full || t.admits_int(d);
                    (ok, Dist::Exact(d))
                },
                TokenMetric::Jaccard => {
                    let (inter, uni) = Jaccard.parts(gg, hg);
                    let ok = full || jaccard_within(inter, uni, t);
                    let d = if uni == 0 {
                        Dist::Ratio { num: 1, den: 1 }
                    } else {
                        Dist::Ratio { num: uni - inter, den: uni }
                    };
                    (ok, d)
                },
                TokenMetric::Cosine => {
                    let (dot, n1, n2) = Cosine.parts(gg, hg);
                    let ok = full || cosine_within(dot, n1, n2, t);
                    (ok, Dist::Cosine { dot, norm1: n1, norm2: n2 })
                },
            }
        },
    }
}

/// Appends the cross product of two row groups, each pair labeled with the
/// same distance.
fn emit_cross(out: &mut Vec<Candidate>, lrows: &Vec<usize>, rrows: &Vec<usize>, d: Dist)
    requires
        forall|k1: int, k2: int| 0 <= k1 < k2 < lrows@.len() ==> lrows@[k1] != lrows@[k2],
        forall|k1: int, k2: int| 0 <= k1 < k2 < rrows@.len() ==> rrows@[k1] != rrows@[k2],
    ensures
        // every old candidate is kept, every new one pairs a left row with a
        // right row and carries `d`
        final(out)@.len() >= old(out)@.len(),
        forall|k: int| 0 <= k < old(out)@.len() ==> final(out)@[k] == old(out)@[k],
        forall|k: int|
            old(out)@.len() <= k < final(out)@.len() ==> lrows@.contains(
                (#[trigger] final(out)@[k]).left,
            ) && rrows@.contains(final(out)@[k].right) && final(out)@[k].dist == d,
        forall|i: usize, j: usize|
            #![trigger cand_in(final(out)@, i as int, j as int)]
            cand_in(final(out)@, i as int, j as int) <==> (cand_in(old(out)@, i as int, j as int)
                || (lrows@.contains(i) && rrows@.contains(j))),
        // new pairs are mutually distinct
        forall|k1: int, k2: int|
            old(out)@.len() <= k1 < k2 < final(out)@.len() ==> !(final(out)@[k1].left
                == final(out)@[k2].left && final(out)@[k1].right == final(out)@[k2].right),
{
    let n = lrows.len();
    let m = rrows.len();
    let ghost base = out@;
    let mut a: usize = 0;
    while a < n
        invariant
            0 <= a <= n,
            n == lrows@.len(),
            m == rrows@.len(),
            forall|k1: int, k2: int| 0 <= k1 < k2 < lrows@.len() ==> lrows@[k1] != lrows@[k2],
            forall|k1: int, k2: int| 0 <= k1 < k2 < rrows@.len() ==> rrows@[k1] != rrows@[k2],
            out@.len() >= base.len(),
            forall|k: int| 0 <= k < base.len() ==> out@[k] == base[k],
            forall|k: int|
                base.len() <= k < out@.len() ==> lrows@.contains((#[trigger] out@[k]).left)
                    && rrows@.contains(out@[k].right) && out@[k].dist == d,
            forall|k: int|
                base.len() <= k < out@.len() ==> exists|x: int|
                    0 <= x < a && (#[trigger] out@[k]).left == lrows@[x],
            forall|i: usize, j: usize|
                #![trigger cand_in(out@, i as int, j as int)]
                cand_in(out@, i as int, j as int) <==> (cand_in(base, i as int, j as int) || (
                exists|k: int| 0 <= k < a && lrows@[k] == i && rrows@.contains(j))),
            forall|k1: int, k2: int|
                base.len() <= k1 < k2 < out@.len() ==> !(out@[k1].left == out@[k2].left
                    && out@[k1].right == out@[k2].right),
        decreases n - a,
    {
        let li = lrows[a];
        let ghost base2 = out@;
        let mut b: usize = 0;
        while b < m
            invariant
                0 <= b <= m,
                0 <= a < n,
                n == lrows@.len(),
                m == rrows@.len(),
                li == lrows@[a as int],
                out@.len() == base2.len() + b,
                base2.len() >= base.len(),
                forall|k: int| 0 <= k < base2.len() ==> out@[k] == base2[k],
                forall|y: int|
                    0 <= y < b ==> out@[base2.len() + y] == (Candidate {
                        left: li,
                        right: rrows@[y],
                        dist: d,
                    }),
            decreases m - b,
        {
            let c = Candidate { left: li, right: rrows[b], dist: d };
            out.push(c);
            b += 1;
        }
        a += 1;
        proof {
            // the batch appended for this left row is exactly
            // `li` paired with every right row
            assert forall|k: int|
                base.len() <= k < out@.len() implies lrows@.contains((#[trigger] out@[k]).left)
                && rrows@.contains(out@[k].right) && out@[k].dist == d by {
                if k >= base2.len() {
                    let y = k - base2.len();
                    assert(out@[base2.len() + y] == (Candidate {
                        left: li,
                        right: rrows@[y],
                        dist: d,
                    }));
                    assert(lrows@[a - 1] == li);
                    assert(lrows@.contains(li));
                    assert(rrows@.contains(rrows@[y]));
                } else {
                    assert(out@[k] == base2[k]);
                }
            }
            assert forall|k: int|
                base.len() <= k < out@.len() implies exists|x: int|
                0 <= x < a && (#[trigger] out@[k]).left == lrows@[x] by {
                if k >= base2.len() {
                    let y = k - base2.len();
                    assert(out@[base2.len() + y] == (Candidate {
                        left: li,
                        right: rrows@[y],
                        dist: d,
                    }));
                    assert(out@[k].left == lrows@[a - 1]);
                } else {
                    assert(out@[k] == base2[k]);
                    assert(exists|x: int| 0 <= x < a - 1 && base2[k].left == lrows@[x]);
                    let x = choose|x: int| 0 <= x < a - 1 && base2[k].left == lrows@[x];
                    assert(out@[k].left == lrows@[x]);
                }
            }
            assert forall|i: usize, j: usize|
                #![trigger cand_in(out@, i as int, j as int)]
                cand_in(out@, i as int, j as int) <==> (cand_in(base, i as int, j as int) || (
            exists|k: int| 0 <= k < a && lrows@[k] == i && rrows@.contains(j))) by {
                if cand_in(out@, i as int, j as int) {
                    let k = choose|k: int|
                        0 <= k < out@.len() && out@[k].left == i && out@[k].right == j;
                    if k < base2.len() {
                        assert(base2[k] == out@[k]);
                        assert(cand_in(base2, i as int, j as int));
                    } else {
                        let y = k - base2.len();
                        assert(out@[base2.len() + y] == (Candidate {
                            left: li,
                            right: rrows@[y],
                            dist: d,
                        }));
                        assert(lrows@[a - 1] == i);
                        assert(rrows@.contains(j));
                    }
                }
                if exists|k: int| 0 <= k < a && lrows@[k] == i && rrows@.contains(j) {
                    let k = choose|k: int| 0 <= k < a && lrows@[k] == i && rrows@.contains(j);
                    if k == a - 1 {
                        let y = choose|y: int| 0 <= y < rrows@.len() && rrows@[y] == j;
                        assert(out@[base2.len() + y] == (Candidate {
                            left: li,
                            right: rrows@[y],
                            dist: d,
                        }));
                        assert(cand_in(out@, i as int, j as int));
                    } else {
                        assert(cand_in(base2, i as int, j as int));
                        let kk = choose|kk: int|
                            0 <= kk < base2.len() && base2[kk].left == i && base2[kk].right == j;
                        assert(out@[kk] == base2[kk]);
                        assert(cand_in(out@, i as int, j as int));
                    }
                }
            }
            assert forall|k1: int, k2: int|
                base.len() <= k1 < k2 < out@.len() implies !(out@[k1].left == out@[k2].left
                && out@[k1].right == out@[k2].right) by {
                if k2 >= base2.len() {
                    let y2 = k2 - base2.len();
                    assert(out@[base2.len() + y2] == (Candidate {
                        left: li,
                        right: rrows@[y2],
                        dist: d,
                    }));
                    if k1 >= base2.len() {
                        let y1 = k1 - base2.len();
                        assert(out@[base2.len() + y1] == (Candidate {
                            left: li,
                            right: rrows@[y1],
                            dist: d,
                        }));
                    } else {
                        assert(out@[k1] == base2[k1]);
                        assert(exists|x: int| 0 <= x < a - 1 && base2[k1].left == lrows@[x]);
                        let xx = choose|xx: int| 0 <= xx < a - 1 && base2[k1].left == lrows@[xx];
                        assert(lrows@[xx] != lrows@[a - 1]);
                    }
                } else {
                    assert(out@[k1] == base2[k1] && out@[k2] == base2[k2]);
                }
            }
        }
    }
}

/// A group fit for scanning under a metric: consistent cached characters
/// and grams, lengths within the machine limit, rows listed once.
pub open spec fn group_ok(sm: StrMetric, g: Group) -> bool {
    &&& group_value_wf(g)
    &&& val_len_ok(sm, g.chars@.len())
    &&& (sm matches StrMetric::Token(_, q) ==> deep(g.grams@) == grams(g.chars@, q as nat))
    &&& forall|k1: int, k2: int| 0 <= k1 < k2 < g.rows@.len() ==> g.rows@[k1] != g.rows@[k2]
}

/// No row is listed by two different groups.
pub open spec fn groups_disjoint(gs: Seq<Group>) -> bool {
    forall|h1: int, h2: int, k1: int, k2: int|
        0 <= h1 < h2 < gs.len() && 0 <= k1 < gs[h1].rows@.len() && 0 <= k2 < gs[h2].rows@.len()
            ==> (#[trigger] gs[h1].rows@[k1]) != (#[trigger] gs[h2].rows@[k2])
}

/// What one scan work unit needs of its inputs.
pub open spec fn scan_pre(sm: StrMetric, t: Threshold, g: Group, rights: Seq<Group>) -> bool {
    &&& params_ok(sm, t)
    &&& group_ok(sm, g)
    &&& forall|h: int| 0 <= h < rights.len() ==> group_ok(sm, #[trigger] rights[h])
    &&& groups_disjoint(rights)
}

/// Whether right row `j` belongs to some right group whose value pairs with
/// `a` under the metric and threshold.
pub open spec fn right_match(
    sm: StrMetric,
    t: Threshold,
    full: bool,
    a: Option<Seq<char>>,
    rights: Seq<Group>,
    j: usize,
) -> bool {
    exists|h: int|
        0 <= h < rights.len() && (#[trigger] rights[h]).rows@.contains(j) && pair_included(
            sm,
            t,
            full,
            a,
            opt_view(rights[h].value),
        )
}

/// What one scan work unit returns: exactly the row pairs of its left group
/// with every matching right row, each pair once, labeled with the pair's
/// distance.
pub open spec fn scan_post(
    sm: StrMetric,
    t: Threshold,
    full: bool,
    g: Group,
    rights: Seq<Group>,
    out: Seq<Candidate>,
) -> bool {
    &&& forall|i: usize, j: usize|
        #![trigger cand_in(out, i as int, j as int)]
        cand_in(out, i as int, j as int) <==> (g.rows@.contains(i) && right_match(
            sm,
            t,
            full,
            opt_view(g.value),
            rights,
            j,
        ))
    &&& cands_unique(out)
    &&& forall|k: int| 0 <= k < out.len() ==> g.rows@.contains((#[trigger] out[k]).left)
    &&& forall|k: int, h: int|
        0 <= k < out.len() && 0 <= h < rights.len() && (#[trigger] rights[h]).rows@.contains(
            (#[trigger] out[k]).right,
        ) ==> out[k].dist == pair_dist(sm, opt_view(g.value), opt_view(rights[h].value))
}

/// Scans all right groups for one left group: the work unit of the parallel
/// phase.  It reads only immutable index structures.
pub fn scan_group(
    sm: StrMetric,
    t: Threshold,
    full: bool,
    g: &Group,
    rights: &Vec<Group>,
) -> (r: Vec<Candidate>)
    requires
        scan_pre(sm, t, *g, rights@),
    ensures
        scan_post(sm, t, full, *g, rights@, r@),
{
    let mut out: Vec<Candidate> = Vec::new();
    let nh = rights.len();
    let mut hi: usize = 0;
    proof {
        assert(rights@.take(0) =~= Seq::<Group>::empty());
    }
    while hi < nh
        invariant
            0 <= hi <= nh,
            nh == rights@.len(),
            scan_pre(sm, t, *g, rights@),
            forall|i: usize, j: usize|
                #![trigger cand_in(out@, i as int, j as int)]
                cand_in(out@, i as int, j as int) <==> (g.rows@.contains(i) && right_match(
                    sm,
                    t,
                    full,
                    opt_view(g.value),
                    rights@.take(hi as int),
                    j,
                )),
            cands_unique(out@),
            forall|k: int| 0 <= k < out@.len() ==> g.rows@.contains((#[trigger] out@[k]).left),
            forall|k: int|
                0 <= k < out@.len() ==> exists|h: int|
                    0 <= h < hi && rights@[h].rows@.contains((#[trigger] out@[k]).right),
            forall|k: int, h: int|
                0 <= k < out@.len() && 0 <= h < rights@.len() && (#[trigger] rights@[h]).rows@.contains(
                    (#[trigger] out@[k]).right,
                ) ==> out@[k].dist == pair_dist(sm, opt_view(g.value), opt_view(rights@[h].value)),
        decreases nh - hi,
    {
        let rh = &rights[hi];
        let ghost pre = out@;
        let ghost included_spec = pair_included(sm, t, full, opt_view(g.value), opt_view(rh.value));
        let ghost dist_spec = pair_dist(sm, opt_view(g.value), opt_view(rh.value));
        let mut emitted = false;
        let mut d = Dist::Unknown;
        match (&g.value, &rh.value) {
            (Some(_), Some(_)) => {
                proof {
                    assert(opt_view(g.value) == Some(g.chars@));
                    assert(opt_view(rh.value) == Some(rh.chars@));
                }
                let (incl, dd) = str_pair(sm, &t, full, &g.chars, &g.grams, &rh.chars, &rh.grams);
                emitted = incl;
                d = dd;
                proof {
                    assert(emitted == included_spec);
                    assert(emitted ==> d == dist_spec);
                }
            },
            _ => {
                if full {
                    emitted = true;
                    d = Dist::Unknown;
                }
                proof {
                    assert(emitted == included_spec);
                    assert(emitted ==> d == dist_spec);
                }
            },
        }
        if emitted {
            emit_cross(&mut out, &g.rows, &rh.rows, d);
        }
        hi += 1;
        proof {
            let rts = rights@.take(hi as int);
            assert(rts[hi - 1] == rights@[hi - 1]);
            assert forall|h: int| 0 <= h < hi - 1 implies rts[h] == rights@.take(hi - 1)[h] by {}
            // the pair-set characterization after this right group
            assert forall|i: usize, j: usize|
                #![trigger cand_in(out@, i as int, j as int)]
                cand_in(out@, i as int, j as int) <==> (g.rows@.contains(i) && right_match(
                sm,
                t,
                full,
                opt_view(g.value),
                rts,
                j,
            )) by {
                if cand_in(out@, i as int, j as int) {
                    if cand_in(pre, i as int, j as int) {
                        assert(right_match(
                            sm,
                            t,
                            full,
                            opt_view(g.value),
                            rights@.take(hi - 1),
                            j,
                        ));
                        let h = choose|h: int|
                            0 <= h < hi - 1 && (#[trigger] rights@.take(hi - 1)[h]).rows@.contains(
                                j,
                            ) && pair_included(
                                sm,
                                t,
                                full,
                                opt_view(g.value),
                                opt_view(rights@.take(hi - 1)[h].value),
                            );
                        assert(rts[h] == rights@.take(hi - 1)[h]);
                        assert(right_match(sm, t, full, opt_view(g.value), rts, j));
                    } else {
                        assert(emitted);
                        assert(g.rows@.contains(i) && rh.rows@.contains(j));
                        assert(rts[hi - 1] == *rh);
                        assert(right_match(sm, t, full, opt_view(g.value), rts, j));
                    }
                }
                if g.rows@.contains(i) && right_match(sm, t, full, opt_view(g.value), rts, j) {
                    let h = choose|h: int|
                        0 <= h < rts.len() && (#[trigger] rts[h]).rows@.contains(j)
                            && pair_included(sm, t, full, opt_view(g.value), opt_view(
                            rts[h].value,
                        ));
                    if h < hi - 1 {
                        assert(rts[h] == rights@.take(hi - 1)[h]);
                        assert(right_match(
                            sm,
                            t,
                            full,
                            opt_view(g.value),
                            rights@.take(hi - 1),
                            j,
                        ));
                        assert(cand_in(pre, i as int, j as int));
                        let k = choose|k: int|
                            0 <= k < pre.len() && pre[k].left == i && pre[k].right == j;
                        assert(out@[k] == pre[k]);
                        assert(cand_in(out@, i as int, j as int));
                    } else {
                        assert(rts[h] == *rh);
                        assert(included_spec);
                        assert(emitted);
                        assert(cand_in(out@, i as int, j as int));
                    }
                }
            }
            // uniqueness across the old and new regions
            assert forall|k1: int, k2: int| 0 <= k1 < k2 < out@.len() implies !(out@[k1].left
                == out@[k2].left && out@[k1].right == out@[k2].right) by {
                if k1 < pre.len() && k2 >= pre.len() {
                    assert(exists|h: int|
                        0 <= h < hi - 1 && rights@[h].rows@.contains(
                            (#[trigger] out@[k1]).right,
                        ));
                    let h = choose|h: int|
                        0 <= h < hi - 1 && rights@[h].rows@.contains(out@[k1].right);
                    assert(rh.rows@.contains(out@[k2].right));
                    let ka = choose|ka: int|
                        0 <= ka < rights@[h].rows@.len() && rights@[h].rows@[ka] == out@[k1].right;
                    let kb = choose|kb: int|
                        0 <= kb < rh.rows@.len() && rh.rows@[kb] == out@[k2].right;
                    assert(rights@[h].rows@[ka] != rights@[(hi - 1) as int].rows@[kb]);
                }
            }
            // every candidate's right row lies in a processed group
            assert forall|k: int| 0 <= k < out@.len() implies exists|h: int|
                0 <= h < hi && rights@[h].rows@.contains((#[trigger] out@[k]).right) by {
                if k < pre.len() {
                    assert(out@[k] == pre[k]);
                    let h = choose|h: int|
                        0 <= h < hi - 1 && rights@[h].rows@.contains((#[trigger] pre[k]).right);
                    assert(rights@[h].rows@.contains(out@[k].right));
                } else {
                    assert(rh.rows@.contains(out@[k].right));
                    assert(rights@[(hi - 1) as int].rows@.contains(out@[k].right));
                }
            }
            // distances: only the emitting group's rows contain the right row
            assert forall|k: int, h: int|
                0 <= k < out@.len() && 0 <= h < rights@.len() && (#[trigger] rights@[h]).rows@.contains(
                    (#[trigger] out@[k]).right,
                ) implies out@[k].dist == pair_dist(sm, opt_view(g.value), opt_view(
                rights@[h].value,
            )) by {
                if k >= pre.len() {
                    assert(out@[k].dist == dist_spec);
                    assert(rh.rows@.contains(out@[k].right));
                    if h != hi - 1 {
                        let ka = choose|ka: int|
                            0 <= ka < rights@[h].rows@.len() && rights@[h].rows@[ka]
                                == out@[k].right;
                        let kb = choose|kb: int|
                            0 <= kb < rh.rows@.len() && rh.rows@[kb] == out@[k].right;
                        assert(rights@[(hi - 1) as int].rows@[kb] == out@[k].right);
                        assert(false);
                    }
                } else {
                    assert(out@[k] == pre[k]);
                }
            }
        }
    }
    proof {
        assert(rights@.take(nh as int) =~= rights@);
    }
    out
}

/// Relies on rayon: `par_iter().map(f).collect::<Vec<_>>()` applies `f` to
/// every element of the slice and collects the results in the elements'
/// order, and `ThreadPool::install` runs the same computation inside a pool
/// of the requested size, built for this one call.  A pool that cannot be
/// built falls back to rayon's default pool.
#[verifier::external_body]
fn par_scan(
    sm: StrMetric,
    t: Threshold,
    full: bool,
    lefts: &Vec<Group>,
    rights: &Vec<Group>,
    nthread: Option<usize>,
) -> (r: Vec<Vec<Candidate>>)
    requires
        forall|p: int| 0 <= p < lefts@.len() ==> scan_pre(sm, t, #[trigger] lefts@[p], rights@),
    ensures
        r@.len() == lefts@.len(),
        forall|p: int|
            0 <= p < lefts@.len() ==> scan_post(
                sm,
                t,
                full,
                #[trigger] lefts@[p],
                rights@,
                r@[p]@,
            ),
{
    let run = || lefts.par_iter().map(|g| scan_group(sm, t, full, g, rights)).collect();
    match nthread.and_then(|nt| rayon::ThreadPoolBuilder::new().num_threads(nt).build().ok()) {
        Some(pool) => pool.install(run),
        None => run(),
    }
}

/// Groups built from a column and scanned under a metric satisfy every scan
/// precondition.
proof fn lemma_groups_scan_pre(sm: StrMetric, col: Seq<Option<String>>, gs: Seq<Group>)
    requires
        groups_wf(gs, col),
        col_ok(sm, col),
        col.len() <= usize::MAX,
        sm matches StrMetric::Token(_, q) ==> groups_grams_wf(gs, q as nat),
    ensures
        forall|p: int| 0 <= p < gs.len() ==> group_ok(sm, #[trigger] gs[p]),
        groups_disjoint(gs),
{
    assert forall|p: int| 0 <= p < gs.len() implies group_ok(sm, #[trigger] gs[p]) by {
        let g = gs[p];
        lemma_rows_of_no_dup(col, opt_view(g.value));
        match g.value {
            Some(s) => {
                // the value occurs at some row, so the column bound covers it
                let i = g.rows@[0];
                assert(g.rows@.contains(i));
                lemma_rows_of_contains(col, opt_view(g.value), i);
                assert(opt_view(col[i - 1]) == Some(s@));
                assert(val_len_ok(sm, s@.len()));
            },
            None => {
                assert(g.chars@.len() == 0);
            },
        }
    }
    assert forall|h1: int, h2: int, k1: int, k2: int|
        0 <= h1 < h2 < gs.len() && 0 <= k1 < gs[h1].rows@.len() && 0 <= k2
            < gs[h2].rows@.len() implies (#[trigger] gs[h1].rows@[k1]) != (#[trigger] gs[h2].rows@[k2]) by {
        let i1 = gs[h1].rows@[k1];
        let i2 = gs[h2].rows@[k2];
        assert(gs[h1].rows@.contains(i1));
        assert(gs[h2].rows@.contains(i2));
        lemma_rows_of_contains(col, opt_view(gs[h1].value), i1);
        lemma_rows_of_contains(col, opt_view(gs[h2].value), i2);
        if i1 == i2 {
            assert(opt_view(gs[h1].value) == opt_view(col[i1 - 1]));
            assert(opt_view(gs[h2].value) == opt_view(col[i1 - 1]));
        }
    }
}

/// Candidate row pairs of one key pair under a string metric: every row
/// pair whose values match (every pair at all, in full mode), each exactly
/// once, labeled with its distance.  One work unit per unique left value
/// runs in parallel over the immutable right-side index.
pub fn fuzzy_indices_str(
    sm: StrMetric,
    left: &Vec<Option<String>>,
    right: &Vec<Option<String>>,
    t: Threshold,
    full: bool,
    nthread: Option<usize>,
) -> (r: Vec<Candidate>)
    requires
        params_ok(sm, t),
        col_ok(sm, left@),
        col_ok(sm, right@),
    ensures
        forall|i: usize, j: usize|
            #![trigger cand_in(r@, i as int, j as int)]
            cand_in(r@, i as int, j as int) <==> (1 <= i <= left@.len() && 1 <= j <= right@.len()
                && pair_included(sm, t, full, opt_view(left@[i - 1]), opt_view(right@[j - 1]))),
        cands_unique(r@),
        forall|k: int|
            0 <= k < r@.len() ==> 1 <= (#[trigger] r@[k]).left <= left@.len() && 1 <= r@[k].right
                <= right@.len() && r@[k].dist == pair_dist(
                sm,
                opt_view(left@[r@[k].left - 1]),
                opt_view(right@[r@[k].right - 1]),
            ),
{
    let nl_col = left.len();
    let nr_col = right.len();
    proof {
        assert(left@.len() == nl_col && right@.len() == nr_col);
    }
    let gq = metric_gram_q(sm);
    let lg = build_groups(left, gq);
    let rg = build_groups(right, gq);
    proof {
        lemma_groups_scan_pre(sm, left@, lg@);
        lemma_groups_scan_pre(sm, right@, rg@);
    }
    let lists = par_scan(sm, t, full, &lg, &rg, nthread);
    let np = lists.len();
    let mut out: Vec<Candidate> = Vec::new();
    let mut p: usize = 0;
    while p < np
        invariant
            0 <= p <= np,
            np == lists@.len() == lg@.len(),
            left@.len() <= usize::MAX,
            right@.len() <= usize::MAX,
            groups_wf(lg@, left@),
            groups_wf(rg@, right@),
            groups_disjoint(lg@),
            forall|p2: int|
                0 <= p2 < np ==> scan_post(sm, t, full, #[trigger] lg@[p2], rg@, lists@[p2]@),
            forall|i: usize, j: usize|
                #![trigger cand_in(out@, i as int, j as int)]
                cand_in(out@, i as int, j as int) <==> (exists|p2: int|
                    0 <= p2 < p && (#[trigger] lg@[p2]).rows@.contains(i) && right_match(
                        sm,
                        t,
                        full,
                        opt_view(lg@[p2].value),
                        rg@,
                        j,
                    )),
            cands_unique(out@),
            forall|k: int|
                0 <= k < out@.len() ==> exists|p2: int|
                    0 <= p2 < p && (#[trigger] lg@[p2]).rows@.contains((#[trigger] out@[k]).left),
            forall|k: int|
                0 <= k < out@.len() ==> 1 <= (#[trigger] out@[k]).left <= left@.len() && 1
                    <= out@[k].right <= right@.len() && out@[k].dist == pair_dist(
                    sm,
                    opt_view(left@[out@[k].left - 1]),
                    opt_view(right@[out@[k].right - 1]),
                ),
        decreases np - p,
    {
        let ghost pre = out@;
        let lst = &lists[p];
        let nl = lst.len();
        let mut k: usize = 0;
        while k < nl
            invariant
                0 <= k <= nl,
                nl == lst@.len(),
                out@.len() == pre.len() + k,
                forall|k2: int| 0 <= k2 < pre.len() ==> out@[k2] == pre[k2],
                forall|k2: int| 0 <= k2 < k ==> out@[pre.len() + k2] == lst@[k2],
            decreases nl - k,
        {
            let c = lst[k];
            out.push(c);
            k += 1;
        }
        p += 1;
        proof {
            let g = lg@[p - 1];
            let cs = lst@;
            // the pair characterization after this left group
            assert forall|i: usize, j: usize|
                #![trigger cand_in(out@, i as int, j as int)]
                cand_in(out@, i as int, j as int) <==> (exists|p2: int|
                0 <= p2 < p && (#[trigger] lg@[p2]).rows@.contains(i) && right_match(
                    sm,
                    t,
                    full,
                    opt_view(lg@[p2].value),
                    rg@,
                    j,
                )) by {
                if cand_in(out@, i as int, j as int) {
                    let k2 = choose|k2: int|
                        0 <= k2 < out@.len() && out@[k2].left == i && out@[k2].right == j;
                    if k2 < pre.len() {
                        assert(out@[k2] == pre[k2]);
                        assert(cand_in(pre, i as int, j as int));
                    } else {
                        assert(out@[pre.len() + (k2 - pre.len())] == cs[k2 - pre.len()]);
                        assert(cand_in(cs, i as int, j as int));
                        assert(g.rows@.contains(i) && right_match(
                            sm,
                            t,
                            full,
                            opt_view(g.value),
                            rg@,
                            j,
                        ));
                    }
                }
                if exists|p2: int|
                    0 <= p2 < p && (#[trigger] lg@[p2]).rows@.contains(i) && right_match(
                        sm,
                        t,
                        full,
                        opt_view(lg@[p2].value),
                        rg@,
                        j,
                    ) {
                    let p2 = choose|p2: int|
                        0 <= p2 < p && (#[trigger] lg@[p2]).rows@.contains(i) && right_match(
                            sm,
                            t,
                            full,
                            opt_view(lg@[p2].value),
                            rg@,
                            j,
                        );
                    if p2 < p - 1 {
                        assert(cand_in(pre, i as int, j as int));
                        let k2 = choose|k2: int|
                            0 <= k2 < pre.len() && pre[k2].left == i && pre[k2].right == j;
                        assert(out@[k2] == pre[k2]);
                        assert(cand_in(out@, i as int, j as int));
                    } else {
                        assert(cand_in(cs, i as int, j as int));
                        let k2 = choose|k2: int|
                            0 <= k2 < cs.len() && cs[k2].left == i && cs[k2].right == j;
                        assert(out@[pre.len() + k2] == cs[k2]);
                        assert(cand_in(out@, i as int, j as int));
                    }
                }
            }
            // uniqueness across groups: left rows of different groups differ
            assert forall|k1: int, k2: int| 0 <= k1 < k2 < out@.len() implies !(out@[k1].left
                == out@[k2].left && out@[k1].right == out@[k2].right) by {
                if k1 < pre.len() && k2 >= pre.len() {
                    assert(out@[k1] == pre[k1]);
                    assert(out@[pre.len() + (k2 - pre.len())] == cs[k2 - pre.len()]);
                    let pa = choose|pa: int|
                        0 <= pa < p - 1 && (#[trigger] lg@[pa]).rows@.contains(pre[k1].left);
                    assert(g.rows@.contains(out@[k2].left));
                    let ka = choose|ka: int|
                        0 <= ka < lg@[pa].rows@.len() && lg@[pa].rows@[ka] == out@[k1].left;
                    let kb = choose|kb: int|
                        0 <= kb < g.rows@.len() && g.rows@[kb] == out@[k2].left;
                    assert(lg@[pa].rows@[ka] != lg@[(p - 1) as int].rows@[kb]);
                } else if k2 < pre.len() {
                    assert(out@[k1] == pre[k1] && out@[k2] == pre[k2]);
                } else if k1 >= pre.len() {
                    assert(out@[pre.len() + (k1 - pre.len())] == cs[k1 - pre.len()]);
                    assert(out@[pre.len() + (k2 - pre.len())] == cs[k2 - pre.len()]);
                }
            }
            // row ranges and distances transfer from group facts to columns
            assert forall|k2: int|
                0 <= k2 < out@.len() implies 1 <= (#[trigger] out@[k2]).left <= left@.len() && 1
                <= out@[k2].right <= right@.len() && out@[k2].dist == pair_dist(
                sm,
                opt_view(left@[out@[k2].left - 1]),
                opt_view(right@[out@[k2].right - 1]),
            ) by {
                if k2 >= pre.len() {
                    let c = cs[k2 - pre.len()];
                    assert(out@[pre.len() + (k2 - pre.len())] == c);
                    assert(g.rows@.contains(c.left));
                    lemma_rows_of_contains(left@, opt_view(g.value), c.left);
                    assert(cand_in(cs, c.left as int, c.right as int));
                    assert(right_match(sm, t, full, opt_view(g.value), rg@, c.right));
                    let h = choose|h: int|
                        0 <= h < rg@.len() && (#[trigger] rg@[h]).rows@.contains(c.right)
                            && pair_included(sm, t, full, opt_view(g.value), opt_view(
                            rg@[h].value,
                        ));
                    lemma_rows_of_contains(right@, opt_view(rg@[h].value), c.right);
                    assert(c.dist == pair_dist(sm, opt_view(g.value), opt_view(rg@[h].value)));
                    assert(opt_view(left@[c.left - 1]) == opt_view(g.value));
                    assert(opt_view(right@[c.right - 1]) == opt_view(rg@[h].value));
                } else {
                    assert(out@[k2] == pre[k2]);
                }
            }
            // left-group witnesses persist
            assert forall|k2: int| 0 <= k2 < out@.len() implies exists|p2: int|
                0 <= p2 < p && (#[trigger] lg@[p2]).rows@.contains(
                    (#[trigger] out@[k2]).left,
                ) by {
                if k2 < pre.len() {
                    assert(out@[k2] == pre[k2]);
                    let p2 = choose|p2: int|
                        0 <= p2 < p - 1 && (#[trigger] lg@[p2]).rows@.contains(pre[k2].left);
                    assert(lg@[p2].rows@.contains(out@[k2].left));
                } else {
                    assert(out@[pre.len() + (k2 - pre.len())] == cs[k2 - pre.len()]);
                    assert(g.rows@.contains(out@[k2].left));
                    assert(lg@[(p - 1) as int].rows@.contains(out@[k2].left));
                }
            }
        }
    }
    proof {
        // convert the group characterization into the column one
        assert forall|i: usize, j: usize|
            #![trigger cand_in(out@, i as int, j as int)]
            cand_in(out@, i as int, j as int) <==> (1 <= i <= left@.len() && 1 <= j
            <= right@.len() && pair_included(sm, t, full, opt_view(left@[i - 1]), opt_view(
            right@[j - 1],
        ))) by {
            if cand_in(out@, i as int, j as int) {
                let p2 = choose|p2: int|
                    0 <= p2 < np && (#[trigger] lg@[p2]).rows@.contains(i) && right_match(
                        sm,
                        t,
                        full,
                        opt_view(lg@[p2].value),
                        rg@,
                        j,
                    );
                lemma_rows_of_contains(left@, opt_view(lg@[p2].value), i);
                let h = choose|h: int|
                    0 <= h < rg@.len() && (#[trigger] rg@[h]).rows@.contains(j) && pair_included(
                        sm,
                        t,
                        full,
                        opt_view(lg@[p2].value),
                        opt_view(rg@[h].value),
                    );
                lemma_rows_of_contains(right@, opt_view(rg@[h].value), j);
                assert(opt_view(left@[i - 1]) == opt_view(lg@[p2].value));
                assert(opt_view(right@[j - 1]) == opt_view(rg@[h].value));
            }
            if 1 <= i <= left@.len() && 1 <= j <= right@.len() && pair_included(
                sm,
                t,
                full,
                opt_view(left@[i - 1]),
                opt_view(right@[j - 1]),
            ) {
                assert(exists|p2: int|
                    0 <= p2 < lg@.len() && opt_view(lg@[p2].value) == opt_view(
                        #[trigger] left@[i - 1],
                    ));
                let p2 = choose|p2: int|
                    0 <= p2 < lg@.len() && opt_view(lg@[p2].value) == opt_view(left@[i - 1]);
                lemma_rows_of_contains(left@, opt_view(lg@[p2].value), i);
                assert(lg@[p2].rows@.contains(i));
                assert(exists|h: int|
                    0 <= h < rg@.len() && opt_view(rg@[h].value) == opt_view(
                        #[trigger] right@[j - 1],
                    ));
                let h = choose|h: int|
                    0 <= h < rg@.len() && opt_view(rg@[h].value) == opt_view(right@[j - 1]);
                lemma_rows_of_contains(right@, opt_view(rg@[h].value), j);
                assert(rg@[h].rows@.contains(j));
                assert(pair_included(sm, t, full, opt_view(lg@[p2].value), opt_view(
                    rg@[h].value,
                )));
                assert(right_match(sm, t, full, opt_view(lg@[p2].value), rg@, j));
            }
        }
    }
    out
}

} // verus!
