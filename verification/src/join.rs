//! The join engines: validate the key pairs, scan each key pair with its
//! matcher, fold the survivor set across key pairs in order, and transpose
//! the survivors into the output triple, sorted by row pair.

use vstd::prelude::*;
use crate::types::{cand_in, cands_unique, Candidate, Dist, Error, JoinType, Threshold};
use crate::strutil::opt_view;
use crate::matcher::{col_ok, fuzzy_indices_str, pair_dist, pair_included, params_ok, StrMetric};
use crate::difference::{fuzzy_indices_diff, num_dist, num_included};
use crate::survivor::{
    intersect_candidates, rec_in, rec_present, recs_unique, sort_recs, sorted_lex, transpose_recs,
    MatchResult, PairRec,
};

verus! {

/// One key pair of a string join: the left and right key columns.
pub struct StringKeyPair {
    pub left: Vec<Option<String>>,
    pub right: Vec<Option<String>>,
}

/// One key pair of a numeric difference join.
pub struct NumKeyPair {
    pub left: Vec<Option<i64>>,
    pub right: Vec<Option<i64>>,
}

/// Whether the result pairs left row `i` with right row `j` at some
/// position.
pub open spec fn res_pair_in(res: MatchResult, i: usize, j: usize) -> bool {
    exists|q: int|
        0 <= q < res.left_rows@.len() && (#[trigger] res.left_rows@[q]) == i && res.right_rows@[q]
            == j
}

/// The output rows are strictly ascending by (left row, right row): every
/// surviving pair appears once, in deterministic order.
pub open spec fn res_sorted(res: MatchResult) -> bool {
    forall|q1: int, q2: int|
        0 <= q1 < q2 < res.left_rows@.len() ==> ((#[trigger] res.left_rows@[q1]) < (
        #[trigger] res.left_rows@[q2]) || (res.left_rows@[q1] == res.left_rows@[q2]
            && res.right_rows@[q1] < res.right_rows@[q2]))
}

/// The well-shaped output of a join over `nkeys` key pairs with `n`
/// surviving pairs: equal-length row sequences and one aligned distance row
/// per key pair.
pub open spec fn res_shape(res: MatchResult, nkeys: int) -> bool {
    &&& res.right_rows@.len() == res.left_rows@.len()
    &&& res.dists@.len() == nkeys
    &&& forall|p: int| 0 <= p < nkeys ==> (#[trigger] res.dists@[p])@.len() == res.left_rows@.len()
}

/// Builds the final result from the per-key-pair candidate lists.
fn finalize(lists: &Vec<Vec<Candidate>>) -> (res: MatchResult)
    requires
        lists@.len() >= 1,
        forall|p: int| 0 <= p < lists@.len() ==> cands_unique((#[trigger] lists@[p])@),
    ensures
        res_shape(res, lists@.len() as int),
        res_sorted(res),
        forall|i: usize, j: usize|
            #![trigger res_pair_in(res, i, j)]
            res_pair_in(res, i, j) <==> (forall|p: int|
                0 <= p < lists@.len() ==> cand_in((#[trigger] lists@[p])@, i as int, j as int)),
        forall|p: int, q: int, c: int|
            #![trigger res.dists@[p]@[q], lists@[p]@[c]]
            0 <= p < lists@.len() && 0 <= q < res.left_rows@.len() && 0 <= c < lists@[p]@.len()
                && lists@[p]@[c].left == res.left_rows@[q] && lists@[p]@[c].right
                == res.right_rows@[q] ==> res.dists@[p]@[q] == lists@[p]@[c].dist,
{
    let recs = intersect_candidates(lists);
    let sorted = sort_recs(&recs);
    proof {
        assert forall|k: int| 0 <= k < sorted@.len() implies (#[trigger] sorted@[k]).dists@.len()
            == lists@.len() by {
            assert(rec_present(recs@, sorted@[k]));
            let k2 = choose|k2: int|
                0 <= k2 < recs@.len() && (#[trigger] recs@[k2]).left == sorted@[k].left
                    && recs@[k2].right == sorted@[k].right && recs@[k2].dists@ == sorted@[k].dists@;
            assert(recs@[k2].dists@.len() == lists@.len());
        }
    }
    let res = transpose_recs(&sorted, lists.len());
    proof {
        // strict order from sortedness and uniqueness of the pairs
        assert forall|q1: int, q2: int|
            0 <= q1 < q2 < res.left_rows@.len() implies ((#[trigger] res.left_rows@[q1]) < (
        #[trigger] res.left_rows@[q2]) || (res.left_rows@[q1] == res.left_rows@[q2]
            && res.right_rows@[q1] < res.right_rows@[q2])) by {
            assert(crate::survivor::lex_le(sorted@[q1], sorted@[q2]));
            assert(!(sorted@[q1].left == sorted@[q2].left && sorted@[q1].right
                == sorted@[q2].right));
        }
        // the pair set of the output is the intersection of the lists'
        assert forall|i: usize, j: usize|
            #![trigger res_pair_in(res, i, j)]
            res_pair_in(res, i, j) <==> (forall|p: int|
            0 <= p < lists@.len() ==> cand_in((#[trigger] lists@[p])@, i as int, j as int)) by {
            if res_pair_in(res, i, j) {
                let q = choose|q: int|
                    0 <= q < res.left_rows@.len() && (#[trigger] res.left_rows@[q]) == i
                        && res.right_rows@[q] == j;
                assert(sorted@[q].left == i && sorted@[q].right == j);
                assert(rec_present(recs@, sorted@[q]));
                let k2 = choose|k2: int|
                    0 <= k2 < recs@.len() && (#[trigger] recs@[k2]).left == sorted@[q].left
                        && recs@[k2].right == sorted@[q].right && recs@[k2].dists@
                        == sorted@[q].dists@;
                assert(rec_in(recs@, i as int, j as int));
            }
            if forall|p: int|
                0 <= p < lists@.len() ==> cand_in((#[trigger] lists@[p])@, i as int, j as int) {
                assert(rec_in(recs@, i as int, j as int));
                let k2 = choose|k2: int|
                    0 <= k2 < recs@.len() && (#[trigger] recs@[k2]).left == i as int
                        && recs@[k2].right == j as int;
                assert(rec_present(sorted@, recs@[k2]));
                let q = choose|q: int|
                    0 <= q < sorted@.len() && (#[trigger] sorted@[q]).left == recs@[k2].left
                        && sorted@[q].right == recs@[k2].right && sorted@[q].dists@
                        == recs@[k2].dists@;
                assert(res.left_rows@[q] == i && res.right_rows@[q] == j);
                assert(res_pair_in(res, i, j));
            }
        }
        // distances at each position come from that key pair's candidate
        assert forall|p: int, q: int, c: int|
            #![trigger res.dists@[p]@[q], lists@[p]@[c]]
            0 <= p < lists@.len() && 0 <= q < res.left_rows@.len() && 0 <= c < lists@[p]@.len()
                && lists@[p]@[c].left == res.left_rows@[q] && lists@[p]@[c].right
                == res.right_rows@[q] implies res.dists@[p]@[q] == lists@[p]@[c].dist by {
            assert(res.dists@[p]@[q] == sorted@[q].dists@[p]);
            assert(rec_present(recs@, sorted@[q]));
            let k2 = choose|k2: int|
                0 <= k2 < recs@.len() && (#[trigger] recs@[k2]).left == sorted@[q].left
                    && recs@[k2].right == sorted@[q].right && recs@[k2].dists@
                    == sorted@[q].dists@;
            assert(recs@[k2].dists@[p] == lists@[p]@[c].dist);
        }
    }
    res
}

/// Approximate string join over one or more key pairs: each key pair's
/// candidates are computed with its own index and pruning structure, the
/// survivor set is their intersection in key-pair order, and the result is
/// transposed and sorted by (left row, right row).  In full/outer mode every
/// row pair survives, labeled `Unknown` where a value is missing.
pub fn string_join(
    keys: &Vec<StringKeyPair>,
    sm: StrMetric,
    t: Threshold,
    how: JoinType,
    nthread: Option<usize>,
) -> (r: Result<MatchResult, Error>)
    requires
        params_ok(sm, t),
        forall|k: int|
            0 <= k < keys@.len() ==> col_ok(sm, (#[trigger] keys@[k]).left@) && col_ok(
                sm,
                keys@[k].right@,
            ),
    ensures
        r is Ok <==> keys@.len() >= 1 && (forall|k: int|
            0 <= k < keys@.len() ==> (#[trigger] keys@[k]).left@.len() == keys@[0].left@.len()
                && keys@[k].right@.len() == keys@[0].right@.len()),
        keys@.len() == 0 ==> r == Err::<MatchResult, Error>(Error::NoKeys),
        r matches Err(Error::ColumnLengthMismatch { key }) ==> 0 < key < keys@.len() && !(
        keys@[key as int].left@.len() == keys@[0].left@.len() && keys@[key as int].right@.len()
            == keys@[0].right@.len()) && (forall|k2: int|
            0 <= k2 < key ==> (#[trigger] keys@[k2]).left@.len() == keys@[0].left@.len()
                && keys@[k2].right@.len() == keys@[0].right@.len()),
        r matches Err(e) ==> e is NoKeys || e is ColumnLengthMismatch,
        r matches Ok(res) ==> {
            let nl = keys@[0].left@.len();
            let nr = keys@[0].right@.len();
            let full = how is Full;
            &&& res_shape(res, keys@.len() as int)
            &&& res_sorted(res)
            &&& forall|i: usize, j: usize|
                #![trigger res_pair_in(res, i, j)]
                res_pair_in(res, i, j) <==> (1 <= i <= nl && 1 <= j <= nr && (forall|k: int|
                    0 <= k < keys@.len() ==> pair_included(
                        sm,
                        t,
                        full,
                        opt_view((#[trigger] keys@[k]).left@[i - 1]),
                        opt_view(keys@[k].right@[j - 1]),
                    )))
            &&& forall|k: int, q: int|
                #![trigger res.dists@[k]@[q]]
                0 <= k < keys@.len() && 0 <= q < res.left_rows@.len() ==> res.dists@[k]@[q]
                    == pair_dist(
                    sm,
                    opt_view(keys@[k].left@[res.left_rows@[q] - 1]),
                    opt_view(keys@[k].right@[res.right_rows@[q] - 1]),
                )
            &&& forall|q: int|
                0 <= q < res.left_rows@.len() ==> 1 <= (#[trigger] res.left_rows@[q]) <= nl && 1
                    <= (#[trigger] res.right_rows@[q]) <= nr
        },
{
    let nk = keys.len();
    if nk == 0 {
        return Err(Error::NoKeys);
    }
    let full = matches!(how, JoinType::Full);
    let nl = keys[0].left.len();
    let nr = keys[0].right.len();
    let mut k: usize = 0;
    while k < nk
        invariant
            0 <= k <= nk,
            nk == keys@.len(),
            nl == keys@[0].left@.len(),
            nr == keys@[0].right@.len(),
            forall|k2: int|
                0 <= k2 < k ==> (#[trigger] keys@[k2]).left@.len() == nl && keys@[k2].right@.len()
                    == nr,
        decreases nk - k,
    {
        if keys[k].left.len() != nl || keys[k].right.len() != nr {
            return Err(Error::ColumnLengthMismatch { key: k });
        }
        k += 1;
    }

    let mut lists: Vec<Vec<Candidate>> = Vec::new();
    let mut k2: usize = 0;
    while k2 < nk
        invariant
            0 <= k2 <= nk,
            nk == keys@.len(),
            nl == keys@[0].left@.len(),
            nr == keys@[0].right@.len(),
            params_ok(sm, t),
            full == how is Full,
            forall|k3: int|
                0 <= k3 < nk ==> col_ok(sm, (#[trigger] keys@[k3]).left@) && col_ok(
                    sm,
                    keys@[k3].right@,
                ),
            forall|k3: int|
                0 <= k3 < nk ==> (#[trigger] keys@[k3]).left@.len() == nl && keys@[k3].right@.len()
                    == nr,
            lists@.len() == k2,
            forall|k3: int, i: usize, j: usize|
                #![trigger cand_in(lists@[k3]@, i as int, j as int), keys@[k3]]
                0 <= k3 < k2 ==> (cand_in(lists@[k3]@, i as int, j as int) <==> (1 <= i <= nl && 1
                    <= j <= nr && pair_included(
                    sm,
                    t,
                    full,
                    opt_view(keys@[k3].left@[i - 1]),
                    opt_view(keys@[k3].right@[j - 1]),
                ))),
            forall|k3: int| 0 <= k3 < k2 ==> cands_unique((#[trigger] lists@[k3])@),
            forall|k3: int, c: int|
                #![trigger lists@[k3]@[c]]
                0 <= k3 < k2 && 0 <= c < lists@[k3]@.len() ==> 1 <= lists@[k3]@[c].left <= nl && 1
                    <= lists@[k3]@[c].right <= nr && lists@[k3]@[c].dist == pair_dist(
                    sm,
                    opt_view(keys@[k3].left@[lists@[k3]@[c].left - 1]),
                    opt_view(keys@[k3].right@[lists@[k3]@[c].right - 1]),
                ),
        decreases nk - k2,
    {
        let cs = fuzzy_indices_str(sm, &keys[k2].left, &keys[k2].right, t, full, nthread);
        lists.push(cs);
        k2 += 1;
    }
    let res = finalize(&lists);
    proof {
        assert forall|i: usize, j: usize|
            #![trigger res_pair_in(res, i, j)]
            res_pair_in(res, i, j) <==> (1 <= i <= nl && 1 <= j <= nr && (forall|k3: int|
            0 <= k3 < keys@.len() ==> pair_included(
                sm,
                t,
                full,
                opt_view((#[trigger] keys@[k3]).left@[i - 1]),
                opt_view(keys@[k3].right@[j - 1]),
            ))) by {
            if res_pair_in(res, i, j) {
                assert(forall|p: int|
                    0 <= p < lists@.len() ==> cand_in((#[trigger] lists@[p])@, i as int, j as int));
                assert(cand_in(lists@[0]@, i as int, j as int));
                assert forall|k3: int| 0 <= k3 < keys@.len() implies pair_included(
                    sm,
                    t,
                    full,
                    opt_view((#[trigger] keys@[k3]).left@[i - 1]),
                    opt_view(keys@[k3].right@[j - 1]),
                ) by {
                    assert(cand_in(lists@[k3]@, i as int, j as int));
                }
            }
            if 1 <= i <= nl && 1 <= j <= nr && (forall|k3: int|
                0 <= k3 < keys@.len() ==> pair_included(
                    sm,
                    t,
                    full,
                    opt_view((#[trigger] keys@[k3]).left@[i - 1]),
                    opt_view(keys@[k3].right@[j - 1]),
                )) {
                assert forall|p: int| 0 <= p < lists@.len() implies cand_in(
                    (#[trigger] lists@[p])@,
                    i as int,
                    j as int,
                ) by {
                    assert(pair_included(
                        sm,
                        t,
                        full,
                        opt_view(keys@[p].left@[i - 1]),
                        opt_view(keys@[p].right@[j - 1]),
                    ));
                }
                assert(res_pair_in(res, i, j));
            }
        }
        assert forall|q: int|
            0 <= q < res.left_rows@.len() implies 1 <= (#[trigger] res.left_rows@[q]) <= nl && 1
            <= (#[trigger] res.right_rows@[q]) <= nr by {
            assert(res_pair_in(res, res.left_rows@[q], res.right_rows@[q]));
            assert(cand_in(lists@[0]@, res.left_rows@[q] as int, res.right_rows@[q] as int));
        }
        assert forall|k3: int, q: int|
            #![trigger res.dists@[k3]@[q]]
            0 <= k3 < keys@.len() && 0 <= q < res.left_rows@.len() implies res.dists@[k3]@[q]
            == pair_dist(
            sm,
            opt_view(keys@[k3].left@[res.left_rows@[q] - 1]),
            opt_view(keys@[k3].right@[res.right_rows@[q] - 1]),
        ) by {
            assert(res_pair_in(res, res.left_rows@[q], res.right_rows@[q]));
            assert(cand_in(lists@[k3]@, res.left_rows@[q] as int, res.right_rows@[q] as int));
            let c = choose|c: int|
                0 <= c < lists@[k3]@.len() && lists@[k3]@[c].left == res.left_rows@[q] as int
                    && lists@[k3]@[c].right == res.right_rows@[q] as int;
            assert(lists@[k3]@[c].dist == pair_dist(
                sm,
                opt_view(keys@[k3].left@[res.left_rows@[q] - 1]),
                opt_view(keys@[k3].right@[res.right_rows@[q] - 1]),
            ));
            assert(res.dists@[k3]@[q] == lists@[k3]@[c].dist);
        }
    }
    Ok(res)
}

/// Numeric difference join over one or more key pairs: pairs survive when
/// every key pair's values lie within the tolerance; distances are the exact
/// absolute differences, one row per key pair.
pub fn difference_join(
    keys: &Vec<NumKeyPair>,
    max_distance: u64,
    nthread: Option<usize>,
) -> (r: Result<MatchResult, Error>)
    ensures
        r is Ok <==> keys@.len() >= 1 && (forall|k: int|
            0 <= k < keys@.len() ==> (#[trigger] keys@[k]).left@.len() == keys@[0].left@.len()
                && keys@[k].right@.len() == keys@[0].right@.len()),
        keys@.len() == 0 ==> r == Err::<MatchResult, Error>(Error::NoKeys),
        r matches Err(Error::ColumnLengthMismatch { key }) ==> 0 < key < keys@.len() && !(
        keys@[key as int].left@.len() == keys@[0].left@.len() && keys@[key as int].right@.len()
            == keys@[0].right@.len()) && (forall|k2: int|
            0 <= k2 < key ==> (#[trigger] keys@[k2]).left@.len() == keys@[0].left@.len()
                && keys@[k2].right@.len() == keys@[0].right@.len()),
        r matches Err(e) ==> e is NoKeys || e is ColumnLengthMismatch,
        r matches Ok(res) ==> {
            let nl = keys@[0].left@.len();
            let nr = keys@[0].right@.len();
            &&& res_shape(res, keys@.len() as int)
            &&& res_sorted(res)
            &&& forall|i: usize, j: usize|
                #![trigger res_pair_in(res, i, j)]
                res_pair_in(res, i, j) <==> (1 <= i <= nl && 1 <= j <= nr && (forall|k: int|
                    0 <= k < keys@.len() ==> num_included(
                        (#[trigger] keys@[k]).left@[i - 1],
                        keys@[k].right@[j - 1],
                        max_distance,
                    )))
            &&& forall|k: int, q: int|
                #![trigger res.dists@[k]@[q]]
                0 <= k < keys@.len() && 0 <= q < res.left_rows@.len() ==> res.dists@[k]@[q]
                    == num_dist(
                    keys@[k].left@[res.left_rows@[q] - 1],
                    keys@[k].right@[res.right_rows@[q] - 1],
                )
            &&& forall|q: int|
                0 <= q < res.left_rows@.len() ==> 1 <= (#[trigger] res.left_rows@[q]) <= nl && 1
                    <= (#[trigger] res.right_rows@[q]) <= nr
        },
{
    let nk = keys.len();
    if nk == 0 {
        return Err(Error::NoKeys);
    }
    let nl = keys[0].left.len();
    let nr = keys[0].right.len();
    let mut k: usize = 0;
    while k < nk
        invariant
            0 <= k <= nk,
            nk == keys@.len(),
            nl == keys@[0].left@.len(),
            nr == keys@[0].right@.len(),
            forall|k2: int|
                0 <= k2 < k ==> (#[trigger] keys@[k2]).left@.len() == nl && keys@[k2].right@.len()
                    == nr,
        decreases nk - k,
    {
        if keys[k].left.len() != nl || keys[k].right.len() != nr {
            return Err(Error::ColumnLengthMismatch { key: k });
        }
        k += 1;
    }

    let mut lists: Vec<Vec<Candidate>> = Vec::new();
    let mut k2: usize = 0;
    while k2 < nk
        invariant
            0 <= k2 <= nk,
            nk == keys@.len(),
            nl == keys@[0].left@.len(),
            nr == keys@[0].right@.len(),
            forall|k3: int|
                0 <= k3 < nk ==> (#[trigger] keys@[k3]).left@.len() == nl && keys@[k3].right@.len()
                    == nr,
            lists@.len() == k2,
            forall|k3: int, i: usize, j: usize|
                #![trigger cand_in(lists@[k3]@, i as int, j as int), keys@[k3]]
                0 <= k3 < k2 ==> (cand_in(lists@[k3]@, i as int, j as int) <==> (1 <= i <= nl && 1
                    <= j <= nr && num_included(
                    keys@[k3].left@[i - 1],
                    keys@[k3].right@[j - 1],
                    max_distance,
                ))),
            forall|k3: int| 0 <= k3 < k2 ==> cands_unique((#[trigger] lists@[k3])@),
            forall|k3: int, c: int|
                #![trigger lists@[k3]@[c]]
                0 <= k3 < k2 && 0 <= c < lists@[k3]@.len() ==> 1 <= lists@[k3]@[c].left <= nl && 1
                    <= lists@[k3]@[c].right <= nr && lists@[k3]@[c].dist == num_dist(
                    keys@[k3].left@[lists@[k3]@[c].left - 1],
                    keys@[k3].right@[lists@[k3]@[c].right - 1],
                ),
        decreases nk - k2,
    {
        let cs = fuzzy_indices_diff(&keys[k2].left, &keys[k2].right, max_distance, nthread);
        lists.push(cs);
        k2 += 1;
    }
    let res = finalize(&lists);
    proof {
        assert forall|i: usize, j: usize|
            #![trigger res_pair_in(res, i, j)]
            res_pair_in(res, i, j) <==> (1 <= i <= nl && 1 <= j <= nr && (forall|k3: int|
            0 <= k3 < keys@.len() ==> num_included(
                (#[trigger] keys@[k3]).left@[i - 1],
                keys@[k3].right@[j - 1],
                max_distance,
            ))) by {
            if res_pair_in(res, i, j) {
                assert(cand_in(lists@[0]@, i as int, j as int));
                assert forall|k3: int| 0 <= k3 < keys@.len() implies num_included(
                    (#[trigger] keys@[k3]).left@[i - 1],
                    keys@[k3].right@[j - 1],
                    max_distance,
                ) by {
                    assert(cand_in(lists@[k3]@, i as int, j as int));
                }
            }
            if 1 <= i <= nl && 1 <= j <= nr && (forall|k3: int|
                0 <= k3 < keys@.len() ==> num_included(
                    (#[trigger] keys@[k3]).left@[i - 1],
                    keys@[k3].right@[j - 1],
                    max_distance,
                )) {
                assert forall|p: int| 0 <= p < lists@.len() implies cand_in(
                    (#[trigger] lists@[p])@,
                    i as int,
                    j as int,
                ) by {
                    assert(num_included(
                        keys@[p].left@[i - 1],
                        keys@[p].right@[j - 1],
                        max_distance,
                    ));
                }
                assert(res_pair_in(res, i, j));
            }
        }
        assert forall|q: int|
            0 <= q < res.left_rows@.len() implies 1 <= (#[trigger] res.left_rows@[q]) <= nl && 1
            <= (#[trigger] res.right_rows@[q]) <= nr by {
            assert(res_pair_in(res, res.left_rows@[q], res.right_rows@[q]));
            assert(cand_in(lists@[0]@, res.left_rows@[q] as int, res.right_rows@[q] as int));
        }
        assert forall|k3: int, q: int|
            #![trigger res.dists@[k3]@[q]]
            0 <= k3 < keys@.len() && 0 <= q < res.left_rows@.len() implies res.dists@[k3]@[q]
            == num_dist(
            keys@[k3].left@[res.left_rows@[q] - 1],
            keys@[k3].right@[res.right_rows@[q] - 1],
        ) by {
            assert(res_pair_in(res, res.left_rows@[q], res.right_rows@[q]));
            assert(cand_in(lists@[k3]@, res.left_rows@[q] as int, res.right_rows@[q] as int));
            let c = choose|c: int|
                0 <= c < lists@[k3]@.len() && lists@[k3]@[c].left == res.left_rows@[q] as int
                    && lists@[k3]@[c].right == res.right_rows@[q] as int;
            assert(lists@[k3]@[c].dist == num_dist(
                keys@[k3].left@[res.left_rows@[q] - 1],
                keys@[k3].right@[res.right_rows@[q] - 1],
            ));
            assert(res.dists@[k3]@[q] == lists@[k3]@[c].dist);
        }
    }
    Ok(res)
}

} // verus!
