//! The survivor tracker: the sequential fold that intersects the candidate
//! lists of successive key pairs.  A row pair survives exactly when every
//! key pair listed it; its distances accumulate in key-pair order, one slot
//! per key pair.

use vstd::prelude::*;
use crate::types::{cand_in, cands_unique, Candidate, Dist};

verus! {

/// One surviving row pair with its per-key-pair distances, positionally
/// aligned to the key pairs folded in so far.
pub struct PairRec {
    pub left: usize,
    pub right: usize,
    pub dists: Vec<Dist>,
}

/// Whether some record in `rs` joins left row `i` with right row `j`.
pub open spec fn rec_in(rs: Seq<PairRec>, i: int, j: int) -> bool {
    exists|k: int| 0 <= k < rs.len() && (#[trigger] rs[k]).left == i && rs[k].right == j
}

/// No row pair is recorded twice.
pub open spec fn recs_unique(rs: Seq<PairRec>) -> bool {
    forall|k1: int, k2: int|
        0 <= k1 < k2 < rs.len() ==> !(rs[k1].left == rs[k2].left && rs[k1].right == rs[k2].right)
}

/// The distances of every record are aligned to the candidate lists: the
/// record's slot `p` carries the distance key pair `p` assigned the pair.
pub open spec fn dists_aligned(rs: Seq<PairRec>, lists: Seq<Vec<Candidate>>) -> bool {
    forall|k: int, p: int, c: int|
        #![trigger rs[k].dists@[p], lists[p]@[c]]
        0 <= k < rs.len() && 0 <= p < lists.len() && 0 <= c < lists[p]@.len() && lists[p]@[c].left
            == rs[k].left && lists[p]@[c].right == rs[k].right ==> rs[k].dists@[p]
            == lists[p]@[c].dist
}

/// Looks a pair up in one candidate list.
fn find_cand(cs: &Vec<Candidate>, i: usize, j: usize) -> (r: Option<Dist>)
    requires
        cands_unique(cs@),
    ensures
        r is Some <==> cand_in(cs@, i as int, j as int),
        forall|k: int|
            0 <= k < cs@.len() && (#[trigger] cs@[k]).left == i && cs@[k].right == j ==> r == Some(
                cs@[k].dist,
            ),
{
    let n = cs.len();
    let mut k: usize = 0;
    while k < n
        invariant
            0 <= k <= n,
            n == cs@.len(),
            cands_unique(cs@),
            forall|k2: int| 0 <= k2 < k ==> !((#[trigger] cs@[k2]).left == i && cs@[k2].right == j),
        decreases n - k,
    {
        let c = cs[k];
        if c.left == i && c.right == j {
            proof {
                assert(cs@[k as int].left == i && cs@[k as int].right == j);
                assert forall|k2: int|
                    0 <= k2 < cs@.len() && (#[trigger] cs@[k2]).left == i && cs@[k2].right
                        == j implies cs@[k2].dist == c.dist by {
                    if k2 != k {
                        assert(!(cs@[k2].left == cs@[k as int].left && cs@[k2].right
                            == cs@[k as int].right));
                    }
                }
            }
            return Some(c.dist);
        }
        k += 1;
    }
    proof {
        assert(!cand_in(cs@, i as int, j as int));
    }
    None
}

/// An element-wise copy of a distance vector.
fn clone_dists(v: &Vec<Dist>) -> (r: Vec<Dist>)
    ensures
        r@ == v@,
{
    let n = v.len();
    let mut r: Vec<Dist> = Vec::new();
    let mut i: usize = 0;
    while i < n
        invariant
            0 <= i <= n,
            n == v@.len(),
            r@ == v@.take(i as int),
        decreases n - i,
    {
        r.push(v[i]);
        i += 1;
        proof {
            assert(r@ =~= v@.take(i as int));
        }
    }
    proof {
        assert(r@ =~= v@);
    }
    r
}

/// Intersects the candidate lists of all key pairs, in order: the first
/// list seeds the survivor set, each further list removes the pairs it does
/// not hold and appends its distance to those it does.  The result holds
/// exactly the pairs present in every list, each once, with one distance
/// slot per key pair.
pub fn intersect_candidates(lists: &Vec<Vec<Candidate>>) -> (r: Vec<PairRec>)
    requires
        lists@.len() >= 1,
        forall|p: int| 0 <= p < lists@.len() ==> cands_unique((#[trigger] lists@[p])@),
    ensures
        forall|i: int, j: int|
            #![trigger rec_in(r@, i, j)]
            rec_in(r@, i, j) <==> (forall|p: int|
                0 <= p < lists@.len() ==> cand_in((#[trigger] lists@[p])@, i, j)),
        recs_unique(r@),
        forall|k: int| 0 <= k < r@.len() ==> (#[trigger] r@[k]).dists@.len() == lists@.len(),
        dists_aligned(r@, lists@),
{
    let first = &lists[0];
    let n0 = first.len();
    let mut out: Vec<PairRec> = Vec::new();
    let mut k: usize = 0;
    while k < n0
        invariant
            0 <= k <= n0,
            n0 == first@.len(),
            first == &lists@[0],
            lists@.len() >= 1,
            cands_unique(first@),
            out@.len() == k,
            forall|k2: int|
                0 <= k2 < k ==> (#[trigger] out@[k2]).left == first@[k2].left && out@[k2].right
                    == first@[k2].right && out@[k2].dists@ =~= seq![first@[k2].dist],
        decreases n0 - k,
    {
        let c = first[k];
        let mut dv: Vec<Dist> = Vec::new();
        dv.push(c.dist);
        proof {
            assert(dv@ =~= seq![c.dist]);
        }
        out.push(PairRec { left: c.left, right: c.right, dists: dv });
        k += 1;
    }
    proof {
        assert forall|i: int, j: int| #![trigger rec_in(out@, i, j)] rec_in(out@, i, j) <==> cand_in(
            first@,
            i,
            j,
        ) by {
            if rec_in(out@, i, j) {
                let k2 = choose|k2: int|
                    0 <= k2 < out@.len() && (#[trigger] out@[k2]).left == i && out@[k2].right == j;
                assert(first@[k2].left == i && first@[k2].right == j);
            }
            if cand_in(first@, i, j) {
                let k2 = choose|k2: int|
                    0 <= k2 < first@.len() && first@[k2].left == i && first@[k2].right == j;
                assert(out@[k2].left == i && out@[k2].right == j);
            }
        }
    }
    let nk = lists.len();
    let mut p: usize = 1;
    while p < nk
        invariant
            1 <= p <= nk,
            nk == lists@.len(),
            forall|p2: int| 0 <= p2 < nk ==> cands_unique((#[trigger] lists@[p2])@),
            forall|i: int, j: int|
                #![trigger rec_in(out@, i, j)]
                rec_in(out@, i, j) <==> (forall|p2: int|
                    0 <= p2 < p ==> cand_in((#[trigger] lists@[p2])@, i, j)),
            recs_unique(out@),
            forall|k2: int| 0 <= k2 < out@.len() ==> (#[trigger] out@[k2]).dists@.len() == p,
            forall|k2: int, p2: int, c: int|
                #![trigger out@[k2].dists@[p2], lists@[p2]@[c]]
                0 <= k2 < out@.len() && 0 <= p2 < p && 0 <= c < lists@[p2]@.len()
                    && lists@[p2]@[c].left == out@[k2].left && lists@[p2]@[c].right
                    == out@[k2].right ==> out@[k2].dists@[p2] == lists@[p2]@[c].dist,
        decreases nk - p,
    {
        let lst = &lists[p];
        let nq = out.len();
        let mut nxt: Vec<PairRec> = Vec::new();
        let mut q: usize = 0;
        while q < nq
            invariant
                0 <= q <= nq,
                nq == out@.len(),
                0 <= p < nk,
                nk == lists@.len(),
                lst == &lists@[p as int],
                cands_unique(lst@),
                recs_unique(out@),
                forall|k2: int| 0 <= k2 < out@.len() ==> (#[trigger] out@[k2]).dists@.len() == p,
                forall|i: int, j: int|
                    #![trigger rec_in(nxt@, i, j)]
                    rec_in(nxt@, i, j) <==> (exists|q2: int|
                        0 <= q2 < q && (#[trigger] out@[q2]).left == i && out@[q2].right == j
                            && cand_in(lst@, i, j)),
                recs_unique(nxt@),
                forall|k2: int|
                    0 <= k2 < nxt@.len() ==> exists|q2: int|
                        0 <= q2 < q && (#[trigger] nxt@[k2]).left == out@[q2].left && nxt@[k2].right
                            == out@[q2].right && nxt@[k2].dists@ =~= out@[q2].dists@.push(
                            nxt@[k2].dists@[p as int],
                        ) && cand_in(lst@, nxt@[k2].left as int, nxt@[k2].right as int),
                forall|k2: int, c: int|
                    #![trigger nxt@[k2].dists@, lst@[c]]
                    0 <= k2 < nxt@.len() && 0 <= c < lst@.len() && lst@[c].left == nxt@[k2].left
                        && lst@[c].right == nxt@[k2].right ==> nxt@[k2].dists@[p as int]
                        == lst@[c].dist,
            decreases nq - q,
        {
            let rec = &out[q];
            let found = find_cand(lst, rec.left, rec.right);
            match found {
                Some(d) => {
                    let mut dv = clone_dists(&rec.dists);
                    dv.push(d);
                    let nr = PairRec { left: rec.left, right: rec.right, dists: dv };
                    let ghost pre = nxt@;
                    nxt.push(nr);
                    proof {
                        assert(nxt@[nxt@.len() - 1].left == out@[q as int].left);
                        assert(nxt@[nxt@.len() - 1].dists@ =~= out@[q as int].dists@.push(d));
                        assert(nxt@[nxt@.len() - 1].dists@[p as int] == d);
                        // the new record's pair is fresh: every earlier one
                        // stems from an earlier source record, and the source
                        // records' pairs are distinct
                        assert forall|k1: int, k2: int| 0 <= k1 < k2 < nxt@.len() implies !(
                        nxt@[k1].left == nxt@[k2].left && nxt@[k1].right == nxt@[k2].right) by {
                            if k2 == nxt@.len() - 1 {
                                assert(nxt@[k1] == pre[k1]);
                                let q2 = choose|q2: int|
                                    0 <= q2 < q && (#[trigger] pre[k1]).left == out@[q2].left
                                        && pre[k1].right == out@[q2].right && pre[k1].dists@
                                        =~= out@[q2].dists@.push(pre[k1].dists@[p as int])
                                        && cand_in(
                                        lst@,
                                        pre[k1].left as int,
                                        pre[k1].right as int,
                                    );
                                if nxt@[k1].left == nxt@[k2].left && nxt@[k1].right
                                    == nxt@[k2].right {
                                    assert(out@[q2].left == out@[q as int].left && out@[q2].right
                                        == out@[q as int].right);
                                    assert(false);
                                }
                            } else {
                                assert(nxt@[k1] == pre[k1] && nxt@[k2] == pre[k2]);
                            }
                        }
                        assert forall|i: int, j: int| #![trigger rec_in(nxt@, i, j)] rec_in(
                            nxt@,
                            i,
                            j,
                        ) <==> (exists|q2: int|
                            0 <= q2 < q + 1 && (#[trigger] out@[q2]).left == i && out@[q2].right
                                == j && cand_in(lst@, i, j)) by {
                            if rec_in(nxt@, i, j) {
                                let k2 = choose|k2: int|
                                    0 <= k2 < nxt@.len() && (#[trigger] nxt@[k2]).left == i
                                        && nxt@[k2].right == j;
                                if k2 < pre.len() {
                                    assert(rec_in(pre, i, j));
                                } else {
                                    assert(out@[q as int].left == i && out@[q as int].right == j);
                                }
                            }
                            if exists|q2: int|
                                0 <= q2 < q + 1 && (#[trigger] out@[q2]).left == i
                                    && out@[q2].right == j && cand_in(lst@, i, j) {
                                let q2 = choose|q2: int|
                                    0 <= q2 < q + 1 && (#[trigger] out@[q2]).left == i
                                        && out@[q2].right == j && cand_in(lst@, i, j);
                                if q2 == q {
                                    assert(nxt@[nxt@.len() - 1].left == i);
                                } else {
                                    assert(rec_in(pre, i, j));
                                    let k2 = choose|k2: int|
                                        0 <= k2 < pre.len() && (#[trigger] pre[k2]).left == i
                                            && pre[k2].right == j;
                                    assert(nxt@[k2].left == i && nxt@[k2].right == j);
                                }
                            }
                        }
                    }
                },
                None => {
                    proof {
                        assert forall|i: int, j: int| #![trigger rec_in(nxt@, i, j)] rec_in(
                            nxt@,
                            i,
                            j,
                        ) <==> (exists|q2: int|
                            0 <= q2 < q + 1 && (#[trigger] out@[q2]).left == i && out@[q2].right
                                == j && cand_in(lst@, i, j)) by {
                            if exists|q2: int|
                                0 <= q2 < q + 1 && (#[trigger] out@[q2]).left == i
                                    && out@[q2].right == j && cand_in(lst@, i, j) {
                                let q2 = choose|q2: int|
                                    0 <= q2 < q + 1 && (#[trigger] out@[q2]).left == i
                                        && out@[q2].right == j && cand_in(lst@, i, j);
                                if q2 == q {
                                    assert(!cand_in(
                                        lst@,
                                        out@[q as int].left as int,
                                        out@[q as int].right as int,
                                    ));
                                    assert(false);
                                }
                            }
                        }
                    }
                },
            }
            q += 1;
        }
        proof {
            // the narrowed set: pairs of the old set that this key pair kept
            assert forall|i: int, j: int| #![trigger rec_in(nxt@, i, j)] rec_in(nxt@, i, j) <==> (
            forall|p2: int| 0 <= p2 < p + 1 ==> cand_in((#[trigger] lists@[p2])@, i, j)) by {
                if rec_in(nxt@, i, j) {
                    assert(rec_in(out@, i, j));
                    assert(cand_in(lst@, i, j));
                    assert forall|p2: int| 0 <= p2 < p + 1 implies cand_in(
                        (#[trigger] lists@[p2])@,
                        i,
                        j,
                    ) by {
                        if p2 < p {
                            assert(cand_in(lists@[p2]@, i, j));
                        }
                    }
                } else {
                    if forall|p2: int| 0 <= p2 < p + 1 ==> cand_in((#[trigger] lists@[p2])@, i, j) {
                        assert(cand_in(lists@[p as int]@, i, j));
                        assert(rec_in(out@, i, j));
                        let q2 = choose|q2: int|
                            0 <= q2 < out@.len() && (#[trigger] out@[q2]).left == i
                                && out@[q2].right == j;
                        assert(rec_in(nxt@, i, j));
                    }
                }
            }
            // distance slots carry over and the new slot is aligned
            assert forall|k2: int| 0 <= k2 < nxt@.len() implies (#[trigger] nxt@[k2]).dists@.len()
                == p + 1 by {
                let q2 = choose|q2: int|
                    0 <= q2 < nq && (#[trigger] nxt@[k2]).left == out@[q2].left && nxt@[k2].right
                        == out@[q2].right && nxt@[k2].dists@ =~= out@[q2].dists@.push(
                        nxt@[k2].dists@[p as int],
                    ) && cand_in(lst@, nxt@[k2].left as int, nxt@[k2].right as int);
                assert(out@[q2].dists@.len() == p);
            }
            assert forall|k2: int, p2: int, c: int|
                #![trigger nxt@[k2].dists@[p2], lists@[p2]@[c]]
                0 <= k2 < nxt@.len() && 0 <= p2 < p + 1 && 0 <= c < lists@[p2]@.len()
                    && lists@[p2]@[c].left == nxt@[k2].left && lists@[p2]@[c].right
                    == nxt@[k2].right implies nxt@[k2].dists@[p2] == lists@[p2]@[c].dist by {
                let q2 = choose|q2: int|
                    0 <= q2 < nq && (#[trigger] nxt@[k2]).left == out@[q2].left && nxt@[k2].right
                        == out@[q2].right && nxt@[k2].dists@ =~= out@[q2].dists@.push(
                        nxt@[k2].dists@[p as int],
                    ) && cand_in(lst@, nxt@[k2].left as int, nxt@[k2].right as int);
                if p2 < p {
                    assert(nxt@[k2].dists@[p2] == out@[q2].dists@[p2]);
                    assert(out@[q2].dists@[p2] == lists@[p2]@[c].dist);
                } else {
                    assert(lst@[c] == lists@[p2]@[c]);
                    assert(nxt@[k2].dists@[p as int] == lst@[c].dist);
                }
            }
        }
        out = nxt;
        p += 1;
    }
    out
}

/// Lexicographic order on row pairs.
pub open spec fn lex_le(a: PairRec, b: PairRec) -> bool {
    a.left < b.left || (a.left == b.left && a.right <= b.right)
}

/// The records are sorted ascending by (left row, right row).
pub open spec fn sorted_lex(rs: Seq<PairRec>) -> bool {
    forall|k1: int, k2: int| 0 <= k1 <= k2 < rs.len() ==> lex_le(#[trigger] rs[k1], #[trigger] rs[k2])
}

/// A record with this pair and these distances occurs in `s`.
pub open spec fn rec_present(s: Seq<PairRec>, x: PairRec) -> bool {
    exists|k: int|
        0 <= k < s.len() && (#[trigger] s[k]).left == x.left && s[k].right == x.right && s[k].dists@
            == x.dists@
}

fn lex_le_exec(a: &PairRec, b: &PairRec) -> (r: bool)
    ensures
        r == lex_le(*a, *b),
{
    a.left < b.left || (a.left == b.left && a.right <= b.right)
}

fn clone_rec(x: &PairRec) -> (r: PairRec)
    ensures
        r.left == x.left,
        r.right == x.right,
        r.dists@ == x.dists@,
{
    PairRec { left: x.left, right: x.right, dists: clone_dists(&x.dists) }
}

/// Sorts the survivor records ascending by (left row, right row), for a
/// deterministic final transpose.
#[verifier::rlimit(40)]
pub fn sort_recs(input: &Vec<PairRec>) -> (r: Vec<PairRec>)
    requires
        recs_unique(input@),
    ensures
        sorted_lex(r@),
        r@.len() == input@.len(),
        recs_unique(r@),
        forall|k: int| 0 <= k < r@.len() ==> rec_present(input@, #[trigger] r@[k]),
        forall|k: int| 0 <= k < input@.len() ==> rec_present(r@, #[trigger] input@[k]),
{
    let n = input.len();
    let mut r: Vec<PairRec> = Vec::new();
    let mut j: usize = 0;
    while j < n
        invariant
            0 <= j <= n,
            n == input@.len(),
            recs_unique(input@),
            r@.len() == j,
            sorted_lex(r@),
            recs_unique(r@),
            forall|k: int|
                0 <= k < r@.len() ==> exists|k2: int|
                    0 <= k2 < j && (#[trigger] r@[k]).left == input@[k2].left && r@[k].right
                        == input@[k2].right && r@[k].dists@ == input@[k2].dists@,
            forall|k2: int| 0 <= k2 < j ==> rec_present(r@, #[trigger] input@[k2]),
        decreases n - j,
    {
        let x = clone_rec(&input[j]);
        let m = r.len();
        let mut pos: usize = 0;
        while pos < m && lex_le_exec(&r[pos], &x)
            invariant
                0 <= pos <= m,
                m == r@.len(),
                forall|k: int| 0 <= k < pos ==> lex_le(#[trigger] r@[k], x),
            decreases m - pos,
        {
            pos += 1;
        }
        proof {
            if pos < m {
                assert(!lex_le(r@[pos as int], x));
            }
        }
        let ghost old_r = r@;
        let ghost gx = x;
        r.insert(pos, x);
        j += 1;
        proof {
            assert(r@ == old_r.insert(pos as int, gx));
            old_r.insert_ensures(pos as int, gx);
            assert(gx.left == input@[j - 1].left && gx.right == input@[j - 1].right && gx.dists@
                == input@[j - 1].dists@);
            assert forall|k1: int, k2: int| 0 <= k1 <= k2 < r@.len() implies lex_le(
                #[trigger] r@[k1],
                #[trigger] r@[k2],
            ) by {
                let a = if k1 < pos {
                    old_r[k1]
                } else if k1 == pos {
                    gx
                } else {
                    old_r[k1 - 1]
                };
                let b = if k2 < pos {
                    old_r[k2]
                } else if k2 == pos {
                    gx
                } else {
                    old_r[k2 - 1]
                };
                assert(r@[k1] == a && r@[k2] == b);
                if k1 < pos && k2 == pos {
                    assert(lex_le(old_r[k1], gx));
                } else if k1 == pos && k2 > pos {
                    assert(!lex_le(old_r[pos as int], gx));
                    assert(lex_le(old_r[pos as int], old_r[k2 - 1]));
                } else if k1 < pos && k2 > pos {
                    assert(lex_le(old_r[k1], old_r[k2 - 1]));
                }
            }
            assert forall|k: int| 0 <= k < r@.len() implies exists|k2: int|
                0 <= k2 < j && (#[trigger] r@[k]).left == input@[k2].left && r@[k].right
                    == input@[k2].right && r@[k].dists@ == input@[k2].dists@ by {
                let a = if k < pos {
                    old_r[k]
                } else if k == pos {
                    gx
                } else {
                    old_r[k - 1]
                };
                assert(r@[k] == a);
                if k == pos {
                    assert(r@[k].left == input@[j - 1].left && r@[k].right == input@[j - 1].right
                        && r@[k].dists@ == input@[j - 1].dists@);
                }
            }
            assert forall|k1: int, k2: int| 0 <= k1 < k2 < r@.len() implies !(r@[k1].left
                == r@[k2].left && r@[k1].right == r@[k2].right) by {
                let a = if k1 < pos {
                    old_r[k1]
                } else if k1 == pos {
                    gx
                } else {
                    old_r[k1 - 1]
                };
                let b = if k2 < pos {
                    old_r[k2]
                } else if k2 == pos {
                    gx
                } else {
                    old_r[k2 - 1]
                };
                assert(r@[k1] == a && r@[k2] == b);
                if k1 == pos || k2 == pos {
                    let o = if k1 == pos {
                        b
                    } else {
                        a
                    };
                    if o.left == gx.left && o.right == gx.right {
                        // the old record stems from an earlier input record
                        // with the same pair, contradicting input uniqueness
                        let k3 = choose|k3: int|
                            0 <= k3 < j - 1 && o.left == (#[trigger] input@[k3]).left && o.right
                                == input@[k3].right && o.dists@ == input@[k3].dists@;
                        assert(!(input@[k3].left == input@[j - 1].left && input@[k3].right
                            == input@[j - 1].right));
                        assert(false);
                    }
                }
            }
            assert forall|k2: int| 0 <= k2 < j implies rec_present(r@, #[trigger] input@[k2]) by {
                if k2 == j - 1 {
                    assert(r@[pos as int].left == input@[k2].left && r@[pos as int].right
                        == input@[k2].right && r@[pos as int].dists@ == input@[k2].dists@);
                } else {
                    let k = choose|k: int|
                        0 <= k < old_r.len() && (#[trigger] old_r[k]).left == input@[k2].left
                            && old_r[k].right == input@[k2].right && old_r[k].dists@
                            == input@[k2].dists@;
                    if k < pos {
                        assert(old_r.insert(pos as int, gx)[k] == old_r[k]);
                        assert(r@[k].left == input@[k2].left && r@[k].right == input@[k2].right
                            && r@[k].dists@ == input@[k2].dists@);
                    } else {
                        assert(old_r.insert(pos as int, gx)[k + 1] == old_r[k]);
                        assert(r@[k + 1].left == input@[k2].left && r@[k + 1].right
                            == input@[k2].right && r@[k + 1].dists@ == input@[k2].dists@);
                    }
                }
            }
        }
    }
    r
}

/// The transposed survivor set: positionally paired row index sequences and
/// one distance row per key pair, aligned to the same pairing.
pub struct MatchResult {
    pub left_rows: Vec<usize>,
    pub right_rows: Vec<usize>,
    pub dists: Vec<Vec<Dist>>,
}

/// Transposes the sorted survivor records into the output shape.
pub fn transpose_recs(recs: &Vec<PairRec>, nkeys: usize) -> (r: MatchResult)
    requires
        forall|k: int| 0 <= k < recs@.len() ==> (#[trigger] recs@[k]).dists@.len() == nkeys,
    ensures
        r.left_rows@.len() == recs@.len(),
        r.right_rows@.len() == recs@.len(),
        r.dists@.len() == nkeys,
        forall|k: int|
            0 <= k < recs@.len() ==> r.left_rows@[k] == (#[trigger] recs@[k]).left
                && r.right_rows@[k] == recs@[k].right,
        forall|p: int| 0 <= p < nkeys ==> (#[trigger] r.dists@[p])@.len() == recs@.len(),
        forall|p: int, k: int|
            #![trigger r.dists@[p]@[k]]
            0 <= p < nkeys && 0 <= k < recs@.len() ==> r.dists@[p]@[k] == recs@[k].dists@[p],
{
    let n = recs.len();
    let mut left_rows: Vec<usize> = Vec::new();
    let mut right_rows: Vec<usize> = Vec::new();
    let mut k: usize = 0;
    while k < n
        invariant
            0 <= k <= n,
            n == recs@.len(),
            left_rows@.len() == k,
            right_rows@.len() == k,
            forall|k2: int|
                0 <= k2 < k ==> left_rows@[k2] == (#[trigger] recs@[k2]).left && right_rows@[k2]
                    == recs@[k2].right,
        decreases n - k,
    {
        left_rows.push(recs[k].left);
        right_rows.push(recs[k].right);
        k += 1;
    }
    let mut dists: Vec<Vec<Dist>> = Vec::new();
    let mut p: usize = 0;
    while p < nkeys
        invariant
            0 <= p <= nkeys,
            n == recs@.len(),
            forall|k2: int| 0 <= k2 < recs@.len() ==> (#[trigger] recs@[k2]).dists@.len() == nkeys,
            dists@.len() == p,
            forall|p2: int| 0 <= p2 < p ==> (#[trigger] dists@[p2])@.len() == n,
            forall|p2: int, k2: int|
                #![trigger dists@[p2]@[k2]]
                0 <= p2 < p && 0 <= k2 < n ==> dists@[p2]@[k2] == recs@[k2].dists@[p2],
        decreases nkeys - p,
    {
        let mut row: Vec<Dist> = Vec::new();
        let mut k2: usize = 0;
        while k2 < n
            invariant
                0 <= k2 <= n,
                0 <= p < nkeys,
                n == recs@.len(),
                forall|k3: int|
                    0 <= k3 < recs@.len() ==> (#[trigger] recs@[k3]).dists@.len() == nkeys,
                row@.len() == k2,
                forall|k3: int| 0 <= k3 < k2 ==> row@[k3] == recs@[k3].dists@[p as int],
            decreases n - k2,
        {
            row.push(recs[k2].dists[p]);
            k2 += 1;
        }
        dists.push(row);
        p += 1;
    }
    MatchResult { left_rows, right_rows, dists }
}

} // verus!
