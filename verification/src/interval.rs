//! The interval overlap matcher: pairs two interval columns under a match
//! mode (any overlap, containment, start- or end-alignment) with a maximum
//! gap and a minimum overlap length.  The right side is sorted by start once
//! and each left interval binary-searches its scan prefix.

use vstd::prelude::*;
use rayon::iter::{IndexedParallelIterator, IntoParallelRefIterator, ParallelIterator};
use crate::types::Error;

verus! {

/// How two intervals must relate to match.
#[derive(PartialEq, Eq, Structural, Clone, Copy, Debug)]
pub enum OverlapType {
    /// Overlap, or lie within the gap tolerance of each other.
    Any,
    /// The left interval lies within the right one (to the gap tolerance).
    Within,
    /// The start coordinates agree (to the gap tolerance).
    Start,
    /// The end coordinates agree (to the gap tolerance).
    End,
}

/// The gap between two intervals: zero when they overlap, otherwise the
/// signed distance between the nearer edges.
pub open spec fn igap(ls: int, le: int, rs: int, re: int) -> int {
    if le < rs {
        rs - le
    } else if re < ls {
        ls - re
    } else {
        0
    }
}

/// The overlap length of two intervals: the length of their intersection,
/// never negative.
pub open spec fn ioverlap(ls: int, le: int, rs: int, re: int) -> int {
    let lo = if ls >= rs {
        ls
    } else {
        rs
    };
    let hi = if le <= re {
        le
    } else {
        re
    };
    if hi - lo >= 0 {
        hi - lo
    } else {
        0
    }
}

/// The mode-specific constraint, each alignment allowed the gap tolerance.
pub open spec fn sem_ok(mode: OverlapType, ls: int, le: int, rs: int, re: int, maxgap: int) -> bool {
    match mode {
        OverlapType::Any => true,
        OverlapType::Within => ls >= rs - maxgap && le <= re + maxgap,
        OverlapType::Start => -maxgap <= ls - rs <= maxgap,
        OverlapType::End => -maxgap <= le - re <= maxgap,
    }
}

/// When a pair of intervals matches: gap within tolerance, overlap long
/// enough, and the mode's own constraint.
pub open spec fn interval_match(
    mode: OverlapType,
    ls: int,
    le: int,
    rs: int,
    re: int,
    maxgap: int,
    minoverlap: int,
) -> bool {
    &&& igap(ls, le, rs, re) <= maxgap
    &&& ioverlap(ls, le, rs, re) >= minoverlap
    &&& sem_ok(mode, ls, le, rs, re, maxgap)
}

/// Interval gap law: the gap of two valid intervals is zero exactly when
/// they overlap, and it is symmetric in its two intervals.
pub proof fn lemma_gap(ls: int, le: int, rs: int, re: int)
    requires
        ls <= le,
        rs <= re,
    ensures
        igap(ls, le, rs, re) == 0 <==> (ls <= re && rs <= le),
        igap(ls, le, rs, re) == igap(rs, re, ls, le),
        igap(ls, le, rs, re) >= 0,
{
}

/// Gap-tolerance monotonicity: a pair matching under one gap tolerance
/// matches under every larger one, the minimum overlap unchanged.
pub proof fn lemma_gap_monotonic(
    mode: OverlapType,
    ls: int,
    le: int,
    rs: int,
    re: int,
    g1: int,
    g2: int,
    minoverlap: int,
)
    requires
        g1 <= g2,
        interval_match(mode, ls, le, rs, re, g1, minoverlap),
    ensures
        interval_match(mode, ls, le, rs, re, g2, minoverlap),
{
}

/// Whether some pair in `ps` joins left row `i` with right row `j`
/// (1-based).
pub open spec fn pair_in(ps: Seq<(usize, usize)>, i: usize, j: usize) -> bool {
    exists|k: int| 0 <= k < ps.len() && ps[k] == (i, j)
}

/// No row pair occurs twice.
pub open spec fn pairs_unique(ps: Seq<(usize, usize)>) -> bool {
    forall|k1: int, k2: int| 0 <= k1 < k2 < ps.len() ==> ps[k1] != ps[k2]
}

/// Checks that every interval of a column has `start <= end`, reporting the
/// first violating row.
fn check_intervals(col: &Vec<(i32, i32)>, left_side: bool) -> (r: Result<(), Error>)
    ensures
        r is Ok <==> forall|k: int| 0 <= k < col@.len() ==> (#[trigger] col@[k]).0 <= col@[k].1,
        r matches Err(e) ==> exists|k: int|
            0 <= k < col@.len() && (#[trigger] col@[k]).0 > col@[k].1 && e == (Error::InvalidInterval {
                row: (k + 1) as usize,
                left_side,
            }),
{
    let n = col.len();
    let mut k: usize = 0;
    while k < n
        invariant
            0 <= k <= n,
            n == col@.len(),
            forall|k2: int| 0 <= k2 < k ==> (#[trigger] col@[k2]).0 <= col@[k2].1,
        decreases n - k,
    {
        let (s, e) = col[k];
        if s > e {
            proof {
                assert((#[trigger] col@[k as int]).0 > col@[k as int].1);
            }
            return Err(Error::InvalidInterval { row: k + 1, left_side });
        }
        k += 1;
    }
    Ok(())
}

/// A start-sorted copy of the right intervals, each entry carrying its
/// 0-based source row.
pub open spec fn sorted_by_start(s: Seq<(i32, i32, usize)>) -> bool {
    forall|k1: int, k2: int| 0 <= k1 <= k2 < s.len() ==> (#[trigger] s[k1]).0 <= (#[trigger] s[k2]).0
}

/// Every source row index occurs in the sorted copy.
pub open spec fn idx_present(s: Seq<(i32, i32, usize)>, j: int) -> bool {
    exists|k: int| 0 <= k < s.len() && (#[trigger] s[k]).2 == j
}

/// The sorted copy lists genuine entries of the column, every row once.
pub open spec fn sorted_wf(s: Seq<(i32, i32, usize)>, col: Seq<(i32, i32)>) -> bool {
    &&& sorted_by_start(s)
    &&& s.len() == col.len()
    &&& forall|k: int|
        0 <= k < s.len() ==> (#[trigger] s[k]).2 < col.len() && ((s[k].0, s[k].1) == col[s[k].2 as int])
    &&& forall|j: int| 0 <= j < col.len() ==> idx_present(s, j)
    &&& forall|k1: int, k2: int| 0 <= k1 < k2 < s.len() ==> (#[trigger] s[k1]).2 != (#[trigger] s[k2]).2
}

/// Sorts the right intervals by start coordinate, by insertion.
fn sort_by_start(col: &Vec<(i32, i32)>) -> (r: Vec<(i32, i32, usize)>)
    ensures
        sorted_wf(r@, col@),
{
    let n = col.len();
    let mut r: Vec<(i32, i32, usize)> = Vec::new();
    let mut j: usize = 0;
    while j < n
        invariant
            0 <= j <= n,
            n == col@.len(),
            r@.len() == j,
            sorted_by_start(r@),
            forall|k: int|
                0 <= k < r@.len() ==> (#[trigger] r@[k]).2 < j && ((r@[k].0, r@[k].1)
                    == col@[r@[k].2 as int]),
            forall|j2: int| 0 <= j2 < j ==> idx_present(r@, j2),
            forall|k1: int, k2: int|
                0 <= k1 < k2 < r@.len() ==> (#[trigger] r@[k1]).2 != (#[trigger] r@[k2]).2,
        decreases n - j,
    {
        let (s, e) = col[j];
        let x = (s, e, j);
        // find the first position whose start exceeds the new entry's
        let m = r.len();
        let mut pos: usize = 0;
        while pos < m && r[pos].0 <= s
            invariant
                0 <= pos <= m,
                m == r@.len(),
                forall|k: int| 0 <= k < pos ==> (#[trigger] r@[k]).0 <= s,
            decreases m - pos,
        {
            pos += 1;
        }
        proof {
            if pos < m {
                assert(r@[pos as int].0 > s);
            }
        }
        let ghost old_r = r@;
        r.insert(pos, x);
        j += 1;
        proof {
            assert(r@ == old_r.insert(pos as int, x));
            old_r.insert_ensures(pos as int, x);
            assert forall|k: int| 0 <= k < r@.len() implies ((#[trigger] r@[k]).2 < j && ((
            r@[k].0,
            r@[k].1,
        ) == col@[r@[k].2 as int])) by {
                if k < pos {
                    assert(r@[k] == old_r[k]);
                } else if k == pos {
                    assert(r@[k] == x);
                } else {
                    assert(r@[k] == old_r[k - 1]);
                }
            }
            assert forall|k1: int, k2: int| 0 <= k1 <= k2 < r@.len() implies (#[trigger] r@[k1]).0
                <= (#[trigger] r@[k2]).0 by {
                let a = if k1 < pos {
                    old_r[k1]
                } else if k1 == pos {
                    x
                } else {
                    old_r[k1 - 1]
                };
                let b = if k2 < pos {
                    old_r[k2]
                } else if k2 == pos {
                    x
                } else {
                    old_r[k2 - 1]
                };
                assert(r@[k1] == a && r@[k2] == b);
                if k1 < pos && k2 == pos {
                    assert(old_r[k1].0 <= s);
                } else if k1 == pos && k2 > pos {
                    assert(old_r[k2 - 1].0 >= old_r[pos as int].0);
                    assert(old_r[pos as int].0 > s);
                } else if k1 < pos && k2 > pos {
                    assert(old_r[k1].0 <= old_r[k2 - 1].0);
                }
            }
            assert forall|j2: int| 0 <= j2 < j implies idx_present(r@, j2) by {
                if j2 == j - 1 {
                    assert(r@[pos as int].2 == j2);
                } else {
                    assert(idx_present(old_r, j2));
                    let k = choose|k: int| 0 <= k < old_r.len() && (#[trigger] old_r[k]).2 == j2;
                    if k < pos {
                        assert(old_r.insert(pos as int, x)[k] == old_r[k]);
                        assert(r@[k].2 == j2);
                    } else {
                        assert(old_r.insert(pos as int, x)[k + 1] == old_r[k]);
                        assert(r@[k + 1].2 == j2);
                    }
                }
            }
            assert forall|k1: int, k2: int| 0 <= k1 < k2 < r@.len() implies (#[trigger] r@[k1]).2
                != (#[trigger] r@[k2]).2 by {
                let a = if k1 < pos {
                    old_r[k1]
                } else if k1 == pos {
                    x
                } else {
                    old_r[k1 - 1]
                };
                let b = if k2 < pos {
                    old_r[k2]
                } else if k2 == pos {
                    x
                } else {
                    old_r[k2 - 1]
                };
                assert(r@[k1] == a && r@[k2] == b);
                if k1 == pos || k2 == pos {
                    assert(x.2 == j - 1);
                }
            }
        }
    }
    proof {
        assert forall|j2: int| 0 <= j2 < col@.len() implies idx_present(r@, j2) by {}
    }
    r
}

/// The first index of the sorted array whose start exceeds `bound`; all
/// entries before it start at or below the bound, all entries from it on
/// start above it.
fn search_cut(sorted: &Vec<(i32, i32, usize)>, bound: i64) -> (cut: usize)
    requires
        sorted_by_start(sorted@),
    ensures
        0 <= cut <= sorted@.len(),
        forall|k: int| 0 <= k < cut ==> (#[trigger] sorted@[k]).0 <= bound,
        forall|k: int| cut <= k < sorted@.len() ==> (#[trigger] sorted@[k]).0 > bound,
{
    let n = sorted.len();
    let mut lo: usize = 0;
    let mut hi: usize = n;
    while lo < hi
        invariant
            0 <= lo <= hi <= n,
            n == sorted@.len(),
            sorted_by_start(sorted@),
            forall|k: int| 0 <= k < lo ==> (#[trigger] sorted@[k]).0 <= bound,
            forall|k: int| hi <= k < n ==> (#[trigger] sorted@[k]).0 > bound,
        decreases hi - lo,
    {
        let mid = lo + (hi - lo) / 2;
        if (sorted[mid].0 as i64) <= bound {
            proof {
                assert forall|k: int| 0 <= k < mid + 1 implies (#[trigger] sorted@[k]).0
                    <= bound by {
                    assert(sorted@[k].0 <= sorted@[mid as int].0);
                }
            }
            lo = mid + 1;
        } else {
            proof {
                assert forall|k: int| mid <= k < n implies (#[trigger] sorted@[k]).0 > bound by {
                    assert(sorted@[k].0 >= sorted@[mid as int].0);
                }
            }
            hi = mid;
        }
    }
    lo
}

/// Exact test of the interval match relation.
fn interval_match_exec(
    mode: OverlapType,
    ls: i32,
    le: i32,
    rs: i32,
    re: i32,
    maxgap: i32,
    minoverlap: i32,
) -> (r: bool)
    ensures
        r == interval_match(
            mode,
            ls as int,
            le as int,
            rs as int,
            re as int,
            maxgap as int,
            minoverlap as int,
        ),
{
    let lsw = ls as i64;
    let lew = le as i64;
    let rsw = rs as i64;
    let rew = re as i64;
    let gap: i64 = if lew < rsw {
        rsw - lew
    } else if rew < lsw {
        lsw - rew
    } else {
        0
    };
    let lo: i64 = if lsw >= rsw {
        lsw
    } else {
        rsw
    };
    let hi: i64 = if lew <= rew {
        lew
    } else {
        rew
    };
    let over: i64 = if hi - lo >= 0 {
        hi - lo
    } else {
        0
    };
    let sem = match mode {
        OverlapType::Any => true,
        OverlapType::Within => lsw >= rsw - (maxgap as i64) && lew <= rew + (maxgap as i64),
        OverlapType::Start => {
            let d = lsw - rsw;
            -(maxgap as i64) <= d && d <= maxgap as i64
        },
        OverlapType::End => {
            let d = lew - rew;
            -(maxgap as i64) <= d && d <= maxgap as i64
        },
    };
    gap <= maxgap as i64 && over >= minoverlap as i64 && sem
}

/// Scans the sorted right intervals for one left interval: the work unit of
/// the parallel phase.  Only the binary-searched prefix is scanned; nothing
/// beyond it can satisfy the gap constraint.
pub fn scan_interval_row(
    i: usize,
    ls: i32,
    le: i32,
    sorted: &Vec<(i32, i32, usize)>,
    rcol: &Vec<(i32, i32)>,
    mode: OverlapType,
    maxgap: i32,
    minoverlap: i32,
) -> (out: Vec<(usize, usize)>)
    requires
        sorted_wf(sorted@, rcol@),
    ensures
        forall|i2: usize, j: usize|
            #![trigger pair_in(out@, i2, j)]
            pair_in(out@, i2, j) <==> (i2 == i && 1 <= j <= rcol@.len() && interval_match(
                mode,
                ls as int,
                le as int,
                rcol@[j - 1].0 as int,
                rcol@[j - 1].1 as int,
                maxgap as int,
                minoverlap as int,
            )),
        pairs_unique(out@),
{
    let bound: i64 = (le as i64) + (maxgap as i64);
    let cut = search_cut(sorted, bound);
    let mut out: Vec<(usize, usize)> = Vec::new();
    let n = rcol.len();
    proof {
        assert(rcol@.len() == n);
    }
    let mut k: usize = 0;
    while k < cut
        invariant
            0 <= k <= cut <= sorted@.len(),
            n == rcol@.len(),
            bound == le + maxgap,
            sorted_wf(sorted@, rcol@),
            forall|k2: int| 0 <= k2 < cut ==> (#[trigger] sorted@[k2]).0 <= bound,
            forall|i2: usize, j: usize|
                #![trigger pair_in(out@, i2, j)]
                pair_in(out@, i2, j) <==> (i2 == i && exists|k2: int|
                    0 <= k2 < k && (#[trigger] sorted@[k2]).2 == j - 1 && 1 <= j <= rcol@.len()
                        && interval_match(
                        mode,
                        ls as int,
                        le as int,
                        rcol@[j - 1].0 as int,
                        rcol@[j - 1].1 as int,
                        maxgap as int,
                        minoverlap as int,
                    )),
            pairs_unique(out@),
            forall|k2: int|
                0 <= k2 < out@.len() ==> exists|k3: int|
                    0 <= k3 < k && (#[trigger] sorted@[k3]).2 == (#[trigger] out@[k2]).1 - 1,
        decreases cut - k,
    {
        let (rs, re, j0) = sorted[k];
        let ghost pre = out@;
        let m = interval_match_exec(mode, ls, le, rs, re, maxgap, minoverlap);
        if m {
            out.push((i, j0 + 1));
            proof {
                assert(out@[out@.len() - 1] == (i, (j0 + 1) as usize));
            }
        }
        k += 1;
        proof {
            let sk = sorted@[k - 1];
            assert((sk.0, sk.1) == rcol@[sk.2 as int]);
            assert forall|i2: usize, j: usize|
                #![trigger pair_in(out@, i2, j)]
                pair_in(out@, i2, j) <==> (i2 == i && exists|k2: int|
                0 <= k2 < k && (#[trigger] sorted@[k2]).2 == j - 1 && 1 <= j <= rcol@.len()
                    && interval_match(
                    mode,
                    ls as int,
                    le as int,
                    rcol@[j - 1].0 as int,
                    rcol@[j - 1].1 as int,
                    maxgap as int,
                    minoverlap as int,
                )) by {
                if pair_in(out@, i2, j) {
                    let kk = choose|kk: int| 0 <= kk < out@.len() && out@[kk] == (i2, j);
                    if kk < pre.len() {
                        assert(out@[kk] == pre[kk]);
                        assert(pair_in(pre, i2, j));
                    } else {
                        assert(out@[kk] == (i, (j0 + 1) as usize));
                        assert(sorted@[k - 1].2 == j - 1);
                    }
                }
                if i2 == i && exists|k2: int|
                    0 <= k2 < k && (#[trigger] sorted@[k2]).2 == j - 1 && 1 <= j <= rcol@.len()
                        && interval_match(
                        mode,
                        ls as int,
                        le as int,
                        rcol@[j - 1].0 as int,
                        rcol@[j - 1].1 as int,
                        maxgap as int,
                        minoverlap as int,
                    ) {
                    let k2 = choose|k2: int|
                        0 <= k2 < k && (#[trigger] sorted@[k2]).2 == j - 1 && 1 <= j
                            <= rcol@.len() && interval_match(
                            mode,
                            ls as int,
                            le as int,
                            rcol@[j - 1].0 as int,
                            rcol@[j - 1].1 as int,
                            maxgap as int,
                            minoverlap as int,
                        );
                    if k2 == k - 1 {
                        assert(j == j0 + 1);
                        assert(m);
                        assert(out@[out@.len() - 1] == (i, j));
                        assert(pair_in(out@, i2, j));
                    } else {
                        assert(pair_in(pre, i2, j));
                        let kk = choose|kk: int| 0 <= kk < pre.len() && pre[kk] == (i2, j);
                        assert(out@[kk] == pre[kk]);
                        assert(pair_in(out@, i2, j));
                    }
                }
            }
            assert forall|k1: int, k2: int| 0 <= k1 < k2 < out@.len() implies out@[k1]
                != out@[k2] by {
                if k2 == out@.len() - 1 && out@.len() > pre.len() {
                    if k1 < pre.len() {
                        assert(out@[k1] == pre[k1]);
                        let k3 = choose|k3: int|
                            0 <= k3 < k - 1 && (#[trigger] sorted@[k3]).2 == (
                            #[trigger] pre[k1]).1 - 1;
                        assert(sorted@[k3].2 != sorted@[(k - 1) as int].2);
                        assert(out@[k2].1 == j0 + 1);
                    }
                } else {
                    assert(out@[k1] == pre[k1] && out@[k2] == pre[k2]);
                }
            }
        }
    }
    proof {
        // beyond the cut no interval can match: its start alone exceeds the
        // gap bound
        assert forall|i2: usize, j: usize|
            #![trigger pair_in(out@, i2, j)]
            pair_in(out@, i2, j) <==> (i2 == i && 1 <= j <= rcol@.len() && interval_match(
            mode,
            ls as int,
            le as int,
            rcol@[j - 1].0 as int,
            rcol@[j - 1].1 as int,
            maxgap as int,
            minoverlap as int,
        )) by {
            if i2 == i && 1 <= j <= rcol@.len() && interval_match(
                mode,
                ls as int,
                le as int,
                rcol@[j - 1].0 as int,
                rcol@[j - 1].1 as int,
                maxgap as int,
                minoverlap as int,
            ) {
                assert(idx_present(sorted@, j - 1));
                let k2 = choose|k2: int|
                    0 <= k2 < sorted@.len() && (#[trigger] sorted@[k2]).2 == j - 1;
                assert((sorted@[k2].0, sorted@[k2].1) == rcol@[j - 1]);
                if k2 >= cut {
                    assert(sorted@[k2].0 > bound);
                    assert(igap(
                        ls as int,
                        le as int,
                        rcol@[j - 1].0 as int,
                        rcol@[j - 1].1 as int,
                    ) > maxgap);
                    assert(false);
                }
            }
        }
    }
    out
}

/// Relies on rayon: `par_iter().map(f).collect::<Vec<_>>()` applies `f` to
/// every element of the slice and collects the results in the elements'
/// order, and `ThreadPool::install` runs the same computation inside a pool
/// of the requested size, built for this one call.  A pool that cannot be
/// built falls back to rayon's default pool.
#[verifier::external_body]
fn par_scan_interval(
    lcol: &Vec<(i32, i32)>,
    sorted: &Vec<(i32, i32, usize)>,
    rcol: &Vec<(i32, i32)>,
    mode: OverlapType,
    maxgap: i32,
    minoverlap: i32,
    nthread: Option<usize>,
) -> (r: Vec<Vec<(usize, usize)>>)
    requires
        sorted_wf(sorted@, rcol@),
    ensures
        r@.len() == lcol@.len(),
        forall|p: int, i2: usize, j: usize|
            #![trigger pair_in(r@[p]@, i2, j)]
            0 <= p < lcol@.len() ==> (pair_in(r@[p]@, i2, j) <==> (i2 == (p + 1) as usize && 1 <= j
                <= rcol@.len() && interval_match(
                mode,
                lcol@[p].0 as int,
                lcol@[p].1 as int,
                rcol@[j - 1].0 as int,
                rcol@[j - 1].1 as int,
                maxgap as int,
                minoverlap as int,
            ))),
        forall|p: int| 0 <= p < lcol@.len() ==> pairs_unique(#[trigger] r@[p]@),
{
    let run = || {
        lcol.par_iter().enumerate().map(
            |(p, iv)| scan_interval_row(p + 1, iv.0, iv.1, sorted, rcol, mode, maxgap, minoverlap),
        ).collect()
    };
    match nthread.and_then(|nt| rayon::ThreadPoolBuilder::new().num_threads(nt).build().ok()) {
        Some(pool) => pool.install(run),
        None => run(),
    }
}

/// Matched row pairs of an interval join: every pair of valid intervals
/// that overlaps under the mode, gap tolerance and minimum overlap, each
/// pair once.  An interval with `start > end` on either side is fatal.
pub fn fuzzy_indices_interval_int(
    left: &Vec<(i32, i32)>,
    right: &Vec<(i32, i32)>,
    mode: OverlapType,
    maxgap: i32,
    minoverlap: i32,
    nthread: Option<usize>,
) -> (r: Result<Vec<(usize, usize)>, Error>)
    ensures
        r is Ok <==> (forall|k: int|
            0 <= k < left@.len() ==> (#[trigger] left@[k]).0 <= left@[k].1) && (forall|k: int|
            0 <= k < right@.len() ==> (#[trigger] right@[k]).0 <= right@[k].1),
        r matches Err(e) ==> e is InvalidInterval,
        r matches Ok(ps) ==> {
            &&& forall|i: usize, j: usize|
                #![trigger pair_in(ps@, i, j)]
                pair_in(ps@, i, j) <==> (1 <= i <= left@.len() && 1 <= j <= right@.len()
                    && interval_match(
                    mode,
                    left@[i - 1].0 as int,
                    left@[i - 1].1 as int,
                    right@[j - 1].0 as int,
                    right@[j - 1].1 as int,
                    maxgap as int,
                    minoverlap as int,
                ))
            &&& pairs_unique(ps@)
        },
{
    if let Err(e) = check_intervals(left, true) {
        return Err(e);
    }
    if let Err(e) = check_intervals(right, false) {
        return Err(e);
    }
    let sorted = sort_by_start(right);
    let lists = par_scan_interval(left, &sorted, right, mode, maxgap, minoverlap, nthread);
    let np = lists.len();
    let mut out: Vec<(usize, usize)> = Vec::new();
    let mut p: usize = 0;
    while p < np
        invariant
            0 <= p <= np,
            np == lists@.len() == left@.len(),
            forall|p2: int, i2: usize, j: usize|
                #![trigger pair_in(lists@[p2]@, i2, j)]
                0 <= p2 < np ==> (pair_in(lists@[p2]@, i2, j) <==> (i2 == (p2 + 1) as usize && 1
                    <= j <= right@.len() && interval_match(
                    mode,
                    left@[p2].0 as int,
                    left@[p2].1 as int,
                    right@[j - 1].0 as int,
                    right@[j - 1].1 as int,
                    maxgap as int,
                    minoverlap as int,
                ))),
            forall|p2: int| 0 <= p2 < np ==> pairs_unique(#[trigger] lists@[p2]@),
            forall|i2: usize, j: usize|
                #![trigger pair_in(out@, i2, j)]
                pair_in(out@, i2, j) <==> (1 <= i2 <= p && 1 <= j <= right@.len()
                    && interval_match(
                    mode,
                    left@[i2 - 1].0 as int,
                    left@[i2 - 1].1 as int,
                    right@[j - 1].0 as int,
                    right@[j - 1].1 as int,
                    maxgap as int,
                    minoverlap as int,
                )),
            pairs_unique(out@),
            forall|k: int| 0 <= k < out@.len() ==> 1 <= (#[trigger] out@[k]).0 <= p,
        decreases np - p,
    {
        let ghost pre = out@;
        let lst = &lists[p];
        let nc = lst.len();
        let mut k: usize = 0;
        while k < nc
            invariant
                0 <= k <= nc,
                nc == lst@.len(),
                out@.len() == pre.len() + k,
                forall|k2: int| 0 <= k2 < pre.len() ==> out@[k2] == pre[k2],
                forall|k2: int| 0 <= k2 < k ==> out@[pre.len() + k2] == lst@[k2],
            decreases nc - k,
        {
            let c = lst[k];
            out.push(c);
            k += 1;
        }
        p += 1;
        proof {
            let cs = lst@;
            assert forall|i2: usize, j: usize|
                #![trigger pair_in(out@, i2, j)]
                pair_in(out@, i2, j) <==> (1 <= i2 <= p && 1 <= j <= right@.len()
                && interval_match(
                mode,
                left@[i2 - 1].0 as int,
                left@[i2 - 1].1 as int,
                right@[j - 1].0 as int,
                right@[j - 1].1 as int,
                maxgap as int,
                minoverlap as int,
            )) by {
                if pair_in(out@, i2, j) {
                    let kk = choose|kk: int| 0 <= kk < out@.len() && out@[kk] == (i2, j);
                    if kk < pre.len() {
                        assert(out@[kk] == pre[kk]);
                        assert(pair_in(pre, i2, j));
                    } else {
                        assert(out@[pre.len() + (kk - pre.len())] == cs[kk - pre.len()]);
                        assert(pair_in(cs, i2, j));
                    }
                }
                if 1 <= i2 <= p && 1 <= j <= right@.len() && interval_match(
                    mode,
                    left@[i2 - 1].0 as int,
                    left@[i2 - 1].1 as int,
                    right@[j - 1].0 as int,
                    right@[j - 1].1 as int,
                    maxgap as int,
                    minoverlap as int,
                ) {
                    if i2 <= p - 1 {
                        assert(pair_in(pre, i2, j));
                        let kk = choose|kk: int| 0 <= kk < pre.len() && pre[kk] == (i2, j);
                        assert(out@[kk] == pre[kk]);
                        assert(pair_in(out@, i2, j));
                    } else {
                        assert(pair_in(cs, i2, j));
                        let kk = choose|kk: int| 0 <= kk < cs.len() && cs[kk] == (i2, j);
                        assert(out@[pre.len() + kk] == cs[kk]);
                        assert(pair_in(out@, i2, j));
                    }
                }
            }
            assert forall|k1: int, k2: int| 0 <= k1 < k2 < out@.len() implies out@[k1]
                != out@[k2] by {
                if k1 < pre.len() && k2 >= pre.len() {
                    assert(out@[k1] == pre[k1]);
                    assert(out@[pre.len() + (k2 - pre.len())] == cs[k2 - pre.len()]);
                    assert(pair_in(cs, cs[k2 - pre.len()].0, cs[k2 - pre.len()].1));
                    assert(out@[k2].0 == p);
                    assert(out@[k1].0 <= p - 1);
                } else if k2 < pre.len() {
                    assert(out@[k1] == pre[k1] && out@[k2] == pre[k2]);
                } else if k1 >= pre.len() {
                    assert(out@[pre.len() + (k1 - pre.len())] == cs[k1 - pre.len()]);
                    assert(out@[pre.len() + (k2 - pre.len())] == cs[k2 - pre.len()]);
                }
            }
            assert forall|k2: int| 0 <= k2 < out@.len() implies 1 <= (#[trigger] out@[k2]).0
                <= p by {
                if k2 >= pre.len() {
                    assert(out@[pre.len() + (k2 - pre.len())] == cs[k2 - pre.len()]);
                    assert(pair_in(cs, cs[k2 - pre.len()].0, cs[k2 - pre.len()].1));
                } else {
                    assert(out@[k2] == pre[k2]);
                }
            }
        }
    }
    Ok(out)
}

} // verus!
