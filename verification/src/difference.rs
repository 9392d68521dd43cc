//! The numeric tolerance ("difference") matcher: pairs two numeric key
//! columns when `|x - y| <= max_distance`, pruning with buckets of width
//! equal to the tolerance, so that any match lies in the query's own bucket
//! or one of its two neighbours.

use vstd::prelude::*;
use rayon::iter::{IntoParallelRefIterator, ParallelIterator};
use vstd::arithmetic::div_mod::{lemma_div_is_ordered, lemma_div_plus_one};
use crate::types::{cand_in, cands_unique, Candidate, Dist};

verus! {

/// The shift mapping `i64` onto the non-negative range.
pub const NUM_SHIFT: i128 = 0x8000_0000_0000_0000;

/// The bucket a value falls into at width `w`: its shifted value divided by
/// the width.
pub open spec fn bucket_of(v: int, w: int) -> int {
    (v + NUM_SHIFT) / w
}

/// Bucket soundness: two values within `w` of each other land in buckets at
/// most one apart, so scanning a query's bucket and its two neighbours never
/// skips a true match.
pub proof fn lemma_bucket_soundness(x: int, y: int, w: int)
    requires
        w >= 1,
        x - y <= w,
        y - x <= w,
    ensures
        bucket_of(x, w) - bucket_of(y, w) <= 1,
        bucket_of(y, w) - bucket_of(x, w) <= 1,
{
    let sx = x + NUM_SHIFT;
    let sy = y + NUM_SHIFT;
    lemma_div_is_ordered(sy, sx + w, w);
    lemma_div_is_ordered(sx, sy + w, w);
    lemma_div_plus_one(sx, w);
    lemma_div_plus_one(sy, w);
    assert(sx + w == w + sx && sy + w == w + sy);
}

/// Computes the bucket of a value at width `w`.
fn bucket_exec(v: i64, w: u64) -> (r: u64)
    requires
        w >= 1,
    ensures
        r == bucket_of(v as int, w as int),
{
    let shifted: u64 = ((v as i128) + NUM_SHIFT) as u64;
    shifted / w
}

/// `|x - y|` computed exactly; the magnitude of any `i64` difference fits
/// in a `u64`.
fn abs_diff(x: i64, y: i64) -> (r: u64)
    ensures
        r == if x >= y {
            (x - y) as int
        } else {
            (y - x) as int
        },
{
    let d: i128 = (x as i128) - (y as i128);
    if d >= 0 {
        d as u64
    } else {
        (-d) as u64
    }
}

/// When a pair of numeric key values matches: both present and within the
/// tolerance.
pub open spec fn num_included(a: Option<i64>, b: Option<i64>, maxd: u64) -> bool {
    &&& a is Some
    &&& b is Some
    &&& a->0 - b->0 <= maxd
    &&& b->0 - a->0 <= maxd
}

/// Threshold monotonicity for the numeric tolerance: a pair within one
/// tolerance is within every larger one.
pub proof fn lemma_num_threshold_monotonic(a: Option<i64>, b: Option<i64>, d1: u64, d2: u64)
    requires
        d1 <= d2,
        num_included(a, b, d1),
    ensures
        num_included(a, b, d2),
{
}

/// The distance of a matched numeric pair.
pub open spec fn num_dist(a: Option<i64>, b: Option<i64>) -> Dist {
    match (a, b) {
        (Some(x), Some(y)) => Dist::Exact(
            if x >= y {
                (x - y) as u64
            } else {
                (y - x) as u64
            },
        ),
        _ => Dist::Unknown,
    }
}

/// One bucket of right-side values: the bucket index and the rows (1-based,
/// with their values) whose value falls in it.
pub struct NumBucket {
    pub key: u64,
    pub entries: Vec<(usize, i64)>,
}

/// The (1-based row, value) pairs of `col` whose value falls in bucket `b`
/// at width `w`, in increasing row order.
pub open spec fn bucket_rows_of(col: Seq<Option<i64>>, w: int, b: u64) -> Seq<(usize, i64)>
    decreases col.len(),
{
    if col.len() == 0 {
        Seq::empty()
    } else {
        let rest = bucket_rows_of(col.drop_last(), w, b);
        match col.last() {
            Some(y) => if bucket_of(y as int, w) == b {
                rest.push((col.len() as usize, y))
            } else {
                rest
            },
            None => rest,
        }
    }
}

/// A row is listed in a bucket exactly when it holds a value falling there.
pub proof fn lemma_bucket_rows_contains(col: Seq<Option<i64>>, w: int, b: u64, e: (usize, i64))
    requires
        col.len() <= usize::MAX,
    ensures
        bucket_rows_of(col, w, b).contains(e) <==> 1 <= e.0 <= col.len() && col[e.0 - 1] == Some(
            e.1,
        ) && bucket_of(e.1 as int, w) == b,
    decreases col.len(),
{
    if col.len() > 0 {
        lemma_bucket_rows_contains(col.drop_last(), w, b, e);
        let rest = bucket_rows_of(col.drop_last(), w, b);
        if rest.contains(e) {
            let k = choose|k: int| 0 <= k < rest.len() && rest[k] == e;
            if col.last() is Some && bucket_of(col.last()->0 as int, w) == b {
                assert(rest.push((col.len() as usize, col.last()->0))[k] == e);
            }
            assert(col.drop_last()[e.0 - 1] == col[e.0 - 1]);
        }
        match col.last() {
            Some(y) => {
                if bucket_of(y as int, w) == b {
                    let p = rest.push((col.len() as usize, y));
                    assert(p[p.len() - 1] == (col.len() as usize, y));
                    assert(p.contains((col.len() as usize, y)));
                    if p.contains(e) && e != (col.len() as usize, y) {
                        let k = choose|k: int| 0 <= k < p.len() && p[k] == e;
                        assert(k < rest.len());
                        assert(rest.contains(e));
                    }
                }
            },
            None => {},
        }
        if 1 <= e.0 <= col.len() - 1 && col[e.0 - 1] == Some(e.1) && bucket_of(e.1 as int, w)
            == b {
            assert(col.drop_last()[e.0 - 1] == col[e.0 - 1]);
        }
    }
}

/// Rows are listed at most once per bucket, with rows in range.
pub proof fn lemma_bucket_rows_no_dup(col: Seq<Option<i64>>, w: int, b: u64)
    requires
        col.len() <= usize::MAX,
    ensures
        forall|k1: int, k2: int|
            0 <= k1 < k2 < bucket_rows_of(col, w, b).len() ==> bucket_rows_of(col, w, b)[k1].0
                != bucket_rows_of(col, w, b)[k2].0,
        forall|k: int|
            0 <= k < bucket_rows_of(col, w, b).len() ==> 1 <= (#[trigger] bucket_rows_of(
                col,
                w,
                b,
            )[k]).0 <= col.len(),
    decreases col.len(),
{
    if col.len() > 0 {
        lemma_bucket_rows_no_dup(col.drop_last(), w, b);
        let rest = bucket_rows_of(col.drop_last(), w, b);
        match col.last() {
            Some(y) => {
                if bucket_of(y as int, w) == b {
                    let p = rest.push((col.len() as usize, y));
                    assert forall|k1: int, k2: int| 0 <= k1 < k2 < p.len() implies p[k1].0
                        != p[k2].0 by {
                        if k2 == p.len() - 1 {
                            assert(p[k1] == rest[k1]);
                            assert(rest[k1].0 <= col.len() - 1);
                        } else {
                            assert(p[k1] == rest[k1] && p[k2] == rest[k2]);
                        }
                    }
                    assert forall|k: int| 0 <= k < p.len() implies 1 <= (#[trigger] p[k]).0
                        <= col.len() by {
                        if k < p.len() - 1 {
                            assert(p[k] == rest[k]);
                        }
                    }
                }
            },
            None => {},
        }
    }
}

/// A well-formed bucket index for a numeric column at width `w`: each
/// bucket holds exactly the rows falling in it, keys are distinct, and every
/// present value's bucket exists.
pub open spec fn buckets_wf(bs: Seq<NumBucket>, col: Seq<Option<i64>>, w: int) -> bool {
    &&& forall|h: int|
        0 <= h < bs.len() ==> (#[trigger] bs[h]).entries@ == bucket_rows_of(col, w, bs[h].key)
    &&& forall|h1: int, h2: int| 0 <= h1 < h2 < bs.len() ==> bs[h1].key != bs[h2].key
    &&& forall|j: int|
        0 <= j < col.len() && col[j] is Some ==> exists|h: int|
            0 <= h < bs.len() && (#[trigger] bs[h]).key == bucket_of((#[trigger] col[j])->0 as int, w)
}

/// Whether a key is a u64 value within one of another.
pub open spec fn near_key(a: u64, b: u64) -> bool {
    a as int - b as int <= 1 && b as int - a as int <= 1
}

fn near_key_exec(a: u64, b: u64) -> (r: bool)
    ensures
        r == near_key(a, b),
{
    if a >= b {
        a - b <= 1
    } else {
        b - a <= 1
    }
}

/// Builds the bucket index of the right column at width `w`.
fn build_buckets(col: &Vec<Option<i64>>, w: u64) -> (r: Vec<NumBucket>)
    requires
        w >= 1,
    ensures
        buckets_wf(r@, col@, w as int),
{
    let n = col.len();
    let mut keys: Vec<u64> = Vec::new();
    let mut j: usize = 0;
    while j < n
        invariant
            0 <= j <= n,
            n == col@.len(),
            w >= 1,
            forall|k1: int, k2: int| 0 <= k1 < k2 < keys@.len() ==> keys@[k1] != keys@[k2],
            forall|j2: int|
                0 <= j2 < j && col@[j2] is Some ==> keys@.contains(
                    bucket_of((#[trigger] col@[j2])->0 as int, w as int) as u64,
                ),
        decreases n - j,
    {
        let ghost old_keys = keys@;
        match col[j] {
            Some(y) => {
                let b = bucket_exec(y, w);
                let mut found = false;
                let nk = keys.len();
                let mut k: usize = 0;
                while k < nk
                    invariant
                        0 <= k <= nk,
                        nk == keys@.len(),
                        found == exists|k2: int| 0 <= k2 < k && keys@[k2] == b,
                    decreases nk - k,
                {
                    if keys[k] == b {
                        found = true;
                        proof {
                            assert(keys@[k as int] == b);
                        }
                    }
                    k += 1;
                }
                if !found {
                    keys.push(b);
                    proof {
                        assert(keys@[keys@.len() - 1] == b);
                    }
                }
                proof {
                    assert(keys@.contains(b));
                }
            },
            None => {},
        }
        j += 1;
        proof {
            assert forall|j2: int| 0 <= j2 < j && col@[j2] is Some implies keys@.contains(
                bucket_of((#[trigger] col@[j2])->0 as int, w as int) as u64,
            ) by {
                if j2 < j - 1 {
                    let bb = bucket_of(col@[j2]->0 as int, w as int) as u64;
                    let k = choose|k: int| 0 <= k < old_keys.len() && old_keys[k] == bb;
                    assert(keys@[k] == old_keys[k]);
                    assert(keys@.contains(bb));
                }
            }
        }
    }

    let m = keys.len();
    let mut r: Vec<NumBucket> = Vec::new();
    let mut h: usize = 0;
    while h < m
        invariant
            0 <= h <= m,
            m == keys@.len(),
            n == col@.len(),
            w >= 1,
            r@.len() == h,
            forall|k1: int, k2: int| 0 <= k1 < k2 < keys@.len() ==> keys@[k1] != keys@[k2],
            forall|j2: int|
                0 <= j2 < n && col@[j2] is Some ==> keys@.contains(
                    bucket_of((#[trigger] col@[j2])->0 as int, w as int) as u64,
                ),
            forall|h2: int| 0 <= h2 < h ==> (#[trigger] r@[h2]).key == keys@[h2],
            forall|h2: int|
                0 <= h2 < h ==> (#[trigger] r@[h2]).entries@ == bucket_rows_of(
                    col@,
                    w as int,
                    r@[h2].key,
                ),
        decreases m - h,
    {
        let key = keys[h];
        let mut entries: Vec<(usize, i64)> = Vec::new();
        let mut j2: usize = 0;
        proof {
            assert(col@.take(0) =~= Seq::<Option<i64>>::empty());
        }
        while j2 < n
            invariant
                0 <= j2 <= n,
                n == col@.len(),
                w >= 1,
                entries@ == bucket_rows_of(col@.take(j2 as int), w as int, key),
            decreases n - j2,
        {
            proof {
                assert(col@.take(j2 + 1).drop_last() =~= col@.take(j2 as int));
                assert(col@.take(j2 + 1).last() == col@[j2 as int]);
                assert(col@.take(j2 + 1).len() == j2 + 1);
            }
            match col[j2] {
                Some(y) => {
                    let b = bucket_exec(y, w);
                    if b == key {
                        entries.push((j2 + 1, y));
                    }
                },
                None => {},
            }
            j2 += 1;
        }
        proof {
            assert(col@.take(n as int) =~= col@);
        }
        r.push(NumBucket { key, entries });
        h += 1;
    }
    proof {
        assert forall|j3: int| 0 <= j3 < col@.len() && col@[j3] is Some implies exists|h2: int|
            0 <= h2 < r@.len() && (#[trigger] r@[h2]).key == bucket_of(
                (#[trigger] col@[j3])->0 as int,
                w as int,
            ) by {
            let b = bucket_of(col@[j3]->0 as int, w as int) as u64;
            assert(keys@.contains(b));
            let k = choose|k: int| 0 <= k < keys@.len() && keys@[k] == b;
            assert(r@[k].key == b);
        }
    }
    r
}

/// Scans the three near buckets for one left row: the work unit of the
/// numeric matcher's parallel phase.
pub fn scan_num_row(
    i: usize,
    x: i64,
    buckets: &Vec<NumBucket>,
    rcol: &Vec<Option<i64>>,
    maxd: u64,
    w: u64,
) -> (out: Vec<Candidate>)
    requires
        w == if maxd >= 1 {
            maxd
        } else {
            1
        },
        buckets_wf(buckets@, rcol@, w as int),
    ensures
        forall|i2: usize, j: usize|
            #![trigger cand_in(out@, i2 as int, j as int)]
            cand_in(out@, i2 as int, j as int) <==> (i2 == i && 1 <= j <= rcol@.len()
                && num_included(Some(x), rcol@[j - 1], maxd)),
        cands_unique(out@),
        forall|k: int|
            0 <= k < out@.len() ==> (#[trigger] out@[k]).left == i && 1 <= out@[k].right
                <= rcol@.len() && out@[k].dist == num_dist(Some(x), rcol@[out@[k].right - 1]),
{
    let c = bucket_exec(x, w);
    let nh = buckets.len();
    let nr = rcol.len();
    proof {
        assert(rcol@.len() == nr);
    }
    let mut out: Vec<Candidate> = Vec::new();
    let mut h: usize = 0;
    while h < nh
        invariant
            0 <= h <= nh,
            nh == buckets@.len(),
            rcol@.len() <= usize::MAX,
            w == if maxd >= 1 {
                maxd
            } else {
                1
            },
            buckets_wf(buckets@, rcol@, w as int),
            c == bucket_of(x as int, w as int),
            forall|i2: usize, j: usize|
                #![trigger cand_in(out@, i2 as int, j as int)]
                cand_in(out@, i2 as int, j as int) <==> (i2 == i && exists|h2: int|
                    0 <= h2 < h && near_key((#[trigger] buckets@[h2]).key, c)
                        && buckets@[h2].entries@.contains((j, rcol@[j - 1]->0)) && 1 <= j
                        <= rcol@.len() && num_included(Some(x), rcol@[j - 1], maxd)),
            cands_unique(out@),
            forall|k: int|
                0 <= k < out@.len() ==> (#[trigger] out@[k]).left == i && 1 <= out@[k].right
                    <= rcol@.len() && out@[k].dist == num_dist(Some(x), rcol@[out@[k].right - 1]),
        decreases nh - h,
    {
        let bk = &buckets[h];
        let ghost pre = out@;
        if near_key_exec(bk.key, c) {
            let ne = bk.entries.len();
            let mut k: usize = 0;
            while k < ne
                invariant
                    0 <= k <= ne,
                    0 <= h < nh,
                    nh == buckets@.len(),
                    ne == bk.entries@.len(),
                    rcol@.len() <= usize::MAX,
                    bk == &buckets@[h as int],
                    near_key(bk.key, c),
                    w == if maxd >= 1 {
                        maxd
                    } else {
                        1
                    },
                    buckets_wf(buckets@, rcol@, w as int),
                    c == bucket_of(x as int, w as int),
                    out@.len() >= pre.len(),
                    forall|k2: int| 0 <= k2 < pre.len() ==> out@[k2] == pre[k2],
                    forall|i2: usize, j2: usize|
                        #![trigger cand_in(pre, i2 as int, j2 as int)]
                        cand_in(pre, i2 as int, j2 as int) <==> (i2 == i && exists|h2: int|
                            0 <= h2 < h && near_key((#[trigger] buckets@[h2]).key, c)
                                && buckets@[h2].entries@.contains((j2, rcol@[j2 - 1]->0)) && 1 <= j2
                                <= rcol@.len() && num_included(Some(x), rcol@[j2 - 1], maxd)),
                    forall|i2: usize, j: usize|
                        #![trigger cand_in(out@, i2 as int, j as int)]
                        cand_in(out@, i2 as int, j as int) <==> (cand_in(pre, i2 as int, j as int)
                            || (i2 == i && exists|k2: int|
                            0 <= k2 < k && (#[trigger] bk.entries@[k2]).0 == j && num_included(
                                Some(x),
                                rcol@[j - 1],
                                maxd,
                            ))),
                    cands_unique(out@),
                    forall|k2: int|
                        0 <= k2 < out@.len() ==> (#[trigger] out@[k2]).left == i && 1
                            <= out@[k2].right <= rcol@.len() && out@[k2].dist == num_dist(
                            Some(x),
                            rcol@[out@[k2].right - 1],
                        ),
                    forall|k2: int|
                        pre.len() <= k2 < out@.len() ==> exists|k3: int|
                            0 <= k3 < k && (#[trigger] bk.entries@[k3]).0 == (
                            #[trigger] out@[k2]).right,
                decreases ne - k,
            {
                let (j, y) = bk.entries[k];
                proof {
                    assert(bk.entries@.contains(bk.entries@[k as int]));
                    lemma_bucket_rows_contains(rcol@, w as int, bk.key, (j, y));
                    assert(rcol@[j - 1] == Some(y));
                    lemma_bucket_rows_no_dup(rcol@, w as int, bk.key);
                }
                let d = abs_diff(x, y);
                if d <= maxd {
                    let cnd = Candidate { left: i, right: j, dist: Dist::Exact(d) };
                    let ghost mid = out@;
                    out.push(cnd);
                    proof {
                        assert(out@[out@.len() - 1] == cnd);
                        assert(num_included(Some(x), rcol@[j - 1], maxd));
                        assert forall|i2: usize, j2: usize|
                            #![trigger cand_in(out@, i2 as int, j2 as int)]
                            cand_in(out@, i2 as int, j2 as int) <==> (cand_in(
                            pre,
                            i2 as int,
                            j2 as int,
                        ) || (i2 == i && exists|k2: int|
                            0 <= k2 < k + 1 && (#[trigger] bk.entries@[k2]).0 == j2
                                && num_included(Some(x), rcol@[j2 - 1], maxd))) by {
                            if cand_in(out@, i2 as int, j2 as int) {
                                let kk = choose|kk: int|
                                    0 <= kk < out@.len() && out@[kk].left == i2 && out@[kk].right
                                        == j2;
                                if kk < mid.len() {
                                    assert(mid[kk] == out@[kk]);
                                    assert(cand_in(mid, i2 as int, j2 as int));
                                    assert(cand_in(pre, i2 as int, j2 as int) || (i2 == i
                                        && exists|k2: int|
                                        0 <= k2 < k && (#[trigger] bk.entries@[k2]).0 == j2
                                            && num_included(Some(x), rcol@[j2 - 1], maxd)));
                                } else {
                                    assert(out@[kk] == cnd);
                                    assert(bk.entries@[k as int].0 == j2);
                                }
                            }
                            if cand_in(pre, i2 as int, j2 as int) {
                                let kk = choose|kk: int|
                                    0 <= kk < pre.len() && pre[kk].left == i2 && pre[kk].right
                                        == j2;
                                assert(out@[kk] == pre[kk]);
                                assert(cand_in(out@, i2 as int, j2 as int));
                            }
                            if i2 == i && exists|k2: int|
                                0 <= k2 < k + 1 && (#[trigger] bk.entries@[k2]).0 == j2
                                    && num_included(Some(x), rcol@[j2 - 1], maxd) {
                                let k2 = choose|k2: int|
                                    0 <= k2 < k + 1 && (#[trigger] bk.entries@[k2]).0 == j2
                                        && num_included(Some(x), rcol@[j2 - 1], maxd);
                                if k2 == k {
                                    assert(out@[out@.len() - 1] == cnd);
                                    assert(cand_in(out@, i2 as int, j2 as int));
                                } else {
                                    assert(cand_in(mid, i2 as int, j2 as int));
                                    let kk = choose|kk: int|
                                        0 <= kk < mid.len() && mid[kk].left == i2 && mid[kk].right
                                            == j2;
                                    assert(out@[kk] == mid[kk]);
                                    assert(cand_in(out@, i2 as int, j2 as int));
                                }
                            }
                        }
                        // the new candidate's right row is fresh: earlier
                        // candidates of this bucket use other entries, and
                        // earlier buckets cannot hold the same row
                        assert forall|k1: int, k2: int|
                            0 <= k1 < k2 < out@.len() implies !(out@[k1].left == out@[k2].left
                            && out@[k1].right == out@[k2].right) by {
                            if k2 == out@.len() - 1 {
                                if k1 >= pre.len() {
                                    let k3 = choose|k3: int|
                                        0 <= k3 < k && (#[trigger] bk.entries@[k3]).0
                                            == out@[k1].right;
                                    assert(bk.entries@[k3] != bk.entries@[k as int]);
                                    assert(bk.entries@[k3].0 != j || bk.entries@[k3].1 != y);
                                    lemma_bucket_rows_contains(
                                        rcol@,
                                        w as int,
                                        bk.key,
                                        bk.entries@[k3],
                                    );
                                    assert(bk.entries@.contains(bk.entries@[k3]));
                                } else if out@[k1].right == j {
                                    // an earlier bucket already held this
                                    // right row: its bucket key equals this
                                    // one's, contradicting distinctness
                                    assert(out@[k1] == pre[k1]);
                                    assert(cand_in(pre, i as int, j as int));
                                    let h2 = choose|h2: int|
                                        0 <= h2 < h && near_key((#[trigger] buckets@[h2]).key, c)
                                            && buckets@[h2].entries@.contains(
                                            (j, rcol@[j - 1]->0),
                                        ) && 1 <= j <= rcol@.len() && num_included(
                                            Some(x),
                                            rcol@[j - 1],
                                            maxd,
                                        );
                                    lemma_bucket_rows_contains(
                                        rcol@,
                                        w as int,
                                        buckets@[h2].key,
                                        (j, rcol@[j - 1]->0),
                                    );
                                    assert(buckets@[h2].key == bucket_of(
                                        rcol@[j - 1]->0 as int,
                                        w as int,
                                    ));
                                    assert(rcol@[j - 1] == Some(y));
                                    assert(bk.key == bucket_of(y as int, w as int));
                                    assert(buckets@[h2].key == buckets@[h as int].key);
                                    assert(false);
                                }
                            } else {
                                assert(out@[k1] == mid[k1] && out@[k2] == mid[k2]);
                            }
                        }
                    }
                } else {
                    proof {
                        assert forall|i2: usize, j2: usize|
                            #![trigger cand_in(out@, i2 as int, j2 as int)]
                            cand_in(out@, i2 as int, j2 as int) <==> (cand_in(
                            pre,
                            i2 as int,
                            j2 as int,
                        ) || (i2 == i && exists|k2: int|
                            0 <= k2 < k + 1 && (#[trigger] bk.entries@[k2]).0 == j2
                                && num_included(Some(x), rcol@[j2 - 1], maxd))) by {
                            if i2 == i && exists|k2: int|
                                0 <= k2 < k + 1 && (#[trigger] bk.entries@[k2]).0 == j2
                                    && num_included(Some(x), rcol@[j2 - 1], maxd) {
                                let k2 = choose|k2: int|
                                    0 <= k2 < k + 1 && (#[trigger] bk.entries@[k2]).0 == j2
                                        && num_included(Some(x), rcol@[j2 - 1], maxd);
                                if k2 == k {
                                    assert(rcol@[j - 1]->0 == y);
                                    assert(false);
                                }
                            }
                        }
                    }
                }
                k += 1;
            }
        }
        h += 1;
        proof {
            assert forall|i2: usize, j: usize|
                #![trigger cand_in(out@, i2 as int, j as int)]
                cand_in(out@, i2 as int, j as int) <==> (i2 == i && exists|h2: int|
                0 <= h2 < h && near_key((#[trigger] buckets@[h2]).key, c)
                    && buckets@[h2].entries@.contains((j, rcol@[j - 1]->0)) && 1 <= j
                    <= rcol@.len() && num_included(Some(x), rcol@[j - 1], maxd)) by {
                let bk2 = buckets@[h - 1];
                if cand_in(out@, i2 as int, j as int) && !cand_in(pre, i2 as int, j as int) {
                    let k2 = choose|k2: int|
                        0 <= k2 < bk2.entries@.len() && (#[trigger] bk2.entries@[k2]).0 == j
                            && num_included(Some(x), rcol@[j - 1], maxd);
                    lemma_bucket_rows_contains(rcol@, w as int, bk2.key, bk2.entries@[k2]);
                    assert(bk2.entries@.contains(bk2.entries@[k2]));
                    assert(rcol@[j - 1] == Some(bk2.entries@[k2].1));
                    assert(bk2.entries@[k2] == (j, rcol@[j - 1]->0));
                }
                if i2 == i && exists|h2: int|
                    0 <= h2 < h && near_key((#[trigger] buckets@[h2]).key, c)
                        && buckets@[h2].entries@.contains((j, rcol@[j - 1]->0)) && 1 <= j
                        <= rcol@.len() && num_included(Some(x), rcol@[j - 1], maxd) {
                    let h2 = choose|h2: int|
                        0 <= h2 < h && near_key((#[trigger] buckets@[h2]).key, c)
                            && buckets@[h2].entries@.contains((j, rcol@[j - 1]->0)) && 1 <= j
                            <= rcol@.len() && num_included(Some(x), rcol@[j - 1], maxd);
                    if h2 == h - 1 {
                        let e = (j, rcol@[j - 1]->0);
                        let k2 = choose|k2: int|
                            0 <= k2 < bk2.entries@.len() && bk2.entries@[k2] == e;
                        assert(bk2.entries@[k2].0 == j);
                        assert(cand_in(out@, i as int, j as int));
                    } else {
                        assert(cand_in(pre, i2 as int, j as int));
                        let kk = choose|kk: int|
                            0 <= kk < pre.len() && pre[kk].left == i2 && pre[kk].right == j;
                        assert(out@[kk] == pre[kk]);
                    }
                }
            }
        }
    }
    proof {
        // near buckets are the only ones that can hold a match
        assert forall|i2: usize, j: usize|
            #![trigger cand_in(out@, i2 as int, j as int)]
            cand_in(out@, i2 as int, j as int) <==> (i2 == i && 1 <= j <= rcol@.len()
            && num_included(Some(x), rcol@[j - 1], maxd)) by {
            if i2 == i && 1 <= j <= rcol@.len() && num_included(Some(x), rcol@[j - 1], maxd) {
                let y = rcol@[j - 1]->0;
                let b = bucket_of(y as int, w as int);
                lemma_bucket_soundness(x as int, y as int, w as int);
                assert(near_key(b as u64, c));
                let h2 = choose|h2: int|
                    0 <= h2 < buckets@.len() && (#[trigger] buckets@[h2]).key == bucket_of(
                        (rcol@[j - 1])->0 as int,
                        w as int,
                    );
                lemma_bucket_rows_contains(rcol@, w as int, buckets@[h2].key, (j, y));
                assert(buckets@[h2].entries@.contains((j, y)));
            }
        }
    }
    out
}

/// Relies on rayon: `par_iter().map(f).collect::<Vec<_>>()` applies `f` to
/// every element of the slice and collects the results in the elements'
/// order, and `ThreadPool::install` runs the same computation inside a pool
/// of the requested size, built for this one call.  A pool that cannot be
/// built falls back to rayon's default pool.
#[verifier::external_body]
fn par_scan_num(
    units: &Vec<(usize, i64)>,
    buckets: &Vec<NumBucket>,
    rcol: &Vec<Option<i64>>,
    maxd: u64,
    w: u64,
    nthread: Option<usize>,
) -> (r: Vec<Vec<Candidate>>)
    requires
        w == if maxd >= 1 {
            maxd
        } else {
            1
        },
        buckets_wf(buckets@, rcol@, w as int),
    ensures
        r@.len() == units@.len(),
        forall|p: int, i2: usize, j: usize|
            #![trigger cand_in(r@[p]@, i2 as int, j as int)]
            0 <= p < units@.len() ==> (cand_in(r@[p]@, i2 as int, j as int) <==> (i2
                == units@[p].0 && 1 <= j <= rcol@.len() && num_included(
                Some(units@[p].1),
                rcol@[j - 1],
                maxd,
            ))),
        forall|p: int| 0 <= p < units@.len() ==> cands_unique(#[trigger] r@[p]@),
        forall|p: int, k: int|
            #![trigger r@[p]@[k]]
            0 <= p < units@.len() && 0 <= k < r@[p]@.len() ==> r@[p]@[k].left == units@[p].0 && 1
                <= r@[p]@[k].right <= rcol@.len() && r@[p]@[k].dist == num_dist(
                Some(units@[p].1),
                rcol@[r@[p]@[k].right - 1],
            ),
{
    let run = || units.par_iter().map(|u| scan_num_row(u.0, u.1, buckets, rcol, maxd, w)).collect();
    match nthread.and_then(|nt| rayon::ThreadPoolBuilder::new().num_threads(nt).build().ok()) {
        Some(pool) => pool.install(run),
        None => run(),
    }
}

/// The (1-based row, value) pairs of the present values of `col`, in
/// increasing row order.
pub open spec fn some_rows_of(col: Seq<Option<i64>>) -> Seq<(usize, i64)>
    decreases col.len(),
{
    if col.len() == 0 {
        Seq::empty()
    } else {
        let rest = some_rows_of(col.drop_last());
        match col.last() {
            Some(y) => rest.push((col.len() as usize, y)),
            None => rest,
        }
    }
}

/// A row is listed exactly when it holds a present value.
pub proof fn lemma_some_rows_contains(col: Seq<Option<i64>>, e: (usize, i64))
    requires
        col.len() <= usize::MAX,
    ensures
        some_rows_of(col).contains(e) <==> 1 <= e.0 <= col.len() && col[e.0 - 1] == Some(e.1),
    decreases col.len(),
{
    if col.len() > 0 {
        lemma_some_rows_contains(col.drop_last(), e);
        let rest = some_rows_of(col.drop_last());
        if rest.contains(e) {
            let k = choose|k: int| 0 <= k < rest.len() && rest[k] == e;
            if col.last() is Some {
                assert(rest.push((col.len() as usize, col.last()->0))[k] == e);
            }
            assert(col.drop_last()[e.0 - 1] == col[e.0 - 1]);
        }
        match col.last() {
            Some(y) => {
                let p = rest.push((col.len() as usize, y));
                assert(p[p.len() - 1] == (col.len() as usize, y));
                assert(p.contains((col.len() as usize, y)));
                if p.contains(e) && e != (col.len() as usize, y) {
                    let k = choose|k: int| 0 <= k < p.len() && p[k] == e;
                    assert(k < rest.len());
                    assert(rest.contains(e));
                }
            },
            None => {},
        }
        if 1 <= e.0 <= col.len() - 1 && col[e.0 - 1] == Some(e.1) {
            assert(col.drop_last()[e.0 - 1] == col[e.0 - 1]);
        }
    }
}

/// Rows are listed at most once, in range.
pub proof fn lemma_some_rows_no_dup(col: Seq<Option<i64>>)
    requires
        col.len() <= usize::MAX,
    ensures
        forall|k1: int, k2: int|
            0 <= k1 < k2 < some_rows_of(col).len() ==> some_rows_of(col)[k1].0 != some_rows_of(
                col,
            )[k2].0,
        forall|k: int|
            0 <= k < some_rows_of(col).len() ==> 1 <= (#[trigger] some_rows_of(col)[k]).0
                <= col.len(),
    decreases col.len(),
{
    if col.len() > 0 {
        lemma_some_rows_no_dup(col.drop_last());
        let rest = some_rows_of(col.drop_last());
        match col.last() {
            Some(y) => {
                let p = rest.push((col.len() as usize, y));
                assert forall|k1: int, k2: int| 0 <= k1 < k2 < p.len() implies p[k1].0
                    != p[k2].0 by {
                    if k2 == p.len() - 1 {
                        assert(p[k1] == rest[k1]);
                        assert(rest[k1].0 <= col.len() - 1);
                    } else {
                        assert(p[k1] == rest[k1] && p[k2] == rest[k2]);
                    }
                }
                assert forall|k: int| 0 <= k < p.len() implies 1 <= (#[trigger] p[k]).0
                    <= col.len() by {
                    if k < p.len() - 1 {
                        assert(p[k] == rest[k]);
                    }
                }
            },
            None => {},
        }
    }
}

/// Collects the present rows of a column with their values.
fn collect_some_rows(col: &Vec<Option<i64>>) -> (r: Vec<(usize, i64)>)
    ensures
        r@ == some_rows_of(col@),
{
    let n = col.len();
    let mut r: Vec<(usize, i64)> = Vec::new();
    let mut i: usize = 0;
    proof {
        assert(col@.take(0) =~= Seq::<Option<i64>>::empty());
    }
    while i < n
        invariant
            0 <= i <= n,
            n == col@.len(),
            r@ == some_rows_of(col@.take(i as int)),
        decreases n - i,
    {
        proof {
            assert(col@.take(i + 1).drop_last() =~= col@.take(i as int));
            assert(col@.take(i + 1).last() == col@[i as int]);
            assert(col@.take(i + 1).len() == i + 1);
        }
        match col[i] {
            Some(y) => {
                r.push((i + 1, y));
            },
            None => {},
        }
        i += 1;
    }
    proof {
        assert(col@.take(n as int) =~= col@);
    }
    r
}

/// Candidate row pairs of one numeric key pair: every row pair of present
/// values within the tolerance, each exactly once, labeled with the exact
/// difference.  One work unit per left row runs in parallel over the
/// immutable bucket index.
pub fn fuzzy_indices_diff(
    left: &Vec<Option<i64>>,
    right: &Vec<Option<i64>>,
    max_distance: u64,
    nthread: Option<usize>,
) -> (r: Vec<Candidate>)
    ensures
        forall|i: usize, j: usize|
            #![trigger cand_in(r@, i as int, j as int)]
            cand_in(r@, i as int, j as int) <==> (1 <= i <= left@.len() && 1 <= j <= right@.len()
                && num_included(left@[i - 1], right@[j - 1], max_distance)),
        cands_unique(r@),
        forall|k: int|
            0 <= k < r@.len() ==> 1 <= (#[trigger] r@[k]).left <= left@.len() && 1 <= r@[k].right
                <= right@.len() && r@[k].dist == num_dist(
                left@[r@[k].left - 1],
                right@[r@[k].right - 1],
            ),
{
    let w: u64 = if max_distance >= 1 {
        max_distance
    } else {
        1
    };
    let nl = left.len();
    proof {
        assert(left@.len() == nl);
    }
    let buckets = build_buckets(right, w);
    let units = collect_some_rows(left);
    proof {
        lemma_some_rows_no_dup(left@);
    }
    let lists = par_scan_num(&units, &buckets, right, max_distance, w, nthread);
    let np = lists.len();
    let mut out: Vec<Candidate> = Vec::new();
    let mut p: usize = 0;
    while p < np
        invariant
            0 <= p <= np,
            np == lists@.len() == units@.len(),
            left@.len() <= usize::MAX,
            units@ == some_rows_of(left@),
            forall|k1: int, k2: int| 0 <= k1 < k2 < units@.len() ==> units@[k1].0 != units@[k2].0,
            forall|k: int|
                0 <= k < units@.len() ==> 1 <= (#[trigger] units@[k]).0 <= left@.len(),
            forall|p2: int, i2: usize, j: usize|
                #![trigger cand_in(lists@[p2]@, i2 as int, j as int)]
                0 <= p2 < np ==> (cand_in(lists@[p2]@, i2 as int, j as int) <==> (i2
                    == units@[p2].0 && 1 <= j <= right@.len() && num_included(
                    Some(units@[p2].1),
                    right@[j - 1],
                    max_distance,
                ))),
            forall|p2: int| 0 <= p2 < np ==> cands_unique(#[trigger] lists@[p2]@),
            forall|p2: int, k: int|
                #![trigger lists@[p2]@[k]]
                0 <= p2 < np && 0 <= k < lists@[p2]@.len() ==> lists@[p2]@[k].left == units@[p2].0
                    && 1 <= lists@[p2]@[k].right <= right@.len() && lists@[p2]@[k].dist == num_dist(
                    Some(units@[p2].1),
                    right@[lists@[p2]@[k].right - 1],
                ),
            forall|i2: usize, j: usize|
                #![trigger cand_in(out@, i2 as int, j as int)]
                cand_in(out@, i2 as int, j as int) <==> (exists|p2: int|
                    0 <= p2 < p && (#[trigger] units@[p2]).0 == i2 && 1 <= j <= right@.len()
                        && num_included(Some(units@[p2].1), right@[j - 1], max_distance)),
            cands_unique(out@),
            forall|k: int|
                0 <= k < out@.len() ==> exists|p2: int|
                    0 <= p2 < p && (#[trigger] out@[k]).left == units@[p2].0,
            forall|k: int|
                0 <= k < out@.len() ==> 1 <= (#[trigger] out@[k]).left <= left@.len() && 1
                    <= out@[k].right <= right@.len() && out@[k].dist == num_dist(
                    left@[out@[k].left - 1],
                    right@[out@[k].right - 1],
                ),
        decreases np - p,
    {
        let ghost pre = out@;
        let lst = &lists[p];
        let nc = lst.len();
        let mut k: usize = 0;
        while k < nc
            invariant
                0 <= k <= nc,
                nc == lst@.len(),
                out@.len() == pre.len() + k,
                forall|k2: int| 0 <= k2 < pre.len() ==> out@[k2] == pre[k2],
                forall|k2: int| 0 <= k2 < k ==> out@[pre.len() + k2] == lst@[k2],
            decreases nc - k,
        {
            let c = lst[k];
            out.push(c);
            k += 1;
        }
        p += 1;
        proof {
            let u = units@[p - 1];
            let cs = lst@;
            assert(some_rows_of(left@).contains(u));
            lemma_some_rows_contains(left@, u);
            assert(left@[u.0 - 1] == Some(u.1));
            assert forall|i2: usize, j: usize|
                #![trigger cand_in(out@, i2 as int, j as int)]
                cand_in(out@, i2 as int, j as int) <==> (exists|p2: int|
                0 <= p2 < p && (#[trigger] units@[p2]).0 == i2 && 1 <= j <= right@.len()
                    && num_included(Some(units@[p2].1), right@[j - 1], max_distance)) by {
                if cand_in(out@, i2 as int, j as int) {
                    let kk = choose|kk: int|
                        0 <= kk < out@.len() && out@[kk].left == i2 && out@[kk].right == j;
                    if kk < pre.len() {
                        assert(out@[kk] == pre[kk]);
                        assert(cand_in(pre, i2 as int, j as int));
                        let p2 = choose|p2: int|
                            0 <= p2 < p - 1 && (#[trigger] units@[p2]).0 == i2 && 1 <= j
                                <= right@.len() && num_included(
                                Some(units@[p2].1),
                                right@[j - 1],
                                max_distance,
                            );
                        assert(0 <= p2 < p);
                    } else {
                        assert(out@[pre.len() + (kk - pre.len())] == cs[kk - pre.len()]);
                        assert(cand_in(cs, i2 as int, j as int));
                        assert(units@[p - 1].0 == i2 && 1 <= j <= right@.len() && num_included(
                            Some(units@[p - 1].1),
                            right@[j - 1],
                            max_distance,
                        ));
                    }
                }
                if exists|p2: int|
                    0 <= p2 < p && (#[trigger] units@[p2]).0 == i2 && 1 <= j <= right@.len()
                        && num_included(Some(units@[p2].1), right@[j - 1], max_distance) {
                    let p2 = choose|p2: int|
                        0 <= p2 < p && (#[trigger] units@[p2]).0 == i2 && 1 <= j <= right@.len()
                            && num_included(Some(units@[p2].1), right@[j - 1], max_distance);
                    if p2 < p - 1 {
                        assert(cand_in(pre, i2 as int, j as int));
                        let kk = choose|kk: int|
                            0 <= kk < pre.len() && pre[kk].left == i2 && pre[kk].right == j;
                        assert(out@[kk] == pre[kk]);
                        assert(cand_in(out@, i2 as int, j as int));
                    } else {
                        assert(cand_in(cs, i2 as int, j as int));
                        let kk = choose|kk: int|
                            0 <= kk < cs.len() && cs[kk].left == i2 && cs[kk].right == j;
                        assert(out@[pre.len() + kk] == cs[kk]);
                        assert(cand_in(out@, i2 as int, j as int));
                    }
                }
            }
            assert forall|k1: int, k2: int| 0 <= k1 < k2 < out@.len() implies !(out@[k1].left
                == out@[k2].left && out@[k1].right == out@[k2].right) by {
                if k1 < pre.len() && k2 >= pre.len() {
                    assert(out@[k1] == pre[k1]);
                    assert(out@[pre.len() + (k2 - pre.len())] == cs[k2 - pre.len()]);
                    let p2 = choose|p2: int|
                        0 <= p2 < p - 1 && (#[trigger] pre[k1]).left == units@[p2].0;
                    assert(out@[k2].left == units@[(p - 1) as int].0);
                    assert(units@[p2].0 != units@[(p - 1) as int].0);
                } else if k2 < pre.len() {
                    assert(out@[k1] == pre[k1] && out@[k2] == pre[k2]);
                } else if k1 >= pre.len() {
                    assert(out@[pre.len() + (k1 - pre.len())] == cs[k1 - pre.len()]);
                    assert(out@[pre.len() + (k2 - pre.len())] == cs[k2 - pre.len()]);
                }
            }
            assert forall|k2: int| 0 <= k2 < out@.len() implies exists|p2: int|
                0 <= p2 < p && (#[trigger] out@[k2]).left == units@[p2].0 by {
                if k2 < pre.len() {
                    assert(out@[k2] == pre[k2]);
                    let p2 = choose|p2: int|
                        0 <= p2 < p - 1 && (#[trigger] pre[k2]).left == units@[p2].0;
                    assert(out@[k2].left == units@[p2].0);
                } else {
                    assert(out@[pre.len() + (k2 - pre.len())] == cs[k2 - pre.len()]);
                    assert(out@[k2].left == units@[(p - 1) as int].0);
                }
            }
            assert forall|k2: int|
                0 <= k2 < out@.len() implies 1 <= (#[trigger] out@[k2]).left <= left@.len() && 1
                <= out@[k2].right <= right@.len() && out@[k2].dist == num_dist(
                left@[out@[k2].left - 1],
                right@[out@[k2].right - 1],
            ) by {
                if k2 >= pre.len() {
                    assert(out@[pre.len() + (k2 - pre.len())] == cs[k2 - pre.len()]);
                    assert(out@[k2].left == u.0 && out@[k2].dist == num_dist(
                        Some(u.1),
                        right@[out@[k2].right - 1],
                    ));
                } else {
                    assert(out@[k2] == pre[k2]);
                }
            }
        }
    }
    proof {
        assert forall|i: usize, j: usize|
            #![trigger cand_in(out@, i as int, j as int)]
            cand_in(out@, i as int, j as int) <==> (1 <= i <= left@.len() && 1 <= j
            <= right@.len() && num_included(left@[i - 1], right@[j - 1], max_distance)) by {
            if cand_in(out@, i as int, j as int) {
                let p2 = choose|p2: int|
                    0 <= p2 < np && (#[trigger] units@[p2]).0 == i && 1 <= j <= right@.len()
                        && num_included(Some(units@[p2].1), right@[j - 1], max_distance);
                assert(units@.contains(units@[p2]));
                lemma_some_rows_contains(left@, units@[p2]);
                assert(left@[i - 1] == Some(units@[p2].1));
            }
            if 1 <= i <= left@.len() && 1 <= j <= right@.len() && num_included(
                left@[i - 1],
                right@[j - 1],
                max_distance,
            ) {
                let e = (i, left@[i - 1]->0);
                lemma_some_rows_contains(left@, e);
                assert(some_rows_of(left@).contains(e));
                let p2 = choose|p2: int| 0 <= p2 < units@.len() && units@[p2] == e;
                assert(units@[p2].0 == i && num_included(
                    Some(units@[p2].1),
                    right@[j - 1],
                    max_distance,
                ));
            }
        }
    }
    out
}

} // verus!
