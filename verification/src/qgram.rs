//! The token-set metric family: q-gram extraction and the q-gram count,
//! Jaccard and cosine distances, all computed in exact integer arithmetic.

use vstd::prelude::*;
use crate::types::{Dist, Threshold};
use crate::strutil::{chars_eq, clone_chars};

verus! {

/// Upper bound on the length of a key value handled by the token-set
/// family: it keeps every gram count, dot product and squared norm within a
/// machine word, so the exact threshold comparisons cannot overflow.
pub const TOKEN_LEN_LIMIT: u64 = 0x10_0000;

/// The views of a vector of character vectors.
pub open spec fn deep(v: Seq<Vec<char>>) -> Seq<Seq<char>> {
    v.map_values(|x: Vec<char>| x@)
}

/// The q-grams of `s`: every contiguous window of length `q`, in order.
/// A value shorter than `q` has no grams.
pub open spec fn grams(s: Seq<char>, q: nat) -> Seq<Seq<char>> {
    if s.len() < q {
        Seq::empty()
    } else {
        Seq::new((s.len() - q + 1) as nat, |i: int| s.subrange(i, i + q))
    }
}

/// How often gram `g` occurs in the gram sequence `gs`.
pub open spec fn count_in(gs: Seq<Seq<char>>, g: Seq<char>) -> nat
    decreases gs.len(),
{
    if gs.len() == 0 {
        0
    } else {
        count_in(gs.drop_last(), g) + if gs.last() == g {
            1nat
        } else {
            0nat
        }
    }
}

/// `gs` keeps only the first occurrence of each gram, in order.
pub open spec fn dedup(gs: Seq<Seq<char>>) -> Seq<Seq<char>>
    decreases gs.len(),
{
    if gs.len() == 0 {
        Seq::empty()
    } else {
        let d = dedup(gs.drop_last());
        if d.contains(gs.last()) {
            d
        } else {
            d.push(gs.last())
        }
    }
}

/// No element occurs twice in `keys`.
pub open spec fn no_dup(keys: Seq<Seq<char>>) -> bool {
    forall|i: int, j: int| 0 <= i < j < keys.len() ==> keys[i] != keys[j]
}

/// A gram occurs at most as often as there are grams.
pub proof fn lemma_count_le_len(gs: Seq<Seq<char>>, g: Seq<char>)
    ensures
        count_in(gs, g) <= gs.len(),
    decreases gs.len(),
{
    if gs.len() > 0 {
        lemma_count_le_len(gs.drop_last(), g);
    }
}

/// A gram occurs in `gs` exactly when its count is positive.
pub proof fn lemma_count_pos(gs: Seq<Seq<char>>, g: Seq<char>)
    ensures
        count_in(gs, g) >= 1 <==> gs.contains(g),
    decreases gs.len(),
{
    if gs.len() > 0 {
        lemma_count_pos(gs.drop_last(), g);
        if gs.contains(g) && gs.last() != g {
            let i = choose|i: int| 0 <= i < gs.len() && gs[i] == g;
            assert(gs.drop_last()[i] == g);
        }
    }
}

/// Deduplication keeps exactly the grams of the input.
pub proof fn lemma_dedup_contains(gs: Seq<Seq<char>>, g: Seq<char>)
    ensures
        dedup(gs).contains(g) <==> gs.contains(g),
    decreases gs.len(),
{
    if gs.len() > 0 {
        let rest = gs.drop_last();
        let d = dedup(rest);
        lemma_dedup_contains(rest, g);
        if rest.contains(g) {
            let i = choose|i: int| 0 <= i < rest.len() && rest[i] == g;
            assert(gs[i] == g);
            assert(gs.contains(g));
        }
        if gs.contains(g) && gs.last() != g {
            let i = choose|i: int| 0 <= i < gs.len() && gs[i] == g;
            assert(i < gs.len() - 1);
            assert(rest[i] == g);
            assert(rest.contains(g));
        }
        if !d.contains(gs.last()) {
            let p = d.push(gs.last());
            assert(p[d.len() as int] == gs.last());
            assert(p.contains(gs.last()));
            if d.contains(g) {
                let i = choose|i: int| 0 <= i < d.len() && d[i] == g;
                assert(p[i] == g);
                assert(p.contains(g));
            }
            if p.contains(g) && g != gs.last() {
                let i = choose|i: int| 0 <= i < p.len() && p[i] == g;
                assert(i < d.len());
                assert(d[i] == g);
                assert(d.contains(g));
            }
        }
    }
}

/// Deduplication never repeats a gram.
pub proof fn lemma_dedup_no_dup(gs: Seq<Seq<char>>)
    ensures
        no_dup(dedup(gs)),
    decreases gs.len(),
{
    if gs.len() > 0 {
        lemma_dedup_no_dup(gs.drop_last());
        let d = dedup(gs.drop_last());
        if !d.contains(gs.last()) {
            assert forall|i: int, j: int|
                0 <= i < j < d.push(gs.last()).len() implies d.push(gs.last())[i] != d.push(
                gs.last(),
            )[j] by {
                if j == d.len() {
                    assert(d.contains(d[i]));
                }
            }
        }
    }
}

/// Deduplication never lengthens the sequence.
pub proof fn lemma_dedup_le_len(gs: Seq<Seq<char>>)
    ensures
        dedup(gs).len() <= gs.len(),
    decreases gs.len(),
{
    if gs.len() > 0 {
        lemma_dedup_le_len(gs.drop_last());
    }
}

/// The sum, over `keys`, of how often each key occurs in `gs`.
pub open spec fn sum_counts(keys: Seq<Seq<char>>, gs: Seq<Seq<char>>) -> nat
    decreases keys.len(),
{
    if keys.len() == 0 {
        0
    } else {
        sum_counts(keys.drop_last(), gs) + count_in(gs, keys.last())
    }
}

/// How many elements of `keys` equal `x`.
pub open spec fn ind_count(keys: Seq<Seq<char>>, x: Seq<char>) -> nat
    decreases keys.len(),
{
    if keys.len() == 0 {
        0
    } else {
        ind_count(keys.drop_last(), x) + if keys.last() == x {
            1nat
        } else {
            0nat
        }
    }
}

proof fn lemma_ind_zero(keys: Seq<Seq<char>>, x: Seq<char>)
    requires
        !keys.contains(x),
    ensures
        ind_count(keys, x) == 0,
    decreases keys.len(),
{
    if keys.len() > 0 {
        assert(keys.last() != x);
        assert forall|i: int| 0 <= i < keys.len() - 1 implies keys.drop_last()[i] != x by {
            assert(keys[i] == keys.drop_last()[i]);
        }
        lemma_ind_zero(keys.drop_last(), x);
    }
}

proof fn lemma_ind_le_one(keys: Seq<Seq<char>>, x: Seq<char>)
    requires
        no_dup(keys),
    ensures
        ind_count(keys, x) <= 1,
    decreases keys.len(),
{
    if keys.len() > 0 {
        assert(no_dup(keys.drop_last()));
        if keys.last() == x {
            assert forall|i: int| 0 <= i < keys.len() - 1 implies keys.drop_last()[i] != x by {
                assert(keys[i] == keys.drop_last()[i]);
                assert(keys[i] != keys[keys.len() - 1]);
            }
            lemma_ind_zero(keys.drop_last(), x);
        } else {
            lemma_ind_le_one(keys.drop_last(), x);
        }
    }
}

proof fn lemma_sum_counts_empty(keys: Seq<Seq<char>>)
    ensures
        sum_counts(keys, Seq::empty()) == 0,
    decreases keys.len(),
{
    if keys.len() > 0 {
        lemma_sum_counts_empty(keys.drop_last());
    }
}

proof fn lemma_sum_counts_unfold(keys: Seq<Seq<char>>, gs: Seq<Seq<char>>)
    requires
        gs.len() > 0,
    ensures
        sum_counts(keys, gs) == sum_counts(keys, gs.drop_last()) + ind_count(keys, gs.last()),
    decreases keys.len(),
{
    if keys.len() > 0 {
        lemma_sum_counts_unfold(keys.drop_last(), gs);
    }
}

/// Summing the occurrence counts of distinct keys cannot exceed the number
/// of grams counted.
pub proof fn lemma_sum_counts_le(keys: Seq<Seq<char>>, gs: Seq<Seq<char>>)
    requires
        no_dup(keys),
    ensures
        sum_counts(keys, gs) <= gs.len(),
    decreases gs.len(),
{
    if gs.len() == 0 {
        assert(gs =~= Seq::<Seq<char>>::empty());
        lemma_sum_counts_empty(keys);
    } else {
        lemma_sum_counts_le(keys, gs.drop_last());
        lemma_sum_counts_unfold(keys, gs);
        lemma_ind_le_one(keys, gs.last());
        assert(sum_counts(keys, gs.drop_last()) <= gs.len() - 1);
    }
}

/// Collects the q-grams of `s`, in order.
pub fn gram_list(s: &Vec<char>, q: usize) -> (r: Vec<Vec<char>>)
    requires
        1 <= q,
    ensures
        deep(r@) == grams(s@, q as nat),
{
    let len = s.len();
    let mut r: Vec<Vec<char>> = Vec::new();
    if len < q {
        proof {
            assert(deep(r@) =~= grams(s@, q as nat));
        }
        return r;
    }
    let n = len - q + 1;
    let mut i: usize = 0;
    while i < n
        invariant
            0 <= i <= n,
            1 <= q,
            q <= len,
            len == s@.len(),
            n == len - q + 1,
            r@.len() == i,
            forall|k: int| 0 <= k < i ==> (#[trigger] r@[k])@ == s@.subrange(k, k + q),
        decreases n - i,
    {
        let mut w: Vec<char> = Vec::new();
        let mut j: usize = 0;
        while j < q
            invariant
                0 <= j <= q,
                0 <= i < n,
                n == len - q + 1,
                len == s@.len(),
                w@ == s@.subrange(i as int, i + j),
            decreases q - j,
        {
            w.push(s[i + j]);
            j += 1;
            proof {
                assert(w@ =~= s@.subrange(i as int, i + j));
            }
        }
        r.push(w);
        i += 1;
    }
    proof {
        assert(deep(r@) =~= grams(s@, q as nat));
    }
    r
}

/// Counts the occurrences of `g` among the grams `gs`.
pub fn count_gram(gs: &Vec<Vec<char>>, g: &Vec<char>) -> (r: usize)
    ensures
        r == count_in(deep(gs@), g@),
        r <= gs@.len(),
{
    let n = gs.len();
    let mut cnt: usize = 0;
    let mut i: usize = 0;
    while i < n
        invariant
            0 <= i <= n,
            n == gs@.len(),
            cnt <= i,
            cnt == count_in(deep(gs@).take(i as int), g@),
        decreases n - i,
    {
        if chars_eq(&gs[i], g) {
            cnt += 1;
        }
        i += 1;
        proof {
            assert(deep(gs@).take(i as int).drop_last() =~= deep(gs@).take(i - 1));
            assert(deep(gs@).take(i as int).last() == gs@[i - 1]@);
        }
    }
    proof {
        assert(deep(gs@).take(n as int) =~= deep(gs@));
    }
    cnt
}

/// Whether `g` occurs among the grams `gs`.
pub fn contains_gram(gs: &Vec<Vec<char>>, g: &Vec<char>) -> (r: bool)
    ensures
        r == deep(gs@).contains(g@),
{
    let n = gs.len();
    let mut i: usize = 0;
    while i < n
        invariant
            0 <= i <= n,
            n == gs@.len(),
            forall|k: int| 0 <= k < i ==> (#[trigger] deep(gs@)[k]) != g@,
        decreases n - i,
    {
        if chars_eq(&gs[i], g) {
            proof {
                assert(deep(gs@)[i as int] == g@);
            }
            return true;
        }
        i += 1;
    }
    false
}

/// The grams of `x` followed by the grams of `y`.
pub fn concat_grams(x: &Vec<Vec<char>>, y: &Vec<Vec<char>>) -> (r: Vec<Vec<char>>)
    ensures
        deep(r@) == deep(x@) + deep(y@),
{
    let mut r: Vec<Vec<char>> = Vec::new();
    let mut i: usize = 0;
    while i < x.len()
        invariant
            0 <= i <= x@.len(),
            r@.len() == i,
            forall|k: int| 0 <= k < i ==> (#[trigger] r@[k])@ == x@[k]@,
        decreases x@.len() - i,
    {
        r.push(clone_chars(&x[i]));
        i += 1;
    }
    let mut j: usize = 0;
    while j < y.len()
        invariant
            0 <= j <= y@.len(),
            r@.len() == x@.len() + j,
            forall|k: int| 0 <= k < x@.len() ==> (#[trigger] r@[k])@ == x@[k]@,
            forall|k: int| 0 <= k < j ==> (#[trigger] r@[x@.len() + k])@ == y@[k]@,
        decreases y@.len() - j,
    {
        r.push(clone_chars(&y[j]));
        j += 1;
    }
    proof {
        assert forall|k: int| 0 <= k < r@.len() implies (#[trigger] deep(r@)[k]) == (deep(x@)
            + deep(y@))[k] by {
            if k >= x@.len() {
                assert(r@[x@.len() + (k - x@.len())]@ == y@[k - x@.len()]@);
            }
        }
        assert(deep(r@) =~= deep(x@) + deep(y@));
    }
    r
}

/// Keeps the first occurrence of each gram of `gs`, in order.
pub fn dedup_grams(gs: &Vec<Vec<char>>) -> (r: Vec<Vec<char>>)
    ensures
        deep(r@) == dedup(deep(gs@)),
{
    let n = gs.len();
    let mut r: Vec<Vec<char>> = Vec::new();
    let mut i: usize = 0;
    proof {
        assert(deep(gs@).take(0) =~= Seq::<Seq<char>>::empty());
        assert(deep(r@) =~= dedup(deep(gs@).take(0)));
    }
    while i < n
        invariant
            0 <= i <= n,
            n == gs@.len(),
            deep(r@) == dedup(deep(gs@).take(i as int)),
        decreases n - i,
    {
        let present = contains_gram(&r, &gs[i]);
        proof {
            assert(deep(gs@).take(i + 1).drop_last() =~= deep(gs@).take(i as int));
            assert(deep(gs@).take(i + 1).last() == gs@[i as int]@);
        }
        if !present {
            r.push(clone_chars(&gs[i]));
            proof {
                assert(deep(r@) =~= dedup(deep(gs@).take(i + 1)));
            }
        }
        i += 1;
    }
    proof {
        assert(deep(gs@).take(n as int) =~= deep(gs@));
    }
    r
}

/// Sum over `keys` of the absolute count difference between `ga` and `gb`.
pub open spec fn sum_absdiff(keys: Seq<Seq<char>>, ga: Seq<Seq<char>>, gb: Seq<Seq<char>>) -> nat
    decreases keys.len(),
{
    if keys.len() == 0 {
        0
    } else {
        let ca = count_in(ga, keys.last());
        let cb = count_in(gb, keys.last());
        sum_absdiff(keys.drop_last(), ga, gb) + if ca >= cb {
            (ca - cb) as nat
        } else {
            (cb - ca) as nat
        }
    }
}

/// Q-gram count distance: the total count mismatch over the union of the
/// distinct grams of both inputs.
pub open spec fn qgram_mismatch(ga: Seq<Seq<char>>, gb: Seq<Seq<char>>) -> nat {
    sum_absdiff(dedup(ga + gb), ga, gb)
}

/// How many of `keys` occur in both `ga` and `gb`.
pub open spec fn inter_count(keys: Seq<Seq<char>>, ga: Seq<Seq<char>>, gb: Seq<Seq<char>>) -> nat
    decreases keys.len(),
{
    if keys.len() == 0 {
        0
    } else {
        inter_count(keys.drop_last(), ga, gb) + if count_in(ga, keys.last()) >= 1 && count_in(
            gb,
            keys.last(),
        ) >= 1 {
            1nat
        } else {
            0nat
        }
    }
}

/// The number of distinct grams occurring in either input.
pub open spec fn jaccard_union(ga: Seq<Seq<char>>, gb: Seq<Seq<char>>) -> nat {
    dedup(ga + gb).len()
}

/// The number of distinct grams occurring in both inputs.
pub open spec fn jaccard_inter(ga: Seq<Seq<char>>, gb: Seq<Seq<char>>) -> nat {
    inter_count(dedup(ga + gb), ga, gb)
}

/// The intersection is never larger than the union.
pub proof fn lemma_inter_le_keys(keys: Seq<Seq<char>>, ga: Seq<Seq<char>>, gb: Seq<Seq<char>>)
    ensures
        inter_count(keys, ga, gb) <= keys.len(),
    decreases keys.len(),
{
    if keys.len() > 0 {
        lemma_inter_le_keys(keys.drop_last(), ga, gb);
    }
}

/// Sum over `keys` of the products of occurrence counts in `x` and `y`.
pub open spec fn sum_prod(keys: Seq<Seq<char>>, x: Seq<Seq<char>>, y: Seq<Seq<char>>) -> nat
    decreases keys.len(),
{
    if keys.len() == 0 {
        0
    } else {
        sum_prod(keys.drop_last(), x, y) + count_in(x, keys.last()) * count_in(y, keys.last())
    }
}

/// The dot product of the gram count vectors of `ga` and `gb`.
pub open spec fn cos_dot(ga: Seq<Seq<char>>, gb: Seq<Seq<char>>) -> nat {
    sum_prod(dedup(ga), ga, gb)
}

/// The squared Euclidean norm of the gram count vector of `ga`.
pub open spec fn cos_norm(ga: Seq<Seq<char>>) -> nat {
    sum_prod(dedup(ga), ga, ga)
}

/// A product sum over distinct keys is bounded by `c` times the number of
/// grams in `y`, once every count in `x` is at most `c`.
proof fn lemma_sum_prod_le(keys: Seq<Seq<char>>, x: Seq<Seq<char>>, y: Seq<Seq<char>>, c: nat)
    requires
        no_dup(keys),
        x.len() <= c,
    ensures
        sum_prod(keys, x, y) <= c * sum_counts(keys, y),
    decreases keys.len(),
{
    if keys.len() > 0 {
        assert(no_dup(keys.drop_last()));
        lemma_sum_prod_le(keys.drop_last(), x, y, c);
        lemma_count_le_len(x, keys.last());
        let ca = count_in(x, keys.last());
        let cy = count_in(y, keys.last());
        let s0 = sum_counts(keys.drop_last(), y);
        assert(ca * cy <= c * cy) by (nonlinear_arith)
            requires
                ca <= c,
        ;
        assert(c * s0 + c * cy == c * (s0 + cy)) by (nonlinear_arith);
    }
}

/// Bound used by the exact cosine threshold test: dot products and squared
/// norms of values within `TOKEN_LEN_LIMIT` fit well below `2^40`.
pub proof fn lemma_cos_bounds(ga: Seq<Seq<char>>, gb: Seq<Seq<char>>)
    requires
        ga.len() <= TOKEN_LEN_LIMIT,
        gb.len() <= TOKEN_LEN_LIMIT,
    ensures
        cos_dot(ga, gb) <= TOKEN_LEN_LIMIT * TOKEN_LEN_LIMIT,
        cos_norm(ga) <= TOKEN_LEN_LIMIT * TOKEN_LEN_LIMIT,
        cos_norm(gb) <= TOKEN_LEN_LIMIT * TOKEN_LEN_LIMIT,
{
    let l = TOKEN_LEN_LIMIT as nat;
    lemma_dedup_no_dup(ga);
    lemma_dedup_no_dup(gb);
    lemma_sum_prod_le(dedup(ga), ga, gb, l);
    lemma_sum_prod_le(dedup(ga), ga, ga, l);
    lemma_sum_prod_le(dedup(gb), gb, gb, l);
    lemma_sum_counts_le(dedup(ga), gb);
    lemma_sum_counts_le(dedup(ga), ga);
    lemma_sum_counts_le(dedup(gb), gb);
    assert(l * sum_counts(dedup(ga), gb) <= l * l) by (nonlinear_arith)
        requires
            sum_counts(dedup(ga), gb) <= l,
    ;
    assert(l * sum_counts(dedup(ga), ga) <= l * l) by (nonlinear_arith)
        requires
            sum_counts(dedup(ga), ga) <= l,
    ;
    assert(l * sum_counts(dedup(gb), gb) <= l * l) by (nonlinear_arith)
        requires
            sum_counts(dedup(gb), gb) <= l,
    ;
}

/// Q-gram count distance over precomputed gram lists.
pub struct QGram;

impl QGram {
    /// The total count mismatch between the two gram multisets.
    pub fn compute(&self, ga: &Vec<Vec<char>>, gb: &Vec<Vec<char>>) -> (r: u64)
        requires
            ga@.len() <= TOKEN_LEN_LIMIT,
            gb@.len() <= TOKEN_LEN_LIMIT,
        ensures
            r == qgram_mismatch(deep(ga@), deep(gb@)),
    {
        let keys = dedup_grams(&concat_grams(ga, gb));
        proof {
            lemma_dedup_le_len(deep(ga@) + deep(gb@));
        }
        let n = keys.len();
        let mut acc: u64 = 0;
        let mut i: usize = 0;
        while i < n
            invariant
                0 <= i <= n,
                n == keys@.len(),
                n <= 2 * TOKEN_LEN_LIMIT,
                ga@.len() <= TOKEN_LEN_LIMIT,
                gb@.len() <= TOKEN_LEN_LIMIT,
                deep(keys@) == dedup(deep(ga@) + deep(gb@)),
                acc <= i * 0x20_0000,
                acc == sum_absdiff(deep(keys@).take(i as int), deep(ga@), deep(gb@)),
            decreases n - i,
        {
            let ca = count_gram(ga, &keys[i]);
            let cb = count_gram(gb, &keys[i]);
            let d = if ca >= cb {
                ca - cb
            } else {
                cb - ca
            };
            acc = acc + d as u64;
            i += 1;
            proof {
                assert(deep(keys@).take(i as int).drop_last() =~= deep(keys@).take(i - 1));
                assert(deep(keys@).take(i as int).last() == keys@[i - 1]@);
            }
        }
        proof {
            assert(deep(keys@).take(n as int) =~= deep(keys@));
        }
        acc
    }
}

/// Jaccard distance over sets of distinct grams.
pub struct Jaccard;

impl Jaccard {
    /// The sizes of the intersection and union of the two gram sets.
    pub fn parts(&self, ga: &Vec<Vec<char>>, gb: &Vec<Vec<char>>) -> (r: (u64, u64))
        requires
            ga@.len() <= TOKEN_LEN_LIMIT,
            gb@.len() <= TOKEN_LEN_LIMIT,
        ensures
            r.0 == jaccard_inter(deep(ga@), deep(gb@)),
            r.1 == jaccard_union(deep(ga@), deep(gb@)),
            r.0 <= r.1,
            r.1 <= 2 * TOKEN_LEN_LIMIT,
    {
        let keys = dedup_grams(&concat_grams(ga, gb));
        proof {
            lemma_dedup_le_len(deep(ga@) + deep(gb@));
        }
        let n = keys.len();
        let mut inter: u64 = 0;
        let mut i: usize = 0;
        while i < n
            invariant
                0 <= i <= n,
                n == keys@.len(),
                n <= 2 * TOKEN_LEN_LIMIT,
                deep(keys@) == dedup(deep(ga@) + deep(gb@)),
                inter <= i,
                inter == inter_count(deep(keys@).take(i as int), deep(ga@), deep(gb@)),
            decreases n - i,
        {
            let ca = count_gram(ga, &keys[i]);
            let cb = count_gram(gb, &keys[i]);
            if ca >= 1 && cb >= 1 {
                inter += 1;
            }
            i += 1;
            proof {
                assert(deep(keys@).take(i as int).drop_last() =~= deep(keys@).take(i - 1));
                assert(deep(keys@).take(i as int).last() == keys@[i - 1]@);
            }
        }
        proof {
            assert(deep(keys@).take(n as int) =~= deep(keys@));
        }
        (inter, n as u64)
    }
}

/// Cosine distance over gram count vectors.
pub struct Cosine;

impl Cosine {
    /// The dot product and the two squared norms the cosine score is made
    /// of.
    pub fn parts(&self, ga: &Vec<Vec<char>>, gb: &Vec<Vec<char>>) -> (r: (u64, u64, u64))
        requires
            ga@.len() <= TOKEN_LEN_LIMIT,
            gb@.len() <= TOKEN_LEN_LIMIT,
        ensures
            r.0 == cos_dot(deep(ga@), deep(gb@)),
            r.1 == cos_norm(deep(ga@)),
            r.2 == cos_norm(deep(gb@)),
            r.0 <= TOKEN_LEN_LIMIT * TOKEN_LEN_LIMIT,
            r.1 <= TOKEN_LEN_LIMIT * TOKEN_LEN_LIMIT,
            r.2 <= TOKEN_LEN_LIMIT * TOKEN_LEN_LIMIT,
    {
        let dot = sum_prod_exec(ga, ga, gb);
        let n1 = sum_prod_exec(ga, ga, ga);
        let n2 = sum_prod_exec(gb, gb, gb);
        proof {
            lemma_cos_bounds(deep(ga@), deep(gb@));
        }
        (dot, n1, n2)
    }
}

/// Sums, over the distinct grams of `base`, the products of the occurrence
/// counts in `x` and `y`.
fn sum_prod_exec(base: &Vec<Vec<char>>, x: &Vec<Vec<char>>, y: &Vec<Vec<char>>) -> (r: u64)
    requires
        base@.len() <= TOKEN_LEN_LIMIT,
        x@.len() <= TOKEN_LEN_LIMIT,
        y@.len() <= TOKEN_LEN_LIMIT,
    ensures
        r == sum_prod(dedup(deep(base@)), deep(x@), deep(y@)),
{
    let keys = dedup_grams(base);
    proof {
        lemma_dedup_le_len(deep(base@));
    }
    let n = keys.len();
    let mut acc: u64 = 0;
    let mut i: usize = 0;
    while i < n
        invariant
            0 <= i <= n,
            n == keys@.len(),
            n <= TOKEN_LEN_LIMIT,
            x@.len() <= TOKEN_LEN_LIMIT,
            y@.len() <= TOKEN_LEN_LIMIT,
            deep(keys@) == dedup(deep(base@)),
            acc <= i * 0x100_0000_0000,
            acc == sum_prod(deep(keys@).take(i as int), deep(x@), deep(y@)),
        decreases n - i,
    {
        let cx = count_gram(x, &keys[i]);
        let cy = count_gram(y, &keys[i]);
        proof {
            assert((cx as int) * (cy as int) <= (TOKEN_LEN_LIMIT * TOKEN_LEN_LIMIT) as int)
                by (nonlinear_arith)
                requires
                    0 <= cx <= TOKEN_LEN_LIMIT && 0 <= cy <= TOKEN_LEN_LIMIT,
            ;
        }
        acc = acc + (cx as u64) * (cy as u64);
        i += 1;
        proof {
            assert(deep(keys@).take(i as int).drop_last() =~= deep(keys@).take(i - 1));
            assert(deep(keys@).take(i as int).last() == keys@[i - 1]@);
        }
    }
    proof {
        assert(deep(keys@).take(n as int) =~= deep(keys@));
    }
    acc
}

/// Whether the Jaccard distance `(u - i) / u` is within the threshold;
/// a pair without grams on either side scores the sentinel distance `1`.
pub open spec fn jaccard_within_parts(i: nat, u: nat, t: Threshold) -> bool {
    if u == 0 {
        t.den <= t.num
    } else {
        (u - i) * t.den <= t.num * u
    }
}

/// Exact threshold test for the Jaccard distance.
pub fn jaccard_within(i: u64, u: u64, t: &Threshold) -> (r: bool)
    requires
        t.valid(),
        i <= u,
    ensures
        r == jaccard_within_parts(i as nat, u as nat, *t),
{
    if u == 0 {
        t.den <= t.num
    } else {
        proof {
            assert(((u - i) as u128) * (t.den as u128) <= u128::MAX) by (nonlinear_arith)
                requires
                    i <= u <= u64::MAX && t.den <= u64::MAX,
            ;
            assert((t.num as u128) * (u as u128) <= u128::MAX) by (nonlinear_arith)
                requires
                    u <= u64::MAX && t.num <= u64::MAX,
            ;
        }
        ((u - i) as u128) * (t.den as u128) <= (t.num as u128) * (u as u128)
    }
}

/// Whether the cosine distance `1 - dot / sqrt(n1 * n2)` is within the
/// threshold.  A pair with an empty count vector on either side scores the
/// sentinel distance `1`; otherwise the comparison is squared into exact
/// integer arithmetic: `dist <= num/den` holds iff
/// `(den - num)^2 * n1 * n2 <= dot^2 * den^2` (or `num >= den`, when every
/// score is admitted).
pub open spec fn cosine_within_parts(dot: nat, n1: nat, n2: nat, t: Threshold) -> bool {
    if n1 == 0 || n2 == 0 {
        t.den <= t.num
    } else if t.num >= t.den {
        true
    } else {
        (t.den - t.num) * (t.den - t.num) * n1 * n2 <= dot * dot * (t.den * t.den)
    }
}

/// Exact threshold test for the cosine distance.
pub fn cosine_within(dot: u64, n1: u64, n2: u64, t: &Threshold) -> (r: bool)
    requires
        t.valid(),
        t.num <= TOKEN_LEN_LIMIT,
        t.den <= TOKEN_LEN_LIMIT,
        dot <= TOKEN_LEN_LIMIT * TOKEN_LEN_LIMIT,
        n1 <= TOKEN_LEN_LIMIT * TOKEN_LEN_LIMIT,
        n2 <= TOKEN_LEN_LIMIT * TOKEN_LEN_LIMIT,
    ensures
        r == cosine_within_parts(dot as nat, n1 as nat, n2 as nat, *t),
{
    if n1 == 0 || n2 == 0 {
        t.den <= t.num
    } else if t.num >= t.den {
        true
    } else {
        let g = (t.den - t.num) as u128;
        proof {
            assert(g * g <= 0x100_0000_0000u128) by (nonlinear_arith)
                requires
                    g <= 0x10_0000,
            ;
        }
        let gg = g * g;
        proof {
            assert(gg * (n1 as u128) <= 0x1_0000_0000_0000_0000_0000u128) by (nonlinear_arith)
                requires
                    gg <= 0x100_0000_0000 && n1 <= 0x100_0000_0000,
            ;
        }
        let gg_n1 = gg * (n1 as u128);
        proof {
            assert(gg_n1 * (n2 as u128) <= 0x1000_0000_0000_0000_0000_0000_0000_0000u128)
                by (nonlinear_arith)
                requires
                    gg_n1 <= 0x1_0000_0000_0000_0000_0000 && n2 <= 0x100_0000_0000,
            ;
        }
        let lhs = gg_n1 * (n2 as u128);
        proof {
            assert((dot as u128) * (dot as u128) <= 0x1_0000_0000_0000_0000_0000u128)
                by (nonlinear_arith)
                requires
                    dot <= 0x100_0000_0000,
            ;
        }
        let dd = (dot as u128) * (dot as u128);
        proof {
            assert((t.den as u128) * (t.den as u128) <= 0x100_0000_0000u128) by (nonlinear_arith)
                requires
                    t.den <= 0x10_0000,
            ;
            assert(dd * ((t.den as u128) * (t.den as u128))
                <= 0x1000_0000_0000_0000_0000_0000_0000_0000u128) by (nonlinear_arith)
                requires
                    dd <= 0x1_0000_0000_0000_0000_0000 && (t.den as u128) * (t.den as u128)
                        <= 0x100_0000_0000,
            ;
        }
        let rhs = dd * ((t.den as u128) * (t.den as u128));
        proof {
            assert((lhs <= rhs) == cosine_within_parts(dot as nat, n1 as nat, n2 as nat, *t))
                by (nonlinear_arith)
                requires
                    n1 >= 1 && n2 >= 1 && t.num < t.den && g == t.den - t.num && gg == g * g
                        && gg_n1 == gg * (n1 as u128) && lhs == gg_n1 * (n2 as u128) && dd == (
                    dot as u128) * (dot as u128) && rhs == dd * ((t.den as u128) * (t.den as u128)),
            ;
        }
        lhs <= rhs
    }
}

/// The metrics of the token-set family.
#[derive(PartialEq, Eq, Structural, Clone, Copy, Debug)]
pub enum TokenMetric {
    Qgram,
    Jaccard,
    Cosine,
}

/// When a pair of key values matches under a metric of the token-set
/// family: identical inputs short-circuit to distance zero; otherwise the
/// metric's exact distance over the gram representations is compared against
/// the threshold.
pub open spec fn token_included(
    tm: TokenMetric,
    a: Seq<char>,
    b: Seq<char>,
    q: nat,
    t: Threshold,
) -> bool {
    if a == b {
        true
    } else {
        let ga = grams(a, q);
        let gb = grams(b, q);
        match tm {
            TokenMetric::Qgram => t.admits(qgram_mismatch(ga, gb)),
            TokenMetric::Jaccard => jaccard_within_parts(
                jaccard_inter(ga, gb),
                jaccard_union(ga, gb),
                t,
            ),
            TokenMetric::Cosine => cosine_within_parts(
                cos_dot(ga, gb),
                cos_norm(ga),
                cos_norm(gb),
                t,
            ),
        }
    }
}

/// The distance a metric of the token-set family reports for a pair of key
/// values.  Pairs without grams on either side score the sentinel distance
/// `1` (Jaccard) or a zero-norm cosine triple, avoiding any division by
/// zero.
pub open spec fn token_dist(tm: TokenMetric, a: Seq<char>, b: Seq<char>, q: nat) -> Dist {
    if a == b {
        Dist::Exact(0)
    } else {
        let ga = grams(a, q);
        let gb = grams(b, q);
        match tm {
            TokenMetric::Qgram => Dist::Exact(qgram_mismatch(ga, gb) as u64),
            TokenMetric::Jaccard => {
                let u = jaccard_union(ga, gb);
                let i = jaccard_inter(ga, gb);
                if u == 0 {
                    Dist::Ratio { num: 1, den: 1 }
                } else {
                    Dist::Ratio { num: (u - i) as u64, den: u as u64 }
                }
            },
            TokenMetric::Cosine => Dist::Cosine {
                dot: cos_dot(ga, gb) as u64,
                norm1: cos_norm(ga) as u64,
                norm2: cos_norm(gb) as u64,
            },
        }
    }
}

/// A ratio within one threshold is within every threshold at least as
/// large.
proof fn lemma_frac_monotonic(p: nat, q: nat, t1: Threshold, t2: Threshold)
    requires
        t1.valid(),
        t2.valid(),
        t1.le(t2),
        p * t1.den <= t1.num * q,
    ensures
        p * t2.den <= t2.num * q,
{
    assert(p * t2.den <= t2.num * q) by (nonlinear_arith)
        requires
            t1.den >= 1 && t2.den >= 1 && p * t1.den <= t1.num * q && t1.num * t2.den <= t2.num
                * t1.den,
    ;
}

/// Threshold monotonicity for the token-set family: a pair included under a
/// threshold is included under every threshold at least as large.
pub proof fn lemma_token_threshold_monotonic(
    tm: TokenMetric,
    a: Seq<char>,
    b: Seq<char>,
    q: nat,
    t1: Threshold,
    t2: Threshold,
)
    requires
        t1.valid(),
        t2.valid(),
        t1.le(t2),
        token_included(tm, a, b, q, t1),
    ensures
        token_included(tm, a, b, q, t2),
{
    if a != b {
        let ga = grams(a, q);
        let gb = grams(b, q);
        match tm {
            TokenMetric::Qgram => {
                crate::types::lemma_admits_monotonic(qgram_mismatch(ga, gb), t1, t2);
            },
            TokenMetric::Jaccard => {
                let u = jaccard_union(ga, gb);
                let i = jaccard_inter(ga, gb);
                lemma_inter_le_keys(dedup(ga + gb), ga, gb);
                if u == 0 {
                    assert(t2.den <= t2.num) by (nonlinear_arith)
                        requires
                            t1.den >= 1 && t2.den >= 1 && t1.den <= t1.num && t1.num * t2.den
                                <= t2.num * t1.den,
                    ;
                } else {
                    lemma_frac_monotonic((u - i) as nat, u, t1, t2);
                }
            },
            TokenMetric::Cosine => {
                lemma_cosine_monotonic(cos_dot(ga, gb), cos_norm(ga), cos_norm(gb), t1, t2);
            },
        }
    }
}

/// Threshold monotonicity of the exact cosine test.
proof fn lemma_cosine_monotonic(dot: nat, n1: nat, n2: nat, t1: Threshold, t2: Threshold)
    requires
        t1.valid(),
        t2.valid(),
        t1.le(t2),
        cosine_within_parts(dot, n1, n2, t1),
    ensures
        cosine_within_parts(dot, n1, n2, t2),
{
    if n1 == 0 || n2 == 0 {
        assert(t2.den <= t2.num) by (nonlinear_arith)
            requires
                t1.den >= 1 && t2.den >= 1 && t1.den <= t1.num && t1.num * t2.den <= t2.num
                    * t1.den,
        ;
    } else if t1.num >= t1.den {
        assert(t2.num >= t2.den) by (nonlinear_arith)
            requires
                t1.den >= 1 && t2.den >= 1 && t1.num >= t1.den && t1.num * t2.den <= t2.num
                    * t1.den,
        ;
    } else if t2.num >= t2.den {
    } else {
        let g1 = (t1.den - t1.num) as nat;
        let g2 = (t2.den - t2.num) as nat;
        assert(g2 * t1.den <= g1 * t2.den) by (nonlinear_arith)
            requires
                g1 == t1.den - t1.num && g2 == t2.den - t2.num && t1.num * t2.den <= t2.num
                    * t1.den && t1.num < t1.den && t2.num < t2.den,
        ;
        assert((g2 * t1.den) * (g2 * t1.den) <= (g1 * t2.den) * (g1 * t2.den))
            by (nonlinear_arith)
            requires
                g2 * t1.den <= g1 * t2.den,
        ;
        assert(g2 * g2 * (t1.den * t1.den) == (g2 * t1.den) * (g2 * t1.den)) by (nonlinear_arith);
        assert(g1 * g1 * (t2.den * t2.den) == (g1 * t2.den) * (g1 * t2.den)) by (nonlinear_arith);
        assert(g2 * g2 * n1 * n2 * (t1.den * t1.den) <= g1 * g1 * n1 * n2 * (t2.den * t2.den))
            by (nonlinear_arith)
            requires
                g2 * g2 * (t1.den * t1.den) <= g1 * g1 * (t2.den * t2.den),
        ;
        assert(g1 * g1 * n1 * n2 * (t2.den * t2.den) <= dot * dot * (t1.den * t1.den) * (t2.den
            * t2.den)) by (nonlinear_arith)
            requires
                g1 * g1 * n1 * n2 <= dot * dot * (t1.den * t1.den),
        ;
        assert(g2 * g2 * n1 * n2 <= dot * dot * (t2.den * t2.den)) by (nonlinear_arith)
            requires
                t1.den >= 1 && g2 * g2 * n1 * n2 * (t1.den * t1.den) <= dot * dot * (t1.den
                    * t1.den) * (t2.den * t2.den),
        ;
    }
}

} // verus!
