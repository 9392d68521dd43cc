//! Key-index building: groups a key column by exact value equality, so that
//! downstream comparisons run once per unique value and expand to row pairs
//! via cross products.  For the token-set family the q-gram representation
//! of each unique value is precomputed here.

use vstd::prelude::*;
use vstd::string::StrSliceExecFns;
use crate::strutil::{opt_str_eq, opt_view, str_chars};
use crate::qgram::{deep, gram_list, grams};

verus! {

/// One unique key value with the 1-based rows holding it, its character
/// sequence and (for token metrics) its precomputed q-grams.
pub struct Group {
    pub value: Option<String>,
    pub chars: Vec<char>,
    pub grams: Vec<Vec<char>>,
    pub rows: Vec<usize>,
}

/// The characters cached in a group are those of its value.
pub open spec fn group_value_wf(g: Group) -> bool {
    match g.value {
        Some(s) => g.chars@ == s@,
        None => g.chars@ == Seq::<char>::empty(),
    }
}

/// The 1-based rows of `col` holding the value `v`, in increasing order.
pub open spec fn rows_of(col: Seq<Option<String>>, v: Option<Seq<char>>) -> Seq<usize>
    decreases col.len(),
{
    if col.len() == 0 {
        Seq::empty()
    } else {
        let rest = rows_of(col.drop_last(), v);
        if opt_view(col.last()) == v {
            rest.push(col.len() as usize)
        } else {
            rest
        }
    }
}

/// A row is listed for a value exactly when it holds that value.
pub proof fn lemma_rows_of_contains(col: Seq<Option<String>>, v: Option<Seq<char>>, i: usize)
    requires
        col.len() <= usize::MAX,
    ensures
        rows_of(col, v).contains(i) <==> 1 <= i <= col.len() && opt_view(col[i - 1]) == v,
    decreases col.len(),
{
    if col.len() > 0 {
        lemma_rows_of_contains(col.drop_last(), v, i);
        let rest = rows_of(col.drop_last(), v);
        if rest.contains(i) {
            let k = choose|k: int| 0 <= k < rest.len() && rest[k] == i;
            if opt_view(col.last()) == v {
                assert(rest.push(col.len() as usize)[k] == i);
            }
            assert(col.drop_last()[i - 1] == col[i - 1]);
        } else if 1 <= i <= col.len() - 1 && opt_view(col.drop_last()[i - 1]) == v {
            assert(false);
        }
        if opt_view(col.last()) == v {
            let p = rest.push(col.len() as usize);
            assert(p[p.len() - 1] == col.len() as usize);
            assert(p.contains(col.len() as usize));
            if p.contains(i) && i != col.len() as usize {
                let k = choose|k: int| 0 <= k < p.len() && p[k] == i;
                assert(k < rest.len());
                assert(rest.contains(i));
            }
        }
        if 1 <= i <= col.len() && opt_view(col[i - 1]) == v {
            if i <= col.len() - 1 {
                assert(col.drop_last()[i - 1] == col[i - 1]);
            }
        }
    }
}

/// Each row is listed at most once for a value.
pub proof fn lemma_rows_of_no_dup(col: Seq<Option<String>>, v: Option<Seq<char>>)
    requires
        col.len() <= usize::MAX,
    ensures
        forall|k1: int, k2: int|
            0 <= k1 < k2 < rows_of(col, v).len() ==> rows_of(col, v)[k1] != rows_of(col, v)[k2],
        forall|k: int|
            0 <= k < rows_of(col, v).len() ==> 1 <= #[trigger] rows_of(col, v)[k] <= col.len(),
    decreases col.len(),
{
    if col.len() > 0 {
        lemma_rows_of_no_dup(col.drop_last(), v);
        let rest = rows_of(col.drop_last(), v);
        if opt_view(col.last()) == v {
            let p = rest.push(col.len() as usize);
            assert forall|k1: int, k2: int| 0 <= k1 < k2 < p.len() implies p[k1] != p[k2] by {
                if k2 == p.len() - 1 {
                    assert(p[k1] == rest[k1]);
                    assert(rest[k1] <= col.len() - 1);
                } else {
                    assert(p[k1] == rest[k1] && p[k2] == rest[k2]);
                }
            }
            assert forall|k: int| 0 <= k < p.len() implies 1 <= #[trigger] p[k] <= col.len() by {
                if k < p.len() - 1 {
                    assert(p[k] == rest[k]);
                }
            }
        }
    }
}

/// A well-formed key index for a column: each group's rows are exactly the
/// rows of its value, group values are pairwise distinct, and every row's
/// value has a group.
pub open spec fn groups_wf(gs: Seq<Group>, col: Seq<Option<String>>) -> bool {
    &&& forall|g: int| 0 <= g < gs.len() ==> group_value_wf(#[trigger] gs[g])
    &&& forall|g: int|
        0 <= g < gs.len() ==> (#[trigger] gs[g]).rows@ == rows_of(col, opt_view(gs[g].value))
    &&& forall|g: int| 0 <= g < gs.len() ==> (#[trigger] gs[g]).rows@.len() >= 1
    &&& forall|g1: int, g2: int|
        0 <= g1 < g2 < gs.len() ==> opt_view(gs[g1].value) != opt_view(gs[g2].value)
    &&& forall|i: int|
        0 <= i < col.len() ==> exists|g: int|
            0 <= g < gs.len() && opt_view(gs[g].value) == opt_view(#[trigger] col[i])
}

/// The groups carry the q-gram representation of their values, for gram
/// size `q`.
pub open spec fn groups_grams_wf(gs: Seq<Group>, q: nat) -> bool {
    forall|g: int| 0 <= g < gs.len() ==> deep((#[trigger] gs[g]).grams@) == grams(gs[g].chars@, q)
}

/// A copy of an optional key value.
pub fn clone_opt(o: &Option<String>) -> (r: Option<String>)
    ensures
        opt_view(r) == opt_view(*o),
{
    match o {
        None => None,
        Some(s) => Some(s.clone()),
    }
}

/// Whether some value in `vals` equals `v`.
fn contains_val(vals: &Vec<Option<String>>, v: &Option<String>) -> (r: bool)
    ensures
        r == exists|k: int| 0 <= k < vals@.len() && opt_view(vals@[k]) == opt_view(*v),
{
    let n = vals.len();
    let mut i: usize = 0;
    while i < n
        invariant
            0 <= i <= n,
            n == vals@.len(),
            forall|k: int| 0 <= k < i ==> opt_view(vals@[k]) != opt_view(*v),
        decreases n - i,
    {
        if opt_str_eq(&vals[i], v) {
            return true;
        }
        i += 1;
    }
    false
}

/// The rows of `col` holding the value `v`, 1-based and increasing.
fn collect_rows(col: &Vec<Option<String>>, v: &Option<String>) -> (r: Vec<usize>)
    ensures
        r@ == rows_of(col@, opt_view(*v)),
{
    let n = col.len();
    let mut r: Vec<usize> = Vec::new();
    let mut i: usize = 0;
    proof {
        assert(col@.take(0) =~= Seq::<Option<String>>::empty());
    }
    while i < n
        invariant
            0 <= i <= n,
            n == col@.len(),
            r@ == rows_of(col@.take(i as int), opt_view(*v)),
        decreases n - i,
    {
        let m = opt_str_eq(&col[i], v);
        proof {
            assert(col@.take(i + 1).drop_last() =~= col@.take(i as int));
            assert(col@.take(i + 1).last() == col@[i as int]);
            assert(col@.take(i + 1).len() == i + 1);
        }
        if m {
            r.push(i + 1);
        }
        i += 1;
    }
    proof {
        assert(col@.take(n as int) =~= col@);
    }
    r
}

/// Builds the key index of a column: one group per unique value.  When a
/// gram size is given, each group also carries its value's q-grams.
pub fn build_groups(col: &Vec<Option<String>>, gram_q: Option<usize>) -> (r: Vec<Group>)
    requires
        gram_q is Some ==> gram_q->0 >= 1,
    ensures
        groups_wf(r@, col@),
        gram_q is Some ==> groups_grams_wf(r@, gram_q->0 as nat),
{
    let n = col.len();
    let mut vals: Vec<Option<String>> = Vec::new();
    let mut i: usize = 0;
    while i < n
        invariant
            0 <= i <= n,
            n == col@.len(),
            forall|k1: int, k2: int|
                0 <= k1 < k2 < vals@.len() ==> opt_view(vals@[k1]) != opt_view(vals@[k2]),
            forall|j: int|
                0 <= j < i ==> exists|k: int|
                    0 <= k < vals@.len() && opt_view(vals@[k]) == opt_view(#[trigger] col@[j]),
            forall|k: int|
                0 <= k < vals@.len() ==> exists|j: int|
                    0 <= j < i && opt_view(col@[j]) == opt_view(#[trigger] vals@[k]),
        decreases n - i,
    {
        let ghost old_vals = vals@;
        if !contains_val(&vals, &col[i]) {
            let c = clone_opt(&col[i]);
            vals.push(c);
            proof {
                assert(opt_view(vals@[vals@.len() - 1]) == opt_view(col@[i as int]));
                assert forall|j: int| 0 <= j < i + 1 implies exists|k: int|
                    0 <= k < vals@.len() && opt_view(vals@[k]) == opt_view(
                        #[trigger] col@[j],
                    ) by {
                    if j < i {
                        let k = choose|k: int|
                            0 <= k < old_vals.len() && opt_view(old_vals[k]) == opt_view(col@[j]);
                        assert(vals@[k] == old_vals[k]);
                        assert(opt_view(vals@[k]) == opt_view(col@[j]));
                    } else {
                        assert(opt_view(vals@[vals@.len() - 1]) == opt_view(col@[j]));
                    }
                }
            }
        }
        i += 1;
    }

    let m = vals.len();
    let mut gs: Vec<Group> = Vec::new();
    let mut g: usize = 0;
    while g < m
        invariant
            0 <= g <= m,
            m == vals@.len(),
            n == col@.len(),
            gram_q is Some ==> gram_q->0 >= 1,
            gs@.len() == g,
            forall|k1: int, k2: int|
                0 <= k1 < k2 < vals@.len() ==> opt_view(vals@[k1]) != opt_view(vals@[k2]),
            forall|k: int|
                0 <= k < vals@.len() ==> exists|j: int|
                    0 <= j < n && opt_view(col@[j]) == opt_view(#[trigger] vals@[k]),
            forall|k: int|
                0 <= k < g ==> opt_view((#[trigger] gs@[k]).value) == opt_view(vals@[k]),
            forall|k: int| 0 <= k < g ==> group_value_wf(#[trigger] gs@[k]),
            forall|k: int|
                0 <= k < g ==> (#[trigger] gs@[k]).rows@ == rows_of(col@, opt_view(gs@[k].value)),
            forall|k: int| 0 <= k < g ==> (#[trigger] gs@[k]).rows@.len() >= 1,
            gram_q is Some ==> forall|k: int|
                0 <= k < g ==> deep((#[trigger] gs@[k]).grams@) == grams(
                    gs@[k].chars@,
                    gram_q->0 as nat,
                ),
        decreases m - g,
    {
        let value = clone_opt(&vals[g]);
        let chars: Vec<char> = match &value {
            Some(s) => str_chars(s.as_str()),
            None => Vec::new(),
        };
        let gr: Vec<Vec<char>> = match gram_q {
            Some(q) => gram_list(&chars, q),
            None => Vec::new(),
        };
        let rows = collect_rows(col, &value);
        proof {
            let j = choose|j: int| 0 <= j < n && opt_view(col@[j]) == opt_view(vals@[g as int]);
            lemma_rows_of_contains(col@, opt_view(value), (j + 1) as usize);
            assert(rows@.contains((j + 1) as usize));
            assert(rows@.len() >= 1);
        }
        let grp = Group { value, chars, grams: gr, rows };
        gs.push(grp);
        g += 1;
    }
    proof {
        assert forall|i2: int| 0 <= i2 < col@.len() implies exists|k: int|
            0 <= k < gs@.len() && opt_view(gs@[k].value) == opt_view(#[trigger] col@[i2]) by {
            let k = choose|k: int| 0 <= k < vals@.len() && opt_view(vals@[k]) == opt_view(col@[i2]);
            assert(opt_view(gs@[k].value) == opt_view(col@[i2]));
        }
    }
    gs
}

} // verus!
