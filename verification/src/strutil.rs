//! Verified helpers over strings and character vectors: conversion of a
//! string into its character sequence, and equality tests whose results are
//! pinned to the sequence views.

use vstd::prelude::*;
use vstd::string::StrSliceExecFns;

verus! {

/// The character sequence of an optional string value; `None` stands for a
/// missing (null) key value.
pub open spec fn opt_view(o: Option<String>) -> Option<Seq<char>> {
    match o {
        Some(s) => Some(s@),
        None => None,
    }
}

/// Collects the characters of `s` into a vector.
pub fn str_chars(s: &str) -> (r: Vec<char>)
    ensures
        r@ == s@,
{
    let n = s.unicode_len();
    let mut v: Vec<char> = Vec::new();
    let mut i: usize = 0;
    while i < n
        invariant
            0 <= i <= n,
            n == s@.len(),
            v@ == s@.take(i as int),
        decreases n - i,
    {
        let c = s.get_char(i);
        v.push(c);
        i += 1;
        proof {
            assert(v@ =~= s@.take(i as int));
        }
    }
    proof {
        assert(v@ =~= s@);
    }
    v
}

/// An element-wise copy of a character vector.
pub fn clone_chars(v: &Vec<char>) -> (r: Vec<char>)
    ensures
        r@ == v@,
{
    let n = v.len();
    let mut r: Vec<char> = Vec::new();
    let mut i: usize = 0;
    while i < n
        invariant
            0 <= i <= n,
            n == v@.len(),
            r@ == v@.take(i as int),
        decreases n - i,
    {
        r.push(v[i]);
        i += 1;
        proof {
            assert(r@ =~= v@.take(i as int));
        }
    }
    proof {
        assert(r@ =~= v@);
    }
    r
}

/// Element-wise equality of two character vectors, pinned to view equality.
pub fn chars_eq(a: &Vec<char>, b: &Vec<char>) -> (r: bool)
    ensures
        r == (a@ == b@),
{
    if a.len() != b.len() {
        proof {
            assert(a@ != b@);
        }
        return false;
    }
    let n = a.len();
    let mut i: usize = 0;
    while i < n
        invariant
            0 <= i <= n,
            a@.len() == n,
            b@.len() == n,
            forall|k: int| 0 <= k < i ==> a@[k] == b@[k],
        decreases n - i,
    {
        if a[i] != b[i] {
            proof {
                assert(a@[i as int] != b@[i as int]);
            }
            return false;
        }
        i += 1;
    }
    proof {
        assert(a@ =~= b@);
    }
    true
}

/// The length of the longest common prefix of two character sequences,
/// capped at `cap`.
pub open spec fn spec_prefix_len(a: Seq<char>, b: Seq<char>, cap: nat) -> nat
    decreases cap,
{
    if cap == 0 || a.len() == 0 || b.len() == 0 || a[0] != b[0] {
        0
    } else {
        spec_prefix_len(a.drop_first(), b.drop_first(), (cap - 1) as nat) + 1
    }
}

/// Counts the capped common prefix of two character vectors; the
/// Jaro-Winkler bonus is a weight on this count.
pub fn common_prefix_len(a: &Vec<char>, b: &Vec<char>, cap: usize) -> (r: usize)
    ensures
        r == spec_prefix_len(a@, b@, cap as nat),
{
    let n = if a.len() <= b.len() {
        a.len()
    } else {
        b.len()
    };
    let n = if n <= cap {
        n
    } else {
        cap
    };
    let mut i: usize = 0;
    proof {
        assert(a@.skip(0) =~= a@);
        assert(b@.skip(0) =~= b@);
    }
    while i < n
        invariant
            0 <= i <= n,
            n <= a@.len() && n <= b@.len() && n <= cap,
            n == a@.len() || n == b@.len() || n == cap,
            forall|k: int| 0 <= k < i ==> a@[k] == b@[k],
            spec_prefix_len(a@, b@, cap as nat) == i + spec_prefix_len(
                a@.skip(i as int),
                b@.skip(i as int),
                (cap - i) as nat,
            ),
        decreases n - i,
    {
        if a[i] != b[i] {
            proof {
                assert(a@.skip(i as int)[0] == a@[i as int]);
                assert(b@.skip(i as int)[0] == b@[i as int]);
            }
            return i;
        }
        i += 1;
        proof {
            assert(a@.skip(i - 1)[0] == a@[i - 1] && b@.skip(i - 1)[0] == b@[i - 1]);
            assert(a@.skip(i - 1).drop_first() =~= a@.skip(i as int));
            assert(b@.skip(i - 1).drop_first() =~= b@.skip(i as int));
        }
    }
    proof {
        if i < a@.len() && i < b@.len() && (cap - i) as nat != 0 {
            assert(a@.skip(i as int)[0] == a@[i as int]);
            assert(b@.skip(i as int)[0] == b@[i as int]);
            assert(a@[i as int] != b@[i as int] || i == cap);
        }
    }
    i
}

/// Exact equality of a string against an expected identifier.
pub fn str_is(s: &str, lit: &str) -> (r: bool)
    ensures
        r == (s@ == lit@),
{
    let a = s.to_owned();
    let b = lit.to_owned();
    a.eq(&b)
}

/// Equality of two optional string values, pinned to their views.
pub fn opt_str_eq(a: &Option<String>, b: &Option<String>) -> (r: bool)
    ensures
        r == (opt_view(*a) == opt_view(*b)),
{
    match a {
        None => match b {
            None => true,
            Some(_) => false,
        },
        Some(x) => match b {
            None => false,
            Some(y) => {
                let e = x.eq(y);
                proof {
                    assert(opt_view(*a) == Some(x@));
                    assert(opt_view(*b) == Some(y@));
                }
                e
            },
        },
    }
}

} // verus!
