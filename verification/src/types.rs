//! Shared data model: distances, match candidates, thresholds, join kinds
//! and the engine's error taxonomy.

use vstd::prelude::*;

verus! {

/// A per-pair distance score.  Edit-family and numeric distances are exact
/// integers; token-set distances are exact rationals; the cosine score is
/// kept as the exact triple it is computed from, so that no rounding happens
/// inside the engine.  `Unknown` labels a comparison against a missing value
/// in full/outer mode.
#[derive(PartialEq, Eq, Structural, Clone, Copy, Debug)]
pub enum Dist {
    /// An integer distance (edit distances, q-gram count, numeric difference).
    Exact(u64),
    /// An exact rational distance `num / den`, with `den >= 1`.
    Ratio { num: u64, den: u64 },
    /// A cosine score `1 - dot / sqrt(norm1 * norm2)`, kept unevaluated.
    Cosine { dot: u64, norm1: u64, norm2: u64 },
    /// Missing-value comparison in full/outer mode.
    Unknown,
}

/// One matched row pair for a single key pair: 1-based row positions on each
/// side and the distance under that key pair's metric.
#[derive(PartialEq, Eq, Structural, Clone, Copy, Debug)]
pub struct Candidate {
    pub left: usize,
    pub right: usize,
    pub dist: Dist,
}

/// A maximum-distance threshold as an exact rational `num / den`.
/// All comparisons against it use `<=`.
#[derive(PartialEq, Eq, Structural, Clone, Copy, Debug)]
pub struct Threshold {
    pub num: u64,
    pub den: u64,
}

impl Threshold {
    /// A threshold is usable once its denominator is positive.
    pub open spec fn valid(self) -> bool {
        self.den >= 1
    }

    /// An integer distance `d` is within the threshold: `d <= num / den`.
    pub open spec fn admits(self, d: nat) -> bool {
        d * self.den <= self.num
    }

    /// The largest integer distance the threshold admits, `floor(num / den)`.
    pub open spec fn int_bound(self) -> int {
        self.num as int / self.den as int
    }

    /// This threshold admits no more than `other`: `num/den <= other.num/other.den`.
    pub open spec fn le(self, other: Threshold) -> bool {
        self.num * other.den <= other.num * self.den
    }

    /// Exact test of `d <= num / den` over the integers.
    pub fn admits_int(&self, d: u64) -> (r: bool)
        requires
            self.valid(),
        ensures
            r == self.admits(d as nat),
    {
        proof {
            assert((d as u128) * (self.den as u128) <= u128::MAX) by (nonlinear_arith)
                requires
                    d <= u64::MAX && self.den <= u64::MAX,
            ;
        }
        (d as u128) * (self.den as u128) <= self.num as u128
    }
}

/// How the two sides are to be joined.  The engine itself always returns the
/// matched pairs; the join type decides full/outer enumeration and whether a
/// distance column is reported at all.
#[derive(PartialEq, Eq, Structural, Clone, Copy, Debug)]
pub enum JoinType {
    Inner,
    Left,
    Right,
    Anti,
    Full,
}

/// Errors reported before or during a join; none of them is ever silently
/// defaulted.
#[derive(PartialEq, Eq, Structural, Clone, Copy, Debug)]
pub enum Error {
    /// The two columns of one key pair do not have the row counts of the
    /// first key pair's columns.
    ColumnLengthMismatch { key: usize },
    /// No key pair was supplied.
    NoKeys,
    /// An interval with `start > end` (1-based row, `left_side` tells which
    /// dataset).
    InvalidInterval { row: usize, left_side: bool },
    /// The method identifier is not one of the supported metrics.
    UnsupportedMethod,
    /// The join-type identifier is not one of inner/left/right/anti/full.
    UnsupportedJoinType,
    /// The chosen method needs a q-gram size and none was given.
    MissingQ,
}

impl Error {
    /// A short human-readable description.
    pub fn message(&self) -> &'static str {
        match self {
            Error::ColumnLengthMismatch { .. } => "key columns have mismatched lengths",
            Error::NoKeys => "no key pairs were supplied",
            Error::InvalidInterval { .. } => "invalid interval: start > end",
            Error::UnsupportedMethod => "the join method is not supported",
            Error::UnsupportedJoinType => "the join type is not supported",
            Error::MissingQ => "a q-gram size is required for this method",
        }
    }
}

/// A distance admitted by one threshold is admitted by every threshold at
/// least as large.
pub proof fn lemma_admits_monotonic(d: nat, t1: Threshold, t2: Threshold)
    requires
        t1.valid(),
        t2.valid(),
        t1.le(t2),
        t1.admits(d),
    ensures
        t2.admits(d),
{
    assert(d * t2.den <= t2.num) by (nonlinear_arith)
        requires
            t1.den >= 1 && t2.den >= 1 && d * t1.den <= t1.num && t1.num * t2.den <= t2.num
                * t1.den,
    ;
}

/// Whether some candidate in `cs` pairs left row `i` with right row `j`.
pub open spec fn cand_in(cs: Seq<Candidate>, i: int, j: int) -> bool {
    exists|k: int| 0 <= k < cs.len() && cs[k].left == i && cs[k].right == j
}

/// No (left, right) pair occurs twice in `cs`.
pub open spec fn cands_unique(cs: Seq<Candidate>) -> bool {
    forall|k1: int, k2: int|
        0 <= k1 < k2 < cs.len() ==> !(cs[k1].left == cs[k2].left && cs[k1].right == cs[k2].right)
}

} // verus!
