//! Parsing of the method and join-type identifiers the host hands in, and
//! the naming convention for the reported distance columns.

use vstd::prelude::*;
use crate::types::{Error, JoinType};
use crate::edit::EditMetric;
use crate::qgram::TokenMetric;
use crate::matcher::StrMetric;
use crate::strutil::str_is;
use crate::interval::OverlapType;

verus! {

/// A parsed match-method identifier: a metric the engine computes, or the
/// Jaro-Winkler method, whose floating-point score lives outside the
/// verified engine.
#[derive(PartialEq, Eq, Structural, Clone, Copy, Debug)]
pub enum MethodId {
    Metric(StrMetric),
    JaroWinkler,
}

/// What `parse_method` returns for each identifier.  The token-set metrics
/// need a positive gram size; one that is missing or zero is reported.
pub open spec fn spec_parse_method(s: Seq<char>, q: Option<usize>) -> Result<MethodId, Error> {
    if s == "osa"@ {
        Ok(MethodId::Metric(StrMetric::Edit(EditMetric::Osa)))
    } else if s == "levenshtein"@ || s == "lv"@ {
        Ok(MethodId::Metric(StrMetric::Edit(EditMetric::Levenshtein)))
    } else if s == "damerau_levenshtein"@ || s == "damerau_levensthein"@ || s == "dl"@ {
        Ok(MethodId::Metric(StrMetric::Edit(EditMetric::DamerauLevenshtein)))
    } else if s == "hamming"@ {
        Ok(MethodId::Metric(StrMetric::Edit(EditMetric::Hamming)))
    } else if s == "lcs"@ {
        Ok(MethodId::Metric(StrMetric::Edit(EditMetric::Lcs)))
    } else if s == "qgram"@ {
        spec_token(TokenMetric::Qgram, q)
    } else if s == "cosine"@ {
        spec_token(TokenMetric::Cosine, q)
    } else if s == "jaccard"@ {
        spec_token(TokenMetric::Jaccard, q)
    } else if s == "jaro_winkler"@ || s == "jw"@ {
        Ok(MethodId::JaroWinkler)
    } else {
        Err(Error::UnsupportedMethod)
    }
}

/// A token-set metric with its gram size, when one was given.
pub open spec fn spec_token(tm: TokenMetric, q: Option<usize>) -> Result<MethodId, Error> {
    match q {
        Some(qq) => if qq >= 1 {
            Ok(MethodId::Metric(StrMetric::Token(tm, qq)))
        } else {
            Err(Error::MissingQ)
        },
        None => Err(Error::MissingQ),
    }
}

fn token_of(tm: TokenMetric, q: Option<usize>) -> (r: Result<MethodId, Error>)
    ensures
        r == spec_token(tm, q),
{
    match q {
        Some(qq) => if qq >= 1 {
            Ok(MethodId::Metric(StrMetric::Token(tm, qq)))
        } else {
            Err(Error::MissingQ)
        },
        None => Err(Error::MissingQ),
    }
}

/// Parses a match-method identifier, with the gram size the token-set
/// family needs.
pub fn parse_method(name: &str, q: Option<usize>) -> (r: Result<MethodId, Error>)
    ensures
        r == spec_parse_method(name@, q),
{
    if str_is(name, "osa") {
        Ok(MethodId::Metric(StrMetric::Edit(EditMetric::Osa)))
    } else if str_is(name, "levenshtein") || str_is(name, "lv") {
        Ok(MethodId::Metric(StrMetric::Edit(EditMetric::Levenshtein)))
    } else if str_is(name, "damerau_levenshtein") || str_is(name, "damerau_levensthein") || str_is(
        name,
        "dl",
    ) {
        Ok(MethodId::Metric(StrMetric::Edit(EditMetric::DamerauLevenshtein)))
    } else if str_is(name, "hamming") {
        Ok(MethodId::Metric(StrMetric::Edit(EditMetric::Hamming)))
    } else if str_is(name, "lcs") {
        Ok(MethodId::Metric(StrMetric::Edit(EditMetric::Lcs)))
    } else if str_is(name, "qgram") {
        token_of(TokenMetric::Qgram, q)
    } else if str_is(name, "cosine") {
        token_of(TokenMetric::Cosine, q)
    } else if str_is(name, "jaccard") {
        token_of(TokenMetric::Jaccard, q)
    } else if str_is(name, "jaro_winkler") || str_is(name, "jw") {
        Ok(MethodId::JaroWinkler)
    } else {
        Err(Error::UnsupportedMethod)
    }
}

/// What `parse_join` returns for each identifier.
pub open spec fn spec_parse_join(s: Seq<char>) -> Result<JoinType, Error> {
    if s == "inner"@ {
        Ok(JoinType::Inner)
    } else if s == "left"@ {
        Ok(JoinType::Left)
    } else if s == "right"@ {
        Ok(JoinType::Right)
    } else if s == "anti"@ {
        Ok(JoinType::Anti)
    } else if s == "full"@ {
        Ok(JoinType::Full)
    } else {
        Err(Error::UnsupportedJoinType)
    }
}

/// Parses a join-type identifier.
pub fn parse_join(name: &str) -> (r: Result<JoinType, Error>)
    ensures
        r == spec_parse_join(name@),
{
    if str_is(name, "inner") {
        Ok(JoinType::Inner)
    } else if str_is(name, "left") {
        Ok(JoinType::Left)
    } else if str_is(name, "right") {
        Ok(JoinType::Right)
    } else if str_is(name, "anti") {
        Ok(JoinType::Anti)
    } else if str_is(name, "full") {
        Ok(JoinType::Full)
    } else {
        Err(Error::UnsupportedJoinType)
    }
}

/// What `parse_overlap` returns for each identifier.
pub open spec fn spec_parse_overlap(s: Seq<char>) -> Result<OverlapType, Error> {
    if s == "any"@ {
        Ok(OverlapType::Any)
    } else if s == "within"@ {
        Ok(OverlapType::Within)
    } else if s == "start"@ {
        Ok(OverlapType::Start)
    } else if s == "end"@ {
        Ok(OverlapType::End)
    } else {
        Err(Error::UnsupportedMethod)
    }
}

/// Parses an interval overlap-mode identifier.
pub fn parse_overlap(name: &str) -> (r: Result<OverlapType, Error>)
    ensures
        r == spec_parse_overlap(name@),
{
    if str_is(name, "any") {
        Ok(OverlapType::Any)
    } else if str_is(name, "within") {
        Ok(OverlapType::Within)
    } else if str_is(name, "start") {
        Ok(OverlapType::Start)
    } else if str_is(name, "end") {
        Ok(OverlapType::End)
    } else {
        Err(Error::UnsupportedMethod)
    }
}

/// Relies on std's String::push_str: appends the characters of `s`.
#[verifier::external_body]
fn append_str(dst: &mut String, s: &str)
    ensures
        final(dst)@ == old(dst)@ + s@,
{
    dst.push_str(s)
}

/// The names of the reported distance columns: none for an anti-join or
/// when no name was requested; the requested name alone for a single key
/// pair; `<requested>_<leftkey>_<rightkey>` per key pair otherwise.
pub fn distance_col_names(
    distance_col: &Option<String>,
    by: &Vec<(String, String)>,
    how: JoinType,
) -> (r: Vec<String>)
    ensures
        (how is Anti || distance_col is None) ==> r@.len() == 0,
        !(how is Anti) && distance_col is Some && by@.len() == 1 ==> r@.len() == 1 && r@[0]@
            == distance_col->0@,
        !(how is Anti) && distance_col is Some && by@.len() != 1 ==> r@.len() == by@.len() && (
        forall|k: int|
            0 <= k < by@.len() ==> (#[trigger] r@[k])@ == distance_col->0@ + "_"@ + by@[k].0@
                + "_"@ + by@[k].1@),
{
    let mut r: Vec<String> = Vec::new();
    if matches!(how, JoinType::Anti) {
        return r;
    }
    let base = match distance_col {
        Some(s) => s,
        None => {
            return r;
        },
    };
    if by.len() == 1 {
        r.push(base.clone());
        return r;
    }
    let n = by.len();
    let mut k: usize = 0;
    while k < n
        invariant
            0 <= k <= n,
            n == by@.len(),
            r@.len() == k,
            forall|k2: int|
                0 <= k2 < k ==> (#[trigger] r@[k2])@ == base@ + "_"@ + by@[k2].0@ + "_"@
                    + by@[k2].1@,
        decreases n - k,
    {
        let mut name = base.clone();
        append_str(&mut name, "_");
        append_str(&mut name, by[k].0.as_str());
        append_str(&mut name, "_");
        append_str(&mut name, by[k].1.as_str());
        r.push(name);
        k += 1;
    }
    r
}

} // verus!
