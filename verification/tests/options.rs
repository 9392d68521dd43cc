use fozziejoin::edit::EditMetric;
use fozziejoin::matcher::StrMetric;
use fozziejoin::interval::OverlapType;
use fozziejoin::options::{distance_col_names, parse_join, parse_method, parse_overlap, MethodId};
use fozziejoin::qgram::TokenMetric;
use fozziejoin::types::{Error, JoinType};

#[test]
fn method_identifiers() {
    assert_eq!(
        parse_method("osa", None).unwrap(),
        MethodId::Metric(StrMetric::Edit(EditMetric::Osa))
    );
    assert_eq!(
        parse_method("lv", None).unwrap(),
        MethodId::Metric(StrMetric::Edit(EditMetric::Levenshtein))
    );
    assert_eq!(
        parse_method("dl", None).unwrap(),
        MethodId::Metric(StrMetric::Edit(EditMetric::DamerauLevenshtein))
    );
    assert_eq!(
        parse_method("hamming", None).unwrap(),
        MethodId::Metric(StrMetric::Edit(EditMetric::Hamming))
    );
    assert_eq!(
        parse_method("lcs", None).unwrap(),
        MethodId::Metric(StrMetric::Edit(EditMetric::Lcs))
    );
    assert_eq!(
        parse_method("qgram", Some(2)).unwrap(),
        MethodId::Metric(StrMetric::Token(TokenMetric::Qgram, 2))
    );
    assert_eq!(
        parse_method("cosine", Some(3)).unwrap(),
        MethodId::Metric(StrMetric::Token(TokenMetric::Cosine, 3))
    );
    assert_eq!(
        parse_method("jaccard", Some(2)).unwrap(),
        MethodId::Metric(StrMetric::Token(TokenMetric::Jaccard, 2))
    );
    assert_eq!(parse_method("jw", None).unwrap(), MethodId::JaroWinkler);
}

#[test]
fn unsupported_method_is_reported() {
    assert_eq!(parse_method("soundex", None).err().unwrap(), Error::UnsupportedMethod);
}

#[test]
fn missing_gram_size_is_reported() {
    assert_eq!(parse_method("qgram", None).err().unwrap(), Error::MissingQ);
    assert_eq!(parse_method("jaccard", Some(0)).err().unwrap(), Error::MissingQ);
}

#[test]
fn overlap_identifiers() {
    assert_eq!(parse_overlap("any").unwrap(), OverlapType::Any);
    assert_eq!(parse_overlap("within").unwrap(), OverlapType::Within);
    assert_eq!(parse_overlap("start").unwrap(), OverlapType::Start);
    assert_eq!(parse_overlap("end").unwrap(), OverlapType::End);
    assert_eq!(parse_overlap("touching").err().unwrap(), Error::UnsupportedMethod);
}

#[test]
fn join_identifiers() {
    assert_eq!(parse_join("inner").unwrap(), JoinType::Inner);
    assert_eq!(parse_join("left").unwrap(), JoinType::Left);
    assert_eq!(parse_join("right").unwrap(), JoinType::Right);
    assert_eq!(parse_join("anti").unwrap(), JoinType::Anti);
    assert_eq!(parse_join("full").unwrap(), JoinType::Full);
    assert_eq!(parse_join("cross").err().unwrap(), Error::UnsupportedJoinType);
}

#[test]
fn distance_column_naming() {
    let by = vec![("a".to_string(), "b".to_string()), ("c".to_string(), "d".to_string())];
    let single = vec![("a".to_string(), "b".to_string())];
    // a single key pair gets the requested name alone
    let names =
        distance_col_names(&Some("dist".to_string()), &single, JoinType::Inner);
    assert_eq!(names, vec!["dist".to_string()]);
    // several key pairs get one column per key pair
    let multi = distance_col_names(&Some("dist".to_string()), &by, JoinType::Left);
    assert_eq!(multi, vec!["dist_a_b".to_string(), "dist_c_d".to_string()]);
    // anti-joins never report a distance column
    let anti = distance_col_names(&Some("dist".to_string()), &by, JoinType::Anti);
    assert!(anti.is_empty());
    // and none is reported when none was requested
    let none = distance_col_names(&None, &by, JoinType::Inner);
    assert!(none.is_empty());
}
