use lunr::query::{Boost, Clause, Query, PRESENCE_OPTIONAL, PRESENCE_PROHIBITED, PRESENCE_REQUIRED};
use lunr::query_parse_error::QueryParseError;
use lunr::query_parser::QueryParser;

fn boost_value(b: &Boost) -> f64 {
    let mut v = 0.0;
    for d in &b.whole {
        v = v * 10.0 + (*d as f64);
    }
    let mut scale = 0.1;
    for d in &b.fraction {
        v += (*d as f64) * scale;
        scale /= 10.0;
    }
    v
}

fn parse(input: &str) -> Result<Vec<Clause>, QueryParseError> {
    let fields = vec!["title".to_string(), "body".to_string()];
    let query = Query::new(fields);
    let parser = QueryParser::new(input, query);
    let q = parser.parse()?;
    Ok(q.clauses)
}

#[test]
fn query_parser_single_term() {
    let clauses = parse("foo").unwrap();
    assert_eq!(1, clauses.len());
    assert_eq!("foo", clauses[0].term);
    assert_eq!(1.0, boost_value(&clauses[0].boost));
    assert_eq!(PRESENCE_OPTIONAL, clauses[0].presence);
    assert_eq!(vec!["title".to_string(), "body".to_string()], clauses[0].fields);
}

#[test]
fn query_parser_multiple_terms() {
    let clauses = parse("foo bar").unwrap();
    assert_eq!(2, clauses.len());
    assert_eq!("foo", clauses[0].term);
    assert_eq!("bar", clauses[1].term);
}

#[test]
fn field_term() {
    let clauses = parse("title:foo").unwrap();
    assert_eq!(1, clauses.len());
    assert_eq!("foo", clauses[0].term);
    assert_eq!(vec!["title".to_string()], clauses[0].fields);
}

#[test]
fn presence_required() {
    let clauses = parse("+foo").unwrap();
    assert_eq!(1, clauses.len());
    assert_eq!("foo", clauses[0].term);
    assert_eq!(PRESENCE_REQUIRED, clauses[0].presence);
}

#[test]
fn presence_prohibited() {
    let clauses = parse("-foo").unwrap();
    assert_eq!(1, clauses.len());
    assert_eq!("foo", clauses[0].term);
    assert_eq!(PRESENCE_PROHIBITED, clauses[0].presence);
}

#[test]
fn query_parser_boost() {
    let clauses = parse("foo^2").unwrap();
    assert_eq!(1, clauses.len());
    assert_eq!("foo", clauses[0].term);
    assert_eq!(2.0, boost_value(&clauses[0].boost));
}

#[test]
fn query_parser_edit_distance() {
    let clauses = parse("foo~2").unwrap();
    assert_eq!(1, clauses.len());
    assert_eq!("foo", clauses[0].term);
    assert_eq!(Some(2), clauses[0].edit_distance);
}

#[test]
fn field_with_boost_and_edit_distance() {
    let clauses = parse("title:foo^2~1").unwrap();
    assert_eq!(1, clauses.len());
    assert_eq!("foo", clauses[0].term);
    assert_eq!(vec!["title".to_string()], clauses[0].fields);
    assert_eq!(2.0, boost_value(&clauses[0].boost));
    assert_eq!(Some(1), clauses[0].edit_distance);
}

#[test]
fn wildcard_disables_pipeline() {
    let clauses = parse("foo*").unwrap();
    assert_eq!(1, clauses.len());
    assert!(!clauses[0].use_pipeline);
}

#[test]
fn term_lowercased() {
    let clauses = parse("FOO").unwrap();
    assert_eq!("foo", clauses[0].term);
}

#[test]
fn field_case_sensitive() {
    let result = parse("TITLE:foo");
    assert!(result.is_err());
}

#[test]
fn unknown_field_error() {
    let result = parse("unknown:foo");
    assert!(result.is_err());
    let err = result.unwrap_err();
    assert!(err.message.contains("unrecognised field"));
}

#[test]
fn empty_field_error() {
    let result = parse("title:");
    assert!(result.is_err());
}

#[test]
fn bad_edit_distance_error() {
    let result = parse("foo~a");
    assert!(result.is_err());
    let err = result.unwrap_err();
    assert!(err.message.contains("edit distance must be numeric"));
}

#[test]
fn negative_edit_distance_error() {
    let result = parse("foo~-1");
    assert!(result.is_err());
}

#[test]
fn bad_boost_error() {
    let result = parse("foo^a");
    assert!(result.is_err());
    let err = result.unwrap_err();
    assert!(err.message.contains("boost must be numeric"));
}

#[test]
fn negative_boost_error() {
    let result = parse("foo^-1");
    assert!(result.is_err());
}

#[test]
fn zero_boost_error() {
    let result = parse("foo^0");
    assert!(result.is_err());
}

#[test]
fn query_parser_complex_query() {
    let clauses = parse("+title:bar^2 baz~1 -foo").unwrap();
    assert_eq!(3, clauses.len());

    assert_eq!("bar", clauses[0].term);
    assert_eq!(vec!["title".to_string()], clauses[0].fields);
    assert_eq!(PRESENCE_REQUIRED, clauses[0].presence);
    assert_eq!(2.0, boost_value(&clauses[0].boost));

    assert_eq!("baz", clauses[1].term);
    assert_eq!(PRESENCE_OPTIONAL, clauses[1].presence);
    assert_eq!(Some(1), clauses[1].edit_distance);

    assert_eq!("foo", clauses[2].term);
    assert_eq!(PRESENCE_PROHIBITED, clauses[2].presence);
}

#[test]
fn decimal_boost_value() {
    let clauses = parse("foo^1.5").unwrap();
    assert_eq!(1.5, boost_value(&clauses[0].boost));
}

#[test]
fn unknown_field_error_lists_fields() {
    let err = parse("x:foo").unwrap_err();
    assert_eq!("unrecognised field 'x', possible fields: 'title', 'body'", err.message);
    assert_eq!((0, 1), (err.start, err.end));
}

#[test]
fn empty_query_has_no_clauses() {
    assert_eq!(0, parse("").unwrap().len());
}

#[test]
fn negative_numbers_have_their_own_messages() {
    let err = parse("foo~-1").unwrap_err();
    assert!(err.message.contains("edit distance must be a non-negative integer"));
    let err = parse("foo^-1").unwrap_err();
    assert!(err.message.contains("boost must be a positive number"));
    let err = parse("foo^-1.5").unwrap_err();
    assert!(err.message.contains("boost must be a positive number"));
    let err = parse("foo~-").unwrap_err();
    assert!(err.message.contains("edit distance must be numeric"));
    let clauses = parse("foo~-0").unwrap();
    assert_eq!(Some(0), clauses[0].edit_distance);
}
