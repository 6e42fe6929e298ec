use lunr::query_parse_error::QueryParseError;

struct Reported(QueryParseError);

impl std::fmt::Debug for Reported {
    fn fmt(&self, f: &mut std::fmt::Formatter) -> std::fmt::Result {
        f.write_str(&self.0.display_text())
    }
}

impl std::fmt::Display for Reported {
    fn fmt(&self, f: &mut std::fmt::Formatter) -> std::fmt::Result {
        f.write_str(&self.0.display_text())
    }
}

impl std::error::Error for Reported {}

#[test]
fn query_parse_error_shape() {
    let err = QueryParseError::new("unexpected character", 3, 6);
    assert_eq!("QueryParseError", err.name);
    assert_eq!("unexpected character", err.message);
    assert_eq!(3, err.start);
    assert_eq!(6, err.end);
}

#[test]
fn query_parse_error_display() {
    let err = QueryParseError::new("unrecognised field 'x'", 0, 1);
    assert_eq!("QueryParseError: unrecognised field 'x' at position 0-1", err.display_text());
}

#[test]
fn query_parse_error_is_std_error() {
    let err = QueryParseError::new("test", 0, 0);
    let wrapped = Reported(err);
    let _e: &dyn std::error::Error = &wrapped;
}

#[test]
fn query_parse_error_display_large_positions() {
    let err = QueryParseError::new("m", 120, 4096);
    assert_eq!("QueryParseError: m at position 120-4096", err.display_text());
}
