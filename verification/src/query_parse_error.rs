use vstd::prelude::*;
use crate::text::{decimal, usize_to_string};

verus! {

/// An error in a query string, with the byte offsets of the offending lexeme.
#[derive(Debug, Clone)]
pub struct QueryParseError {
    pub name: String,
    pub message: String,
    pub start: usize,
    pub end: usize,
}

/// What an error says, as text and positions.
pub struct ErrorModel {
    pub message: Seq<char>,
    pub start: int,
    pub end: int,
}

impl QueryParseError {
    pub open spec fn model(&self) -> ErrorModel {
        ErrorModel { message: self.message@, start: self.start as int, end: self.end as int }
    }

    pub fn new(message: &str, start: usize, end: usize) -> (r: Self)
        ensures
            r.name@ == "QueryParseError"@,
            r.message@ == message@,
            r.start == start,
            r.end == end,
    {
        QueryParseError { name: "QueryParseError".to_owned(), message: message.to_owned(), start, end }
    }

    /// The text that the error displays: `name: message at position start-end`.
    pub fn display_text(&self) -> (r: String)
        ensures
            r@ == self.name@ + ": "@ + self.message@ + " at position "@ + decimal(self.start as nat) + "-"@
                + decimal(self.end as nat),
    {
        let mut r = self.name.clone();
        r.append(": ");
        r.append(self.message.as_str());
        r.append(" at position ");
        let s = usize_to_string(self.start);
        r.append(s.as_str());
        r.append("-");
        let e = usize_to_string(self.end);
        r.append(e.as_str());
        r
    }
}

} // verus!
