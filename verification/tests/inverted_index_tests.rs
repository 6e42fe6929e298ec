use lunr::inverted_index::{InvertedIndex, Posting};
use lunr::pipeline::Pipeline;
use lunr::query::{Boost, Clause, Query, PRESENCE_OPTIONAL, PRESENCE_PROHIBITED, PRESENCE_REQUIRED, WILDCARD_NONE};
use lunr::search::FieldPostings;
use lunr::token_set::TokenSet;

fn strings(v: &[&str]) -> Vec<String> {
    v.iter().map(|s| s.to_string()).collect()
}

fn postings(field: &str, docs: &[&str]) -> FieldPostings {
    FieldPostings { field: field.to_string(), document_refs: strings(docs) }
}

fn index() -> InvertedIndex {
    InvertedIndex {
        entries: vec![
            ("cat".to_string(), Posting { index: 0, fields: vec![postings("title", &["a", "b"])] }),
            ("cats".to_string(), Posting { index: 1, fields: vec![postings("body", &["c"])] }),
            ("dog".to_string(), Posting { index: 2, fields: vec![postings("body", &["b"])] }),
        ],
    }
}

fn clause(term: &str, presence: u8, edit_distance: Option<usize>) -> Clause {
    Clause {
        fields: strings(&["title", "body"]),
        boost: Boost::one(),
        edit_distance,
        use_pipeline: false,
        wildcard: WILDCARD_NONE,
        presence,
        term: term.to_string(),
    }
}

#[test]
fn find_entry_finds_words() {
    let ix = index();
    assert_eq!(Some(2), ix.find_entry("dog"));
    assert_eq!(None, ix.find_entry("cow"));
}

#[test]
fn term_lookup_collects_postings_of_expansions() {
    let ix = index();
    let set = TokenSet::from_array(&strings(&["cat", "cats", "dog"]));
    let fields = strings(&["title", "body"]);
    let found = ix.term_lookup(&set, "cat*", &fields, None, WILDCARD_NONE).unwrap();
    let mut pairs: Vec<(String, Vec<String>)> = found.into_iter().map(|p| (p.field, p.document_refs)).collect();
    pairs.sort();
    assert_eq!(pairs, vec![("body".to_string(), strings(&["c"])), ("title".to_string(), strings(&["a", "b"]))]);
    assert!(ix.term_lookup(&set, "cow", &fields, None, WILDCARD_NONE).is_none());
}

#[test]
fn query_filter_applies_presence() {
    let ix = index();
    let set = TokenSet::from_array(&strings(&["cat", "cats", "dog"]));
    let fields = strings(&["title", "body"]);
    let query = Query {
        clauses: vec![clause("cat", PRESENCE_REQUIRED, None), clause("dog", PRESENCE_PROHIBITED, None)],
        all_fields: fields.clone(),
    };
    let (lookups, filter) = ix.query_filter(&set, &Pipeline::new(), &fields, &query);
    assert_eq!(2, lookups.len());
    assert!(filter.admits("a"));
    assert!(!filter.admits("b"));
    assert!(!filter.admits("c"));
}

#[test]
fn query_filter_fuzzy_and_unmatched() {
    let ix = index();
    let set = TokenSet::from_array(&strings(&["cat", "cats", "dog"]));
    let fields = strings(&["title", "body"]);
    // "cot" is one replacement from "cat": a and b match in title
    let query = Query { clauses: vec![clause("cot", PRESENCE_REQUIRED, Some(1))], all_fields: fields.clone() };
    let (_, filter) = ix.query_filter(&set, &Pipeline::new(), &fields, &query);
    assert!(filter.admits("a"));
    assert!(!filter.admits("c"));
    // a required term that expands to nothing admits nothing
    let query = Query {
        clauses: vec![clause("cat", PRESENCE_OPTIONAL, None), clause("zebra", PRESENCE_REQUIRED, None)],
        all_fields: fields.clone(),
    };
    let (_, filter) = ix.query_filter(&set, &Pipeline::new(), &fields, &query);
    assert!(!filter.admits("a"));
}
