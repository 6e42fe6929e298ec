use lunr::query::{PRESENCE_OPTIONAL, PRESENCE_PROHIBITED, PRESENCE_REQUIRED};
use lunr::search::{ClauseLookup, DocumentFilter, FieldPostings};

fn strings(v: &[&str]) -> Vec<String> {
    v.iter().map(|s| s.to_string()).collect()
}

fn postings(field: &str, docs: &[&str]) -> FieldPostings {
    FieldPostings { field: field.to_string(), document_refs: strings(docs) }
}

fn fields() -> Vec<String> {
    strings(&["title", "body"])
}

#[test]
fn required_clause_keeps_its_documents() {
    let clauses = vec![
        ClauseLookup {
            presence: PRESENCE_REQUIRED,
            fields: fields(),
            terms: vec![Some(vec![postings("title", &["a", "b"])])],
        },
        ClauseLookup {
            presence: PRESENCE_OPTIONAL,
            fields: fields(),
            terms: vec![Some(vec![postings("body", &["c"])])],
        },
    ];
    let filter = DocumentFilter::from_lookups(&fields(), &clauses);
    assert!(filter.admits("a"));
    assert!(filter.admits("b"));
    assert!(!filter.admits("c"));
}

#[test]
fn prohibited_clause_excludes_its_documents() {
    let clauses = vec![
        ClauseLookup {
            presence: PRESENCE_OPTIONAL,
            fields: fields(),
            terms: vec![Some(vec![postings("title", &["a", "b"])])],
        },
        ClauseLookup {
            presence: PRESENCE_PROHIBITED,
            fields: fields(),
            terms: vec![Some(vec![postings("body", &["b"])])],
        },
    ];
    let filter = DocumentFilter::from_lookups(&fields(), &clauses);
    assert!(filter.admits("a"));
    assert!(!filter.admits("b"));
    assert!(filter.admits("z"));
}

#[test]
fn required_clause_without_expansion_admits_nothing() {
    let clauses = vec![
        ClauseLookup {
            presence: PRESENCE_OPTIONAL,
            fields: fields(),
            terms: vec![Some(vec![postings("title", &["a"])])],
        },
        ClauseLookup { presence: PRESENCE_REQUIRED, fields: fields(), terms: vec![None] },
    ];
    let filter = DocumentFilter::from_lookups(&fields(), &clauses);
    assert!(!filter.admits("a"));
    assert!(!filter.admits("b"));
}

#[test]
fn two_required_clauses_intersect() {
    let clauses = vec![
        ClauseLookup {
            presence: PRESENCE_REQUIRED,
            fields: strings(&["title"]),
            terms: vec![Some(vec![postings("title", &["a", "b"])])],
        },
        ClauseLookup {
            presence: PRESENCE_REQUIRED,
            fields: strings(&["title"]),
            terms: vec![Some(vec![postings("title", &["b", "c"])])],
        },
    ];
    let filter = DocumentFilter::from_lookups(&fields(), &clauses);
    assert!(!filter.admits("a"));
    assert!(filter.admits("b"));
    assert!(!filter.admits("c"));
}

#[test]
fn required_clause_reads_terms_up_to_the_first_unexpanded() {
    // the unexpanded term empties the clause's field, and the term after it is not read
    let clauses = vec![ClauseLookup {
        presence: PRESENCE_REQUIRED,
        fields: strings(&["title"]),
        terms: vec![
            Some(vec![postings("title", &["a"])]),
            None,
            Some(vec![postings("title", &["b"])]),
        ],
    }];
    let filter = DocumentFilter::from_lookups(&fields(), &clauses);
    assert!(!filter.admits("a"));
    assert!(!filter.admits("b"));
}

#[test]
fn optional_clauses_require_nothing() {
    let clauses = vec![ClauseLookup {
        presence: PRESENCE_OPTIONAL,
        fields: fields(),
        terms: vec![None, Some(vec![postings("title", &["a"])])],
    }];
    let filter = DocumentFilter::from_lookups(&fields(), &clauses);
    assert!(filter.admits("a"));
    assert!(filter.admits("anything"));
}

fn index_set() -> lunr::token_set::TokenSet {
    lunr::token_set::TokenSet::from_array(&strings(&["car", "cat", "dog"]))
}

fn sorted(mut v: Vec<String>) -> Vec<String> {
    v.sort();
    v
}

#[test]
fn expand_term_with_trailing_wildcard() {
    let found = lunr::search::expand_term(&index_set(), "ca*", None, lunr::query::WILDCARD_TRAILING);
    assert_eq!(sorted(found), strings(&["car", "cat"]));
}

#[test]
fn expand_term_exact() {
    let found = lunr::search::expand_term(&index_set(), "dog", None, lunr::query::WILDCARD_NONE);
    assert_eq!(found, strings(&["dog"]));
    let none = lunr::search::expand_term(&index_set(), "cow", None, lunr::query::WILDCARD_NONE);
    assert!(none.is_empty());
}

#[test]
fn expand_term_fuzzy() {
    // one replacement away
    let found = lunr::search::expand_term(&index_set(), "cap", Some(1), lunr::query::WILDCARD_NONE);
    assert_eq!(sorted(found), strings(&["car", "cat"]));
    // two neighbours swapped
    let found = lunr::search::expand_term(&index_set(), "dgo", Some(1), lunr::query::WILDCARD_NONE);
    assert_eq!(found, strings(&["dog"]));
    // no edit allowed
    let found = lunr::search::expand_term(&index_set(), "cap", Some(0), lunr::query::WILDCARD_NONE);
    assert!(found.is_empty());
}

fn vector(len: usize, field_ref: Option<&str>, elements_is_array: bool) -> Option<lunr::serialized::SerializedVector> {
    Some(lunr::serialized::SerializedVector {
        len,
        field_ref: field_ref.map(|s| s.to_string()),
        elements_is_array,
    })
}

fn entry(len: usize, term: Option<&str>) -> Option<lunr::serialized::SerializedEntry> {
    Some(lunr::serialized::SerializedEntry {
        len,
        term: term.map(|s| s.to_string()),
        posting: Some(lunr::serialized::SerializedPosting { index: Some(0), fields: vec![] }),
    })
}

#[test]
fn check_serialized_accepts_well_shaped() {
    let doc = lunr::serialized::SerializedIndex {
        version: None,
        fields: Some(vec![Some("title".to_string())]),
        field_vectors: Some(vec![vector(2, Some("title/a"), true)]),
        inverted_index: Some(vec![entry(2, Some("cat"))]),
        pipeline: Some(vec![]),
    };
    assert!(lunr::serialized::check_serialized(&doc).is_ok());
}

#[test]
fn check_serialized_reports_first_problem() {
    let doc = lunr::serialized::SerializedIndex {
        version: None,
        fields: Some(vec![]),
        field_vectors: Some(vec![vector(2, Some("title/a"), true), vector(1, None, false)]),
        inverted_index: None,
        pipeline: None,
    };
    assert_eq!(
        lunr::serialized::check_serialized(&doc),
        Err("malformed serialized index, fieldVectors tuples must have at least 2 elements".to_string())
    );
    let doc = lunr::serialized::SerializedIndex { version: None, fields: None, field_vectors: None, inverted_index: None, pipeline: None };
    assert_eq!(
        lunr::serialized::check_serialized(&doc),
        Err("malformed serialized index, fields must be an array".to_string())
    );
    let doc = lunr::serialized::SerializedIndex {
        version: None,
        fields: Some(vec![]),
        field_vectors: Some(vec![]),
        inverted_index: Some(vec![entry(2, None)]),
        pipeline: None,
    };
    assert_eq!(
        lunr::serialized::check_serialized(&doc),
        Err("malformed serialized index, invertedIndex term must be a string".to_string())
    );
}

#[test]
fn pipeline_from_labels_keeps_known_functions() {
    let labels = Some(vec![Some("stemmer".to_string()), Some("unknown".to_string()), None, Some("trimmer".to_string())]);
    let p = lunr::serialized::pipeline_from_labels(&labels);
    assert_eq!(p.to_json(), vec!["stemmer".to_string(), "trimmer".to_string()]);
    assert!(lunr::serialized::pipeline_from_labels(&None).to_json().is_empty());
}

#[test]
fn first_unregistered_label() {
    let registered = strings(&["stemmer", "trimmer"]);
    assert_eq!(None, lunr::serialized::first_unregistered(&strings(&["trimmer", "stemmer"]), &registered));
    assert_eq!(Some(1), lunr::serialized::first_unregistered(&strings(&["stemmer", "custom", "other"]), &registered));
}
