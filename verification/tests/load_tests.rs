use lunr::load::{load_index, LoadedIndex};
use lunr::match_data::MatchData;
use lunr::query::{PRESENCE_OPTIONAL, PRESENCE_PROHIBITED};
use lunr::results::collect_results;
use lunr::search::{ClauseLookup, DocumentFilter, FieldPostings};
use lunr::serialized::{
    SerializedDoc, SerializedEntry, SerializedField, SerializedIndex, SerializedPosting, SerializedVector,
};

fn strings(v: &[&str]) -> Vec<String> {
    v.iter().map(|s| s.to_string()).collect()
}

fn items(v: &[&str]) -> Option<Vec<Option<String>>> {
    Some(v.iter().map(|s| Some(s.to_string())).collect())
}

fn doc(r: &str) -> SerializedDoc {
    SerializedDoc { doc_ref: r.to_string(), metadata_is_object: true }
}

fn field(name: &str, docs: Vec<SerializedDoc>) -> SerializedField {
    SerializedField { name: name.to_string(), docs: Some(docs) }
}

fn entry(term: &str, index: Option<usize>, fields: Vec<SerializedField>) -> Option<SerializedEntry> {
    Some(SerializedEntry { len: 2, term: Some(term.to_string()), posting: Some(SerializedPosting { index, fields }) })
}

fn vector(r: &str) -> Option<SerializedVector> {
    Some(SerializedVector { len: 2, field_ref: Some(r.to_string()), elements_is_array: true })
}

fn serialized(entries: Vec<Option<SerializedEntry>>) -> SerializedIndex {
    SerializedIndex {
        version: Some("2.3.9".to_string()),
        fields: Some(vec![Some("title".to_string()), None, Some("body".to_string())]),
        field_vectors: Some(vec![vector("title/a"), vector("body/b")]),
        inverted_index: Some(entries),
        pipeline: Some(vec![Some("stemmer".to_string()), Some("unknown".to_string()), Some("trimmer".to_string())]),
    }
}

fn docs_of(ix: &LoadedIndex, term: &str, f: &str) -> Vec<String> {
    match ix.inverted_index.find_entry(term) {
        None => Vec::new(),
        Some(i) => {
            let p = &ix.inverted_index.entries[i].1;
            p.fields.iter().filter(|x| x.field == f).flat_map(|x| x.document_refs.clone()).collect()
        }
    }
}

fn index_of(ix: &LoadedIndex, term: &str) -> Option<usize> {
    ix.inverted_index.find_entry(term).map(|i| ix.inverted_index.entries[i].1.index)
}

#[test]
fn load_restores_the_parts() {
    let s = serialized(vec![
        entry("cat", Some(4), vec![field("title", vec![doc("a")]), field("body", vec![doc("b"), doc("c")])]),
        entry("dog", Some(7), vec![field("body", vec![doc("b")])]),
    ]);
    let ix = load_index(&s).unwrap();
    assert_eq!(ix.version, "2.3.9");
    assert_eq!(ix.fields, strings(&["title", "body"]));
    assert_eq!(ix.field_refs, strings(&["title/a", "body/b"]));
    assert_eq!(docs_of(&ix, "cat", "title"), strings(&["a"]));
    assert_eq!(docs_of(&ix, "cat", "body"), strings(&["b", "c"]));
    assert_eq!(docs_of(&ix, "dog", "body"), strings(&["b"]));
    assert!(docs_of(&ix, "dog", "title").is_empty());
    assert_eq!(index_of(&ix, "cat"), Some(4));
    assert_eq!(index_of(&ix, "dog"), Some(7));
    assert_eq!(ix.token_set.to_array(), strings(&["cat", "dog"]));
    assert_eq!(ix.pipeline.to_json(), strings(&["stemmer", "trimmer"]));
}

#[test]
fn load_without_version_is_unknown() {
    let mut s = serialized(vec![]);
    s.version = None;
    assert_eq!(load_index(&s).unwrap().version, "unknown");
}

#[test]
fn load_skips_what_is_not_an_object() {
    let s = serialized(vec![
        entry("cat", None, vec![field("title", vec![doc("a")])]),
        entry(
            "dog",
            Some(1),
            vec![
                SerializedField { name: "title".to_string(), docs: None },
                field("body", vec![doc("b"), SerializedDoc { doc_ref: "c".to_string(), metadata_is_object: false }]),
            ],
        ),
    ]);
    let ix = load_index(&s).unwrap();
    // a posting without `_index` leaves its term out of the inverted index, not out of the set
    assert_eq!(ix.inverted_index.find_entry("cat"), None);
    assert_eq!(ix.token_set.to_array(), strings(&["cat", "dog"]));
    assert!(docs_of(&ix, "dog", "title").is_empty());
    assert_eq!(docs_of(&ix, "dog", "body"), strings(&["b"]));
}

#[test]
fn load_keeps_the_later_of_two_entries_or_keys() {
    let s = serialized(vec![
        entry("cat", Some(0), vec![field("title", vec![doc("a")])]),
        entry("cat", Some(1), vec![field("body", vec![doc("x")]), field("body", vec![doc("y")])]),
    ]);
    let ix = load_index(&s).unwrap();
    assert_eq!(ix.inverted_index.entries.len(), 1);
    assert_eq!(index_of(&ix, "cat"), Some(1));
    assert!(docs_of(&ix, "cat", "title").is_empty());
    assert_eq!(docs_of(&ix, "cat", "body"), strings(&["y"]));
}

#[test]
fn load_refuses_a_pipeline_that_is_not_an_array() {
    let mut s = serialized(vec![]);
    s.pipeline = None;
    assert_eq!(
        load_index(&s).err(),
        Some("malformed serialized index, pipeline must be an array".to_string())
    );
}

#[test]
fn load_refuses_a_posting_that_is_not_an_object() {
    let s = serialized(vec![Some(SerializedEntry { len: 2, term: Some("cat".to_string()), posting: None })]);
    assert_eq!(
        load_index(&s).err(),
        Some("malformed serialized index, invertedIndex posting must be an object".to_string())
    );
}

#[test]
fn load_refuses_terms_out_of_order() {
    let s = serialized(vec![entry("dog", Some(0), vec![]), entry("cat", Some(1), vec![])]);
    assert_eq!(
        load_index(&s).err(),
        Some("malformed serialized index, invertedIndex terms must be in order".to_string())
    );
}

#[test]
fn load_reports_the_first_malformed_part() {
    let mut s = serialized(vec![Some(SerializedEntry { len: 1, term: None, posting: None })]);
    s.pipeline = None;
    assert_eq!(
        load_index(&s).err(),
        Some("malformed serialized index, invertedIndex tuples must have at least 2 elements".to_string())
    );
    s.fields = None;
    assert_eq!(load_index(&s).err(), Some("malformed serialized index, fields must be an array".to_string()));
}

fn matched(r: &str, term: &str, f: &str) -> (String, MatchData) {
    (r.to_string(), MatchData::new(Some(term), f, &vec![]))
}

fn terms_of(m: &MatchData) -> Vec<String> {
    let mut v: Vec<String> = m.metadata.iter().map(|t| t.term.clone()).collect();
    v.sort();
    v
}

fn admit_all() -> DocumentFilter {
    DocumentFilter::from_lookups(&strings(&["title", "body"]), &vec![])
}

#[test]
fn results_group_field_refs_by_document_in_first_seen_order() {
    let found = vec![
        matched("title/b", "cat", "title"),
        matched("title/a", "cat", "title"),
        matched("body/b", "dog", "body"),
        matched("body/z", "dog", "body"),
        matched("nojoiner", "dog", "body"),
    ];
    let all = strings(&["title/a", "title/b", "body/b"]);
    let r = collect_results(&admit_all(), &found, false, &all);
    let docs: Vec<String> = r.iter().map(|x| x.0.clone()).collect();
    assert_eq!(docs, strings(&["b", "a"]));
    assert_eq!(terms_of(&r[0].1), strings(&["cat", "dog"]));
    assert_eq!(terms_of(&r[1].1), strings(&["cat"]));
}

#[test]
fn results_leave_out_documents_the_filter_refuses() {
    let clauses = vec![
        ClauseLookup {
            presence: PRESENCE_PROHIBITED,
            fields: strings(&["title"]),
            terms: vec![Some(vec![FieldPostings { field: "title".to_string(), document_refs: strings(&["b"]) }])],
        },
        ClauseLookup { presence: PRESENCE_OPTIONAL, fields: strings(&["title"]), terms: vec![None] },
    ];
    let filter = DocumentFilter::from_lookups(&strings(&["title"]), &clauses);
    let found = vec![matched("title/a", "cat", "title"), matched("title/b", "cat", "title")];
    let r = collect_results(&filter, &found, false, &strings(&["title/a", "title/b"]));
    let docs: Vec<String> = r.iter().map(|x| x.0.clone()).collect();
    assert_eq!(docs, strings(&["a"]));
}

#[test]
fn negated_query_considers_every_field_ref() {
    let all = strings(&["title/a", "body/a", "title/c"]);
    let r = collect_results(&admit_all(), &vec![], true, &all);
    let docs: Vec<String> = r.iter().map(|x| x.0.clone()).collect();
    assert_eq!(docs, strings(&["a", "c"]));
    assert!(r.iter().all(|x| x.1.metadata.is_empty()));
}

#[test]
fn version_differs_from_the_format() {
    assert!(!lunr::load::version_differs("2.3.9"));
    assert!(lunr::load::version_differs("2.3.8"));
}

#[test]
fn add_matches_records_a_term_under_each_field_ref() {
    let mut acc: Vec<(String, MatchData)> = Vec::new();
    lunr::results::add_matches(&mut acc, "cat", "title", &strings(&["a", "b"]));
    lunr::results::add_matches(&mut acc, "dog", "title", &strings(&["a"]));
    let mut refs: Vec<String> = acc.iter().map(|x| x.0.clone()).collect();
    refs.sort();
    assert_eq!(refs, strings(&["title/a", "title/b"]));
    let a = acc.iter().find(|x| x.0 == "title/a").unwrap();
    assert_eq!(terms_of(&a.1), strings(&["cat", "dog"]));
    let b = acc.iter().find(|x| x.0 == "title/b").unwrap();
    assert_eq!(terms_of(&b.1), strings(&["cat"]));
    assert!(b.1.metadata[0].fields[0].field == "title" && b.1.metadata[0].fields[0].keys.is_empty());
}
