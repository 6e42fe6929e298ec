use lunr::builder::Builder;
use lunr::document::Field;
use lunr::pipeline::{Pipeline, PipelineFunction};

fn field(name: &str, text: &str) -> Field {
    Field { name: name.to_string(), text: text.to_string() }
}

fn docs_of(b: &Builder, term: &str, field: &str) -> Vec<String> {
    match b.inverted_index.find_entry(term) {
        None => Vec::new(),
        Some(i) => {
            let p = &b.inverted_index.entries[i].1;
            p.fields.iter().filter(|f| f.field == field).flat_map(|f| f.document_refs.clone()).collect()
        }
    }
}

#[test]
fn add_records_fields_lengths_and_postings() {
    let mut b = Builder::new(Pipeline::new());
    assert_eq!(Ok(()), b.add("a", &vec![field("title", "Hello World"), field("body", "hello there friend")]));
    assert_eq!(Ok(()), b.add("b", &vec![field("body", "World")]));
    assert_eq!(b.fields, vec!["title".to_string(), "body".to_string()]);
    assert_eq!(b.field_lengths, vec![2, 3, 1]);
    assert_eq!(b.field_terms[1], vec!["hello".to_string(), "there".to_string(), "friend".to_string()]);
    assert_eq!(b.field_refs.len(), 3);
    assert_eq!(b.field_refs[2].document_ref, "b");
    assert_eq!(docs_of(&b, "hello", "title"), vec!["a".to_string()]);
    assert_eq!(docs_of(&b, "hello", "body"), vec!["a".to_string()]);
    assert_eq!(docs_of(&b, "world", "body"), vec!["b".to_string()]);
    assert!(docs_of(&b, "friend", "title").is_empty());
}

#[test]
fn add_runs_the_pipeline() {
    let mut p = Pipeline::new();
    p.add_function(PipelineFunction::Stemmer);
    let mut b = Builder::new(p);
    assert_eq!(Ok(()), b.add("a", &vec![field("body", "cats")]));
    assert_eq!(docs_of(&b, "cat", "body"), vec!["a".to_string()]);
    assert!(docs_of(&b, "cats", "body").is_empty());
}

#[test]
fn add_refuses_missing_and_duplicate_refs() {
    let mut b = Builder::new(Pipeline::new());
    assert_eq!(
        Err("cannot add a document without a 'ref' field to the index".to_string()),
        b.add("", &vec![field("body", "x")])
    );
    assert_eq!(Ok(()), b.add("a", &vec![field("body", "x")]));
    assert_eq!(Err("cannot add a document with a duplicate ref 'a'".to_string()), b.add("a", &vec![]));
    assert_eq!(b.document_refs, vec!["a".to_string()]);
    assert_eq!(b.field_lengths, vec![1]);
}

#[test]
fn postings_are_numbered_in_the_order_words_first_come() {
    let mut b = Builder::new(Pipeline::new());
    assert_eq!(Ok(()), b.add("a", &vec![field("body", "green cat")]));
    assert_eq!(Ok(()), b.add("b", &vec![field("body", "cat dog")]));
    let words: Vec<String> = b.inverted_index.entries.iter().map(|e| e.0.clone()).collect();
    assert_eq!(words, vec!["green".to_string(), "cat".to_string(), "dog".to_string()]);
    for (i, e) in b.inverted_index.entries.iter().enumerate() {
        assert_eq!(e.1.index, i);
    }
}

#[test]
fn gather_matches_records_each_posting_under_its_field_ref() {
    let mut b = Builder::new(Pipeline::new());
    assert_eq!(Ok(()), b.add("a", &vec![field("title", "cat"), field("body", "cat dog")]));
    assert_eq!(Ok(()), b.add("b", &vec![field("body", "dog")]));
    let mut acc: Vec<(String, lunr::match_data::MatchData)> = Vec::new();
    let words = vec!["cat".to_string(), "dog".to_string(), "emu".to_string()];
    let fields = vec!["title".to_string(), "body".to_string()];
    b.inverted_index.gather_matches(&words, &fields, &mut acc);
    let mut refs: Vec<String> = acc.iter().map(|x| x.0.clone()).collect();
    refs.sort();
    assert_eq!(refs, vec!["body/a".to_string(), "body/b".to_string(), "title/a".to_string()]);
    let body_a = acc.iter().find(|x| x.0 == "body/a").unwrap();
    let mut terms: Vec<String> = body_a.1.metadata.iter().map(|t| t.term.clone()).collect();
    terms.sort();
    assert_eq!(terms, vec!["cat".to_string(), "dog".to_string()]);
}
