use lunr::match_data::MatchData;
use lunr::token::Metadata;

fn values(m: &MatchData, term: &str, field: &str, key: &str) -> Option<Vec<usize>> {
    let t = m.metadata.iter().find(|t| t.term == term)?;
    let f = t.fields.iter().find(|f| f.field == field)?;
    let (_, vs) = f.keys.iter().find(|(k, _)| k == key)?;
    Some(
        vs.iter()
            .map(|v| match v {
                Metadata::Number(n) => *n,
                _ => panic!("numbers expected"),
            })
            .collect(),
    )
}

fn md(key: &str, vals: &[usize]) -> Vec<(String, Vec<Metadata>)> {
    vec![(key.to_string(), vals.iter().map(|v| Metadata::Number(*v)).collect())]
}

#[test]
fn new_without_term_is_empty() {
    let m = MatchData::new(None, "title", &md("position", &[1]));
    assert!(m.metadata.is_empty());
}

#[test]
fn new_with_term_records_metadata() {
    let m = MatchData::new(Some("foo"), "title", &md("position", &[1, 2]));
    assert_eq!(Some(vec![1, 2]), values(&m, "foo", "title", "position"));
    assert_eq!(None, values(&m, "foo", "body", "position"));
}

#[test]
fn new_later_entry_for_a_key_wins() {
    let mut entries = md("position", &[1]);
    entries.extend(md("position", &[7]));
    let m = MatchData::new(Some("foo"), "title", &entries);
    assert_eq!(Some(vec![7]), values(&m, "foo", "title", "position"));
}

#[test]
fn add_extends_existing_key() {
    let mut m = MatchData::new(Some("foo"), "title", &md("position", &[1]));
    m.add("foo", "title", &md("position", &[2]));
    m.add("foo", "body", &md("position", &[3]));
    m.add("bar", "title", &md("index", &[4]));
    assert_eq!(Some(vec![1, 2]), values(&m, "foo", "title", "position"));
    assert_eq!(Some(vec![3]), values(&m, "foo", "body", "position"));
    assert_eq!(Some(vec![4]), values(&m, "bar", "title", "index"));
    assert_eq!(2, m.metadata.len());
}

#[test]
fn combine_joins_values_own_first() {
    let mut a = MatchData::new(Some("foo"), "title", &md("position", &[1]));
    let mut b = MatchData::new(Some("foo"), "title", &md("position", &[2]));
    b.add("baz", "body", &md("position", &[9]));
    a.combine(&b);
    assert_eq!(Some(vec![1, 2]), values(&a, "foo", "title", "position"));
    assert_eq!(Some(vec![9]), values(&a, "baz", "body", "position"));
    assert_eq!(Some(vec![2]), values(&b, "foo", "title", "position"));
}

#[test]
fn combine_with_empty_changes_nothing() {
    let mut a = MatchData::new(Some("foo"), "title", &md("position", &[1]));
    a.combine(&MatchData::new(None, "", &Vec::new()));
    assert_eq!(Some(vec![1]), values(&a, "foo", "title", "position"));
    assert_eq!(1, a.metadata.len());
}

#[test]
fn combine_keeps_a_field_without_keys() {
    let mut a = MatchData::new(None, "", &Vec::new());
    let b = MatchData::new(Some("foo"), "title", &Vec::new());
    a.combine(&b);
    assert_eq!(1, a.metadata.len());
    assert_eq!("foo", a.metadata[0].term);
    assert_eq!(1, a.metadata[0].fields.len());
    assert!(a.metadata[0].fields[0].keys.is_empty());
}
