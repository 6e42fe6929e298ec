use lunr::field_ref::FieldRef;
use lunr::set::ElementSet;

fn strings(v: &[&str]) -> Vec<String> {
    v.iter().map(|s| s.to_string()).collect()
}

#[test]
fn element_set_contains() {
    let s = ElementSet::new(strings(&["a", "b"]));
    assert!(s.contains("a"));
    assert!(!s.contains("c"));
    assert!(ElementSet::Complete.contains("anything"));
    assert!(!ElementSet::Empty.contains("a"));
}

#[test]
fn element_set_intersect() {
    let a = ElementSet::new(strings(&["a", "b", "c"]));
    let b = ElementSet::new(strings(&["b", "c", "d"]));
    let i = a.intersect(&b);
    assert!(i.contains("b") && i.contains("c"));
    assert!(!i.contains("a") && !i.contains("d"));
    let with_complete = a.intersect(&ElementSet::Complete);
    assert!(with_complete.contains("a") && !with_complete.contains("d"));
    let with_empty = a.intersect(&ElementSet::Empty);
    assert!(!with_empty.contains("a"));
}

#[test]
fn element_set_union() {
    let a = ElementSet::new(strings(&["a"]));
    let b = ElementSet::new(strings(&["b"]));
    let u = a.union(&b);
    assert!(u.contains("a") && u.contains("b") && !u.contains("c"));
    assert!(a.union(&ElementSet::Complete).contains("z"));
    let e = a.union(&ElementSet::Empty);
    assert!(e.contains("a") && !e.contains("b"));
}

#[test]
fn field_ref_round_trip() {
    let r = FieldRef::new("doc1", "title");
    assert_eq!("title/doc1", r.to_ref_string());
    let back = FieldRef::from_string("title/doc1").unwrap();
    assert_eq!("doc1", back.document_ref);
    assert_eq!("title", back.field_name);
}

#[test]
fn field_ref_splits_at_first_joiner() {
    let r = FieldRef::from_string("title/a/b").unwrap();
    assert_eq!("title", r.field_name);
    assert_eq!("a/b", r.document_ref);
    assert!(FieldRef::from_string("no joiner").is_none());
}

#[test]
fn union_with_complete_is_complete() {
    let a = ElementSet::new(vec!["x".to_string(), "x".to_string()]);
    assert!(matches!(a.union(&ElementSet::Complete), ElementSet::Complete));
    assert!(matches!(ElementSet::Complete.union(&a), ElementSet::Complete));
    match a.union(&ElementSet::Empty) {
        ElementSet::Elements { length, .. } => assert_eq!(2, length),
        _ => panic!("expected elements"),
    }
    let b = ElementSet::new(vec!["y".to_string()]);
    match a.union(&b) {
        ElementSet::Elements { elements, length } => {
            assert_eq!(2, length);
            assert_eq!(2, elements.len());
        }
        _ => panic!("expected elements"),
    }
}
