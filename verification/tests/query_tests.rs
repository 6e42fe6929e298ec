use lunr::query::{
    Boost, Clause, ClauseOptions, Query, PRESENCE_OPTIONAL, PRESENCE_PROHIBITED,
    PRESENCE_REQUIRED, WILDCARD_LEADING, WILDCARD_NONE, WILDCARD_TRAILING,
};

fn all_fields() -> Vec<String> {
    vec!["title".to_string(), "body".to_string()]
}

fn boost_value(b: &Boost) -> f64 {
    let mut v = 0.0;
    for d in &b.whole {
        v = v * 10.0 + (*d as f64);
    }
    let mut scale = 0.1;
    for d in &b.fraction {
        v += (*d as f64) * scale;
        scale /= 10.0;
    }
    v
}

fn boost_of(whole: u8) -> Boost {
    Boost { whole: vec![whole], fraction: vec![] }
}

#[test]
fn clause_defaults() {
    let c = Clause::default();
    assert!(c.fields.is_empty());
    assert_eq!(1.0, boost_value(&c.boost));
    assert_eq!(None, c.edit_distance);
    assert!(c.use_pipeline);
    assert_eq!(WILDCARD_NONE, c.wildcard);
    assert_eq!(PRESENCE_OPTIONAL, c.presence);
    assert_eq!("", c.term);
}

#[test]
fn add_clause_defaults_fields() {
    let mut q = Query::new(all_fields());
    let mut c = Clause { term: "foo".to_string(), ..Clause::default() };
    q.clause(&mut c);
    assert_eq!(1, q.clauses.len());
    assert_eq!(vec!["title".to_string(), "body".to_string()], q.clauses[0].fields);
    assert_eq!(1.0, boost_value(&q.clauses[0].boost));
    assert_eq!(PRESENCE_OPTIONAL, q.clauses[0].presence);
    assert_eq!("foo", q.clauses[0].term);
}

#[test]
fn add_clause_wildcard_trailing() {
    let mut q = Query::new(all_fields());
    let mut c = Clause { term: "foo*".to_string(), wildcard: WILDCARD_TRAILING, ..Clause::default() };
    q.clause(&mut c);
    assert_eq!("foo*", q.clauses[0].term);
}

#[test]
fn add_clause_wildcard_leading() {
    let mut q = Query::new(all_fields());
    let mut c = Clause { term: "*foo".to_string(), wildcard: WILDCARD_LEADING, ..Clause::default() };
    q.clause(&mut c);
    assert_eq!("*foo", q.clauses[0].term);
}

#[test]
fn add_clause_wildcard_both() {
    let mut q = Query::new(all_fields());
    let mut c = Clause {
        term: "foo".to_string(),
        wildcard: WILDCARD_LEADING | WILDCARD_TRAILING,
        ..Clause::default()
    };
    q.clause(&mut c);
    assert_eq!("*foo*", q.clauses[0].term);
}

#[test]
fn add_clause_boost_default() {
    let mut q = Query::new(all_fields());
    let mut c = Clause { term: "foo".to_string(), ..Clause::default() };
    q.clause(&mut c);
    assert_eq!(1.0, boost_value(&q.clauses[0].boost));
}

#[test]
fn add_clause_boost_explicit() {
    let mut q = Query::new(all_fields());
    let mut c = Clause { term: "foo".to_string(), boost: boost_of(2), ..Clause::default() };
    q.clause(&mut c);
    assert_eq!(2.0, boost_value(&q.clauses[0].boost));
}

#[test]
fn term_method() {
    let mut q = Query::new(all_fields());
    q.term("bar", None);
    assert_eq!(1, q.clauses.len());
    assert_eq!("bar", q.clauses[0].term);
    assert_eq!(vec!["title".to_string(), "body".to_string()], q.clauses[0].fields);
}

#[test]
fn term_method_with_options() {
    let mut q = Query::new(all_fields());
    let opts = ClauseOptions {
        fields: Some(vec!["title".to_string()]),
        boost: Some(boost_of(3)),
        ..Default::default()
    };
    q.term("baz", Some(opts));
    assert_eq!(1, q.clauses.len());
    assert_eq!("baz", q.clauses[0].term);
    assert_eq!(vec!["title".to_string()], q.clauses[0].fields);
    assert_eq!(3.0, boost_value(&q.clauses[0].boost));
}

#[test]
fn is_negated_all_prohibited() {
    let mut q = Query::new(all_fields());
    q.term("foo", Some(ClauseOptions { presence: Some(PRESENCE_PROHIBITED), ..Default::default() }));
    q.term("bar", Some(ClauseOptions { presence: Some(PRESENCE_PROHIBITED), ..Default::default() }));
    assert!(q.is_negated());
}

#[test]
fn is_negated_mixed() {
    let mut q = Query::new(all_fields());
    q.term("foo", Some(ClauseOptions { presence: Some(PRESENCE_PROHIBITED), ..Default::default() }));
    q.term("bar", Some(ClauseOptions { presence: Some(PRESENCE_REQUIRED), ..Default::default() }));
    assert!(!q.is_negated());
}

#[test]
fn is_negated_empty() {
    let q = Query::new(all_fields());
    assert!(!q.is_negated());
}

#[test]
fn is_negated_all_optional() {
    let mut q = Query::new(all_fields());
    q.term("foo", Some(ClauseOptions { presence: Some(PRESENCE_OPTIONAL), ..Default::default() }));
    assert!(!q.is_negated());
}

#[test]
fn clause_keeps_given_fields_and_options() {
    let mut q = Query::new(all_fields());
    let mut c = Clause {
        term: "foo".to_string(),
        fields: vec!["body".to_string()],
        edit_distance: Some(1),
        use_pipeline: false,
        presence: PRESENCE_REQUIRED,
        ..Clause::default()
    };
    q.clause(&mut c);
    assert_eq!(vec!["body".to_string()], q.clauses[0].fields);
    assert_eq!(Some(1), q.clauses[0].edit_distance);
    assert!(!q.clauses[0].use_pipeline);
    assert_eq!(PRESENCE_REQUIRED, q.clauses[0].presence);
}

#[test]
fn leading_wildcard_not_doubled() {
    let mut q = Query::new(all_fields());
    let mut c = Clause { term: "*foo*".to_string(), wildcard: WILDCARD_LEADING | WILDCARD_TRAILING, ..Clause::default() };
    q.clause(&mut c);
    assert_eq!("*foo*", q.clauses[0].term);
}
