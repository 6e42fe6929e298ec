use lunr::token::{Metadata, Token, Tokens};

#[test]
fn tokenizes_string() {
    let tokens = Tokens::from_text("foo bar baz");
    let mut iter = tokens.into_vec().into_iter().map(|t| t.term);

    assert_eq!(Some(String::from("foo")), iter.next());
    assert_eq!(Some(String::from("bar")), iter.next());
    assert_eq!(Some(String::from("baz")), iter.next());

    assert!(iter.next().is_none());
}

#[test]
fn token_metadata() {
    let mut token = Token::new("foo");
    token.metadata.push(("string".into(), Metadata::Text("string".into())));
    token.metadata.push(("number".into(), Metadata::Number(123)));
    assert_eq!(2, token.metadata.len());
}

#[test]
fn tokens_are_lowercased_and_split_on_hyphens() {
    let tokens = Tokens::from_text("Foo-BAR  baz");
    assert_eq!(3, tokens.len());
    let terms: Vec<String> = tokens.into_vec().into_iter().map(|t| t.term).collect();
    assert_eq!(vec!["foo".to_string(), "bar".to_string(), "baz".to_string()], terms);
}

#[test]
fn token_positions_and_indexes() {
    let tokens = Tokens::from_text("ab  cde").into_vec();
    assert_eq!(2, tokens.len());
    match &tokens[1].metadata[0] {
        (k, Metadata::Numbers(v)) => {
            assert_eq!("position", k);
            assert_eq!(vec![4usize, 3], *v);
        }
        _ => panic!("position expected"),
    }
    match &tokens[1].metadata[1] {
        (k, Metadata::Number(i)) => {
            assert_eq!("index", k);
            assert_eq!(1usize, *i);
        }
        _ => panic!("index expected"),
    }
}

#[test]
fn token_positions_count_bytes() {
    let tokens = Tokens::from_text("é x").into_vec();
    assert_eq!(2, tokens.len());
    match &tokens[1].metadata[0] {
        (_, Metadata::Numbers(v)) => assert_eq!(vec![3usize, 1], *v),
        _ => panic!("position expected"),
    }
}

#[test]
fn empty_text_has_no_tokens() {
    assert_eq!(0, Tokens::from_text("").len());
    assert_eq!(0, Tokens::from_text(" - ").len());
}

#[test]
fn token_update_and_clone_with() {
    let mut token = Token::new("foo");
    token.metadata.push(("index".into(), Metadata::Number(0)));
    assert!(token.update(|term, _| format!("{}!", term)));
    assert_eq!("foo!", token.term);
    let other = token.clone_with(|term, md| format!("{}{}", term, md.len()));
    assert_eq!("foo!1", other.term);
    assert_eq!(1, other.metadata.len());
    assert_eq!("foo!", token.term);
}

#[test]
fn token_update_to_empty_term_is_false() {
    let mut token = Token::new("foo");
    assert!(!token.update(|_, _| String::new()));
    assert_eq!("", token.term);
}
