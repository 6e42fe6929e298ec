use lunr::token_set::{Clause, TokenSet};
use lunr::token_set_builder::Builder;

fn sorted(mut v: Vec<String>) -> Vec<String> {
    v.sort();
    v
}

fn strings(v: &[&str]) -> Vec<String> {
    v.iter().map(|s| s.to_string()).collect()
}

#[test]
fn test_from_string() {
    let ts = TokenSet::from_string("test");
    assert!(ts.get_edges().contains(&'t'));
    assert!(!ts.is_final());
}

#[test]
fn test_from_array() {
    let arr = vec!["apple".to_string(), "application".to_string()];
    let ts = TokenSet::from_array(&arr);
    let words = ts.to_array();
    assert!(words.contains(&"apple".to_string()));
    assert!(words.contains(&"application".to_string()));
}

#[test]
fn test_intersect() {
    let a = TokenSet::from_string("test");
    let b = TokenSet::from_string("test");
    let result = a.intersect(&b);
    let words = result.to_array();
    assert!(words.contains(&"test".to_string()));
}

#[test]
fn from_array_gives_back_exactly_its_words() {
    let arr = strings(&["bat", "cat", "cats", "hat", "that"]);
    let ts = TokenSet::from_array(&arr);
    assert_eq!(arr, sorted(ts.to_array()));
}

#[test]
fn from_array_with_repeated_word() {
    let arr = strings(&["a", "a", "ab"]);
    let ts = TokenSet::from_array(&arr);
    assert_eq!(strings(&["a", "ab"]), sorted(ts.to_array()));
}

#[test]
fn from_array_empty_and_empty_word() {
    let ts = TokenSet::from_array(&[]);
    assert!(ts.to_array().is_empty());
    let ts = TokenSet::from_array(&strings(&["", "x"]));
    assert_eq!(strings(&["", "x"]), sorted(ts.to_array()));
}

#[test]
fn wildcard_pattern_selects_matching_words() {
    let words = TokenSet::from_array(&strings(&["tent", "test", "text", "toast", "tt"]));
    let pattern = TokenSet::from_string("te*t");
    assert_eq!(strings(&["tent", "test", "text"]), sorted(words.intersect(&pattern).to_array()));
}

#[test]
fn leading_and_trailing_wildcards() {
    let words = TokenSet::from_array(&strings(&["bar", "barn", "foobar", "rab"]));
    let trailing = TokenSet::from_string("bar*");
    assert_eq!(strings(&["bar", "barn"]), sorted(words.intersect(&trailing).to_array()));
    let leading = TokenSet::from_string("*bar");
    assert_eq!(strings(&["bar", "foobar"]), sorted(words.intersect(&leading).to_array()));
    let both = TokenSet::from_string("*a*");
    assert_eq!(strings(&["bar", "barn", "foobar", "rab"]), sorted(words.intersect(&both).to_array()));
}

#[test]
fn lone_star_matches_every_nonempty_word() {
    let words = TokenSet::from_array(&strings(&["", "a", "bc"]));
    let all = TokenSet::from_string("*");
    assert_eq!(strings(&["a", "bc"]), sorted(words.intersect(&all).to_array()));
}

#[test]
fn from_string_of_non_ascii_is_that_pattern() {
    let words = TokenSet::from_array(&strings(&["", "e", "é", "éa", "ée"]));
    assert_eq!(strings(&["é"]), words.intersect(&TokenSet::from_string("é")).to_array());
    assert_eq!(strings(&["é", "éa", "ée"]), sorted(words.intersect(&TokenSet::from_string("é*")).to_array()));
    assert_eq!(strings(&["e", "ée"]), sorted(words.intersect(&TokenSet::from_string("*e")).to_array()));
    assert_eq!(strings(&["é"]), TokenSet::from_string("é").to_array());
}

#[test]
fn from_string_of_empty_is_empty() {
    assert!(TokenSet::from_string("").to_array().is_empty());
}

#[test]
fn from_string_without_star_is_the_word() {
    assert_eq!(strings(&["hello"]), TokenSet::from_string("hello").to_array());
}

#[test]
fn fuzzy_matches_words_one_edit_away() {
    let words = TokenSet::from_array(&strings(&["ab", "ba", "bar", "baz", "bra", "foo", "xbar"]));
    let fuzzy = TokenSet::from_fuzzy_string("bar", 1);
    assert_eq!(strings(&["ba", "bar", "baz", "bra", "xbar"]), sorted(words.intersect(&fuzzy).to_array()));
}

#[test]
fn fuzzy_with_no_edits_is_the_word() {
    let words = TokenSet::from_array(&strings(&["bar", "baz"]));
    let fuzzy = TokenSet::from_fuzzy_string("bar", 0);
    assert_eq!(strings(&["bar"]), words.intersect(&fuzzy).to_array());
}

#[test]
fn from_clause_picks_fuzzy_or_pattern() {
    let words = TokenSet::from_array(&strings(&["bar", "baz", "bazaar"]));
    let exact = Clause {
        term: "baz*".to_string(),
        edit_distance: None,
        boost: None,
        presence: None,
        wildcard: None,
        use_pipeline: None,
        fields: None,
    };
    assert_eq!(strings(&["baz", "bazaar"]), sorted(words.intersect(&TokenSet::from_clause(&exact)).to_array()));
    let fuzzy = Clause { term: "bax".to_string(), edit_distance: Some(1), ..exact };
    assert_eq!(strings(&["bar", "baz"]), sorted(words.intersect(&TokenSet::from_clause(&fuzzy)).to_array()));
}

#[test]
fn intersect_never_gives_the_empty_word() {
    let a = TokenSet::from_array(&strings(&["", "a"]));
    let b = TokenSet::from_array(&strings(&["", "a"]));
    assert_eq!(strings(&["a"]), a.intersect(&b).to_array());
}

#[test]
fn builder_shares_endings_and_keeps_words() {
    let mut builder = Builder::new();
    for w in ["cat", "cats", "hat", "hats"] {
        builder.insert(w);
    }
    builder.finish();
    assert_eq!(strings(&["cat", "cats", "hat", "hats"]), sorted(builder.root().to_array()));
    let set = builder.into_root();
    assert_eq!(4, set.to_array().len());
}

#[test]
fn builder_words_are_readable_before_finish() {
    let mut builder = Builder::new();
    builder.insert("ab");
    builder.insert("ac");
    assert_eq!(strings(&["ab", "ac"]), sorted(builder.root().to_array()));
}

#[test]
fn fuzzy_matches_words_within_two_edits() {
    let words = TokenSet::from_array(&strings(&["abarc", "b", "baaaar", "brr", "xyz"]));
    let fuzzy = TokenSet::from_fuzzy_string("bar", 2);
    assert_eq!(strings(&["abarc", "b", "brr"]), sorted(words.intersect(&fuzzy).to_array()));
}
