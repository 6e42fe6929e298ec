use lunr::query_lexer::{is_separator, Lexeme, QueryLexer, TokenType};

fn lex(input: &str) -> Vec<Lexeme> {
    let mut lexer = QueryLexer::new(input);
    lexer.run();
    lexer.lexemes().to_vec()
}

#[test]
fn query_lexer_single_term() {
    let lexemes = lex("foo");
    assert_eq!(1, lexemes.len());
    assert_eq!(TokenType::TERM, lexemes[0].lexeme_type);
    assert_eq!("foo", lexemes[0].str);
}

#[test]
fn query_lexer_multiple_terms() {
    let lexemes = lex("foo bar");
    assert_eq!(2, lexemes.len());
    assert_eq!(TokenType::TERM, lexemes[0].lexeme_type);
    assert_eq!("foo", lexemes[0].str);
    assert_eq!(TokenType::TERM, lexemes[1].lexeme_type);
    assert_eq!("bar", lexemes[1].str);
}

#[test]
fn field_and_term() {
    let lexemes = lex("title:foo");
    assert_eq!(2, lexemes.len());
    assert_eq!(TokenType::FIELD, lexemes[0].lexeme_type);
    assert_eq!("title", lexemes[0].str);
    assert_eq!(TokenType::TERM, lexemes[1].lexeme_type);
    assert_eq!("foo", lexemes[1].str);
}

#[test]
fn presence_plus() {
    let lexemes = lex("+foo");
    assert_eq!(2, lexemes.len());
    assert_eq!(TokenType::PRESENCE, lexemes[0].lexeme_type);
    assert_eq!("+", lexemes[0].str);
    assert_eq!(TokenType::TERM, lexemes[1].lexeme_type);
    assert_eq!("foo", lexemes[1].str);
}

#[test]
fn presence_minus() {
    let lexemes = lex("-foo");
    assert_eq!(2, lexemes.len());
    assert_eq!(TokenType::PRESENCE, lexemes[0].lexeme_type);
    assert_eq!("-", lexemes[0].str);
    assert_eq!(TokenType::TERM, lexemes[1].lexeme_type);
    assert_eq!("foo", lexemes[1].str);
}

#[test]
fn query_lexer_edit_distance() {
    let lexemes = lex("foo~2");
    assert_eq!(2, lexemes.len());
    assert_eq!(TokenType::TERM, lexemes[0].lexeme_type);
    assert_eq!("foo", lexemes[0].str);
    assert_eq!(TokenType::EDIT_DISTANCE, lexemes[1].lexeme_type);
    assert_eq!("2", lexemes[1].str);
}

#[test]
fn query_lexer_boost() {
    let lexemes = lex("foo^2");
    assert_eq!(2, lexemes.len());
    assert_eq!(TokenType::TERM, lexemes[0].lexeme_type);
    assert_eq!("foo", lexemes[0].str);
    assert_eq!(TokenType::BOOST, lexemes[1].lexeme_type);
    assert_eq!("2", lexemes[1].str);
}

#[test]
fn field_term_boost_edit_distance() {
    let lexemes = lex("title:foo^2~1");
    assert_eq!(4, lexemes.len());
    assert_eq!(TokenType::FIELD, lexemes[0].lexeme_type);
    assert_eq!("title", lexemes[0].str);
    assert_eq!(TokenType::TERM, lexemes[1].lexeme_type);
    assert_eq!("foo", lexemes[1].str);
    assert_eq!(TokenType::BOOST, lexemes[2].lexeme_type);
    assert_eq!("2", lexemes[2].str);
    assert_eq!(TokenType::EDIT_DISTANCE, lexemes[3].lexeme_type);
    assert_eq!("1", lexemes[3].str);
}

#[test]
fn presence_field_term() {
    let lexemes = lex("+title:foo");
    assert_eq!(3, lexemes.len());
    assert_eq!(TokenType::PRESENCE, lexemes[0].lexeme_type);
    assert_eq!("+", lexemes[0].str);
    assert_eq!(TokenType::FIELD, lexemes[1].lexeme_type);
    assert_eq!("title", lexemes[1].str);
    assert_eq!(TokenType::TERM, lexemes[2].lexeme_type);
    assert_eq!("foo", lexemes[2].str);
}

#[test]
fn query_lexer_complex_query() {
    let lexemes = lex("title:bar^2 baz~1 +foo -bar");
    assert_eq!(9, lexemes.len());
    assert_eq!(TokenType::FIELD, lexemes[0].lexeme_type);
    assert_eq!("title", lexemes[0].str);
    assert_eq!(TokenType::TERM, lexemes[1].lexeme_type);
    assert_eq!("bar", lexemes[1].str);
    assert_eq!(TokenType::BOOST, lexemes[2].lexeme_type);
    assert_eq!("2", lexemes[2].str);
    assert_eq!(TokenType::TERM, lexemes[3].lexeme_type);
    assert_eq!("baz", lexemes[3].str);
    assert_eq!(TokenType::EDIT_DISTANCE, lexemes[4].lexeme_type);
    assert_eq!("1", lexemes[4].str);
    assert_eq!(TokenType::PRESENCE, lexemes[5].lexeme_type);
    assert_eq!("+", lexemes[5].str);
    assert_eq!(TokenType::TERM, lexemes[6].lexeme_type);
    assert_eq!("foo", lexemes[6].str);
    assert_eq!(TokenType::PRESENCE, lexemes[7].lexeme_type);
    assert_eq!("-", lexemes[7].str);
    assert_eq!(TokenType::TERM, lexemes[8].lexeme_type);
    assert_eq!("bar", lexemes[8].str);
}

#[test]
fn hyphen_separator() {
    let lexemes = lex("foo-bar");
    assert_eq!(2, lexemes.len());
    assert_eq!(TokenType::TERM, lexemes[0].lexeme_type);
    assert_eq!("foo", lexemes[0].str);
    assert_eq!(TokenType::TERM, lexemes[1].lexeme_type);
    assert_eq!("bar", lexemes[1].str);
}

#[test]
fn wildcard_term() {
    let lexemes = lex("foo*");
    assert_eq!(1, lexemes.len());
    assert_eq!(TokenType::TERM, lexemes[0].lexeme_type);
    assert_eq!("foo*", lexemes[0].str);
}

#[test]
fn empty_input() {
    let lexemes = lex("");
    assert_eq!(0, lexemes.len());
}

#[test]
fn lexeme_offsets_are_byte_positions() {
    let lexemes = lex("title:foo bar");
    assert_eq!(3, lexemes.len());
    assert_eq!((0, 5), (lexemes[0].start, lexemes[0].end));
    assert_eq!((6, 9), (lexemes[1].start, lexemes[1].end));
    assert_eq!((10, 13), (lexemes[2].start, lexemes[2].end));
}

#[test]
fn escaped_colon_stays_in_term() {
    let lexemes = lex("foo\\:bar");
    assert_eq!(1, lexemes.len());
    assert_eq!(TokenType::TERM, lexemes[0].lexeme_type);
    assert_eq!("foo:bar", lexemes[0].str);
}

#[test]
fn decimal_boost_lexeme() {
    let lexemes = lex("foo^1.5");
    assert_eq!(2, lexemes.len());
    assert_eq!(TokenType::BOOST, lexemes[1].lexeme_type);
    assert_eq!("1.5", lexemes[1].str);
}

#[test]
fn only_whitespace_gives_nothing() {
    assert_eq!(0, lex("  \t ").len());
}

#[test]
fn separators_are_whitespace_and_hyphen() {
    assert!(is_separator(' '));
    assert!(is_separator('-'));
    assert!(is_separator('\n'));
    assert!(!is_separator('a'));
    assert!(!is_separator(':'));
}

#[test]
fn lexable_tells_which_inputs_lex() {
    assert!(lunr::query_lexer::lexable("title:hello world^2 -cat~1"));
    assert!(lunr::query_lexer::lexable("foo~"));
    assert!(lunr::query_lexer::lexable("caf\u{e9}"));
    // the second byte of "à" reads as a no-break space and would cut the character
    assert!(!lunr::query_lexer::lexable("\u{e0}"));
}

#[test]
fn lexemes_lie_in_order_inside_the_input() {
    for input in ["title:foo bar", "+a -b~2 c^3", "f\\:oo:bar baz*"] {
        let lexemes = lex(input);
        for l in &lexemes {
            assert!(l.start <= l.end && l.end <= input.len());
        }
        for w in lexemes.windows(2) {
            assert!(w[0].end <= w[1].start);
        }
    }
}
