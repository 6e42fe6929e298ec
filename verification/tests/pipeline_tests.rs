use lunr::pipeline::{Pipeline, PipelineFunction, PipelineResult};
use lunr::stemmer::stemmer;
use lunr::stop_word_filter::{generate_stop_word_filter, stop_word_filter};
use lunr::token::Token;
use lunr::trimmer::trimmer;

fn term_of(r: PipelineResult) -> Option<String> {
    match r {
        PipelineResult::Token(t) => Some(t.term),
        PipelineResult::Tokens(ts) => Some(ts.into_iter().map(|t| t.term).collect::<Vec<_>>().join(" ")),
        PipelineResult::Nothing => None,
    }
}

#[test]
fn trimmer_strips_non_word_characters() {
    assert_eq!(Some("hello".to_string()), term_of(trimmer(Token::new("  hello!!"))));
    assert_eq!(Some("it's".to_string()), term_of(trimmer(Token::new("'it's'"))));
    assert_eq!(None, term_of(trimmer(Token::new("?!"))));
    assert_eq!(Some("été".to_string()), term_of(trimmer(Token::new("(été)"))));
}

#[test]
fn stop_words_are_dropped() {
    assert_eq!(None, term_of(stop_word_filter(Token::new("the"))));
    assert_eq!(None, term_of(stop_word_filter(Token::new("your"))));
    assert_eq!(Some("lunr".to_string()), term_of(stop_word_filter(Token::new("lunr"))));
}

#[test]
fn generated_stop_word_filter() {
    let filter = generate_stop_word_filter(&["foo", "bar"]);
    assert_eq!(None, term_of(filter.filter(Token::new("foo"))));
    assert_eq!(Some("the".to_string()), term_of(filter.filter(Token::new("the"))));
}

#[test]
fn stemmer_examples() {
    assert_eq!(Some("run".to_string()), term_of(stemmer(Token::new("running"))));
    assert_eq!(Some("cat".to_string()), term_of(stemmer(Token::new("cats"))));
    assert_eq!(Some("hi".to_string()), term_of(stemmer(Token::new("hi"))));
}

fn stem(w: &str) -> String {
    term_of(stemmer(Token::new(w))).unwrap()
}

#[test]
fn stemmer_step_1a() {
    assert_eq!(stem("caresses"), "caress");
    assert_eq!(stem("ponies"), "poni");
    assert_eq!(stem("ties"), "ti");
    assert_eq!(stem("caress"), "caress");
    assert_eq!(stem("cats"), "cat");
}

#[test]
fn stemmer_step_1b() {
    assert_eq!(stem("feed"), "feed");
    assert_eq!(stem("plastered"), "plaster");
    assert_eq!(stem("bled"), "bled");
    assert_eq!(stem("motoring"), "motor");
    assert_eq!(stem("sing"), "sing");
    assert_eq!(stem("failing"), "fail");
    assert_eq!(stem("hopping"), "hop");
    assert_eq!(stem("filing"), "file");
    assert_eq!(stem("sized"), "size");
    assert_eq!(stem("conflated"), "conflat");
    assert_eq!(stem("troubled"), "troubl");
}

#[test]
fn stemmer_step_1c() {
    assert_eq!(stem("happy"), "happi");
    assert_eq!(stem("sky"), "ski");
    assert_eq!(stem("say"), "say");
    assert_eq!(stem("enjoy"), "enjoy");
}

#[test]
fn stemmer_counts_y_as_a_vowel_before_ed_and_ing() {
    assert_eq!(stem("crying"), "cri");
    assert_eq!(stem("flying"), "fli");
}

#[test]
fn pipeline_runs_functions_in_order() {
    let mut pipeline = Pipeline::new();
    pipeline.add_function(PipelineFunction::Trimmer);
    pipeline.add_function(PipelineFunction::StopWordFilter);
    pipeline.add_function(PipelineFunction::Stemmer);
    let out = pipeline.run(vec![Token::new("  the"), Token::new("cats!"), Token::new("running")]);
    let terms: Vec<String> = out.into_iter().map(|t| t.term).collect();
    assert_eq!(vec!["cat".to_string(), "run".to_string()], terms);
    assert_eq!(vec!["trimmer".to_string(), "stopWordFilter".to_string(), "stemmer".to_string()], pipeline.to_json());
}

#[test]
fn pipeline_run_string_and_reset() {
    let mut pipeline = Pipeline::new();
    pipeline.add("stemmer", PipelineFunction::Stemmer);
    assert_eq!(vec!["cat".to_string()], pipeline.run_string("cats"));
    pipeline.reset();
    assert!(pipeline.to_json().is_empty());
    assert_eq!(vec!["cats".to_string()], pipeline.run_string("cats"));
}

#[test]
fn function_labels() {
    assert_eq!("trimmer", PipelineFunction::Trimmer.label());
    assert_eq!("stopWordFilter", PipelineFunction::StopWordFilter.label());
    assert_eq!("stemmer", PipelineFunction::Stemmer.label());
}

#[test]
fn trimmer_word_characters() {
    // U+00AA and U+00BA are word characters; U+00B0 and U+00AB are not
    assert_eq!(Some("\u{AA}x\u{BA}".to_string()), term_of(trimmer(Token::new("\u{AB}\u{AA}x\u{BA}\u{B0}"))));
    assert_eq!(Some("é_0".to_string()), term_of(trimmer(Token::new("\u{D7}é_0!"))));
    assert_eq!(None, term_of(trimmer(Token::new("\u{B0}\u{AB}"))));
}
