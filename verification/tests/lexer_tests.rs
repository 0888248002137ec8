use indexer::lexer::Lexer;
use rust_stemmers::{Algorithm, Stemmer};

fn tokens_of(text: &str, stops: &[String]) -> Vec<String> {
    let chars: Vec<char> = text.chars().collect();
    let mut lex = Lexer::new(&chars);
    lex.get_tokens(stops)
}

#[test]
fn splits_numeric_alphabetic_and_symbol_tokens() {
    let toks = tokens_of("abc 123 x7!", &[]);
    let stemmer = Stemmer::create(Algorithm::English);
    assert_eq!(toks.len(), 4);
    assert_eq!(toks[0], stemmer.stem("abc").to_string());
    assert_eq!(toks[1], "123");
    assert_eq!(toks[2], stemmer.stem("x7").to_string());
    assert_eq!(toks[3], "!");
}

#[test]
fn stems_english_words() {
    let toks = tokens_of("running jumps easily", &[]);
    assert_eq!(toks, vec!["run", "jump", "easili"]);
}

#[test]
fn alphanumeric_run_opened_by_a_letter_is_one_token() {
    let toks = tokens_of("a1b2", &[]);
    let stemmer = Stemmer::create(Algorithm::English);
    assert_eq!(toks, vec![stemmer.stem("a1b2").to_string()]);
}

#[test]
fn numeric_run_stops_at_a_letter() {
    let toks = tokens_of("12ab", &[]);
    let stemmer = Stemmer::create(Algorithm::English);
    assert_eq!(toks.len(), 2);
    assert_eq!(toks[0], "12");
    assert_eq!(toks[1], stemmer.stem("ab").to_string());
}

#[test]
fn whitespace_only_input_has_no_tokens() {
    assert!(tokens_of("   \t\n ", &[]).is_empty());
    assert!(tokens_of("", &[]).is_empty());
}

#[test]
fn removes_stop_words() {
    let stops = vec!["the".to_string(), "a".to_string()];
    let toks = tokens_of("the cat a hat", &stops);
    assert_eq!(toks, vec!["cat", "hat"]);
}

#[test]
fn stop_words_filter_applies_after_stemming() {
    // "running" stems to "run"; filtering on the stemmed form removes it
    let stops = vec!["run".to_string()];
    let toks = tokens_of("running walk", &stops);
    assert_eq!(toks, vec!["walk"]);
}
