use banana_bot::corpus::Corpus;
use banana_bot::tiles::{is_in_tiles, remove_from_tiles};

fn chars(s: &str) -> Vec<char> {
    s.chars().collect()
}

fn lines(words: &[&str]) -> Vec<Vec<char>> {
    words.iter().map(|w| chars(w)).collect()
}

fn text(w: &Vec<char>) -> String {
    w.iter().collect()
}

fn texts(ws: &Vec<Vec<char>>) -> Vec<String> {
    ws.iter().map(text).collect()
}

#[test]
fn word_in_tiles_with_multiplicity() {
    assert!(is_in_tiles(&chars("cat"), &chars("tacx")));
    assert!(is_in_tiles(&chars("all"), &chars("lal")));
    assert!(!is_in_tiles(&chars("all"), &chars("la")));
    assert!(!is_in_tiles(&chars("dog"), &chars("cat")));
    assert!(is_in_tiles(&chars(""), &chars("")));
}

#[test]
fn remove_takes_first_occurrences() {
    assert_eq!(text(&remove_from_tiles(&chars("cat"), &chars("catdog"))), "dog");
    assert_eq!(text(&remove_from_tiles(&chars("a"), &chars("banana"))), "bnana");
    assert_eq!(text(&remove_from_tiles(&chars("xyz"), &chars("abc"))), "abc");
    assert_eq!(text(&remove_from_tiles(&chars("aab"), &chars("ab"))), "");
}

#[test]
fn subtract_after_contains_shrinks_by_word_length() {
    let tiles = chars("bananas");
    let word = chars("nab");
    assert!(is_in_tiles(&word, &tiles));
    let rest = remove_from_tiles(&word, &tiles);
    assert_eq!(rest.len(), tiles.len() - word.len());
    let mut sorted = rest.clone();
    sorted.sort();
    assert_eq!(text(&sorted), "aans");
}

#[test]
fn longest_words_replace_first_shorter() {
    let corpus = Corpus::new(lines(&["ab", "abc", "a", "abcd"]), Vec::new());
    let r = corpus.find_longest_words(&chars("abcd"), 2);
    assert_eq!(texts(&r), vec!["abcd", "abc"]);
}

#[test]
fn longest_words_skip_words_that_do_not_fit() {
    let corpus = Corpus::new(lines(&["zebra", "cab", "", "bad"]), Vec::new());
    let r = corpus.find_longest_words(&chars("abc"), 5);
    assert_eq!(texts(&r), vec!["cab"]);
    assert!(corpus.find_longest_words(&chars("abc"), 0).is_empty());
}

#[test]
fn longest_words_starting_and_ending_with_a_letter() {
    let corpus = Corpus::new(lines(&["cat", "act", "tac"]), Vec::new());
    let starting = corpus.find_longest_words_starting_with(&chars("at"), 'c', 3);
    assert_eq!(texts(&starting), vec!["cat"]);
    let ending = corpus.find_longest_words_ending_with(&chars("ca"), 't', 3);
    assert_eq!(texts(&ending), vec!["cat", "act"]);
}

#[test]
fn dictionary_lookups() {
    let corpus = Corpus::new(lines(&["cat", "dog"]), lines(&["ow", "at"]));
    assert!(corpus.is_valid(&chars("dog")));
    assert!(!corpus.is_valid(&chars("do")));
    assert!(corpus.is_valid_two_letter(&chars("ow")));
    assert!(!corpus.is_valid_two_letter(&chars("wo")));
}
