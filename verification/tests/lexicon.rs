use wordle_bot::words::{uppercase_ascii, Word, Words};

fn entry(s: &str) -> Word {
    Word { word: String::from(s) }
}

#[test]
fn uppercase_ascii_maps_lowercase_letters() {
    assert_eq!(uppercase_ascii("crane"), "CRANE");
    assert_eq!(uppercase_ascii("CrAnE"), "CRANE");
    assert_eq!(uppercase_ascii("CRANE"), "CRANE");
}

#[test]
fn uppercase_ascii_leaves_other_characters_alone() {
    assert_eq!(uppercase_ascii("ab3-Z"), "AB3-Z");
    assert_eq!(uppercase_ascii(""), "");
}

#[test]
fn empty_fetch_falls_back_to_sentinel() {
    let lex = Words::new(Vec::new());
    assert_eq!(lex.words.len(), 1);
    assert_eq!(lex.words[0].word, "EMPTY");
}

#[test]
fn misshapen_entries_are_dropped() {
    let lex = Words::new(vec![entry("CRANE"), entry("abcde"), entry("TOOLONG"), entry("AB1DE")]);
    assert_eq!(lex.words.len(), 1);
    assert_eq!(lex.words[0].word, "CRANE");
}

#[test]
fn all_misshapen_entries_fall_back_to_sentinel() {
    let lex = Words::new(vec![entry("abc"), entry("x")]);
    assert_eq!(lex.words.len(), 1);
    assert_eq!(lex.words[0].word, "EMPTY");
}

#[test]
fn membership_is_case_insensitive() {
    let lex = Words::new(vec![entry("CRANE"), entry("BRAIN")]);
    assert!(lex.is_valid("crane"));
    assert!(lex.is_valid("BRAIN"));
    assert!(lex.is_valid("BrAiN"));
    assert!(!lex.is_valid("MOIST"));
    assert!(!lex.is_valid("cran"));
}

#[test]
fn generate_word_draws_from_the_lexicon() {
    let lex = Words::new(vec![entry("CRANE")]);
    assert_eq!(lex.generate_word().word, "CRANE");

    let lex2 = Words::new(vec![entry("CRANE"), entry("BRAIN"), entry("MOIST")]);
    for _ in 0..50 {
        let w = &lex2.generate_word().word;
        assert!(w == "CRANE" || w == "BRAIN" || w == "MOIST");
    }
}
