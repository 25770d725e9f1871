//! What text is broken into.
use kura_core::analysis::{split, Analyzer, MAX_TERM_BYTES};

fn terms(text: &str) -> Vec<String> {
    Analyzer::new()
        .analyze(text)
        .into_iter()
        .map(|term| String::from_utf8(term).expect("terms stay valid utf8"))
        .collect()
}

#[test]
fn a_sentence_becomes_its_words() {
    assert_eq!(
        terms("the quick brown fox"),
        ["the", "quick", "brown", "fox"]
    );
}

#[test]
fn punctuation_separates_and_is_not_kept() {
    assert_eq!(terms("a,b;c.d!e?f"), ["a", "b", "c", "d", "e", "f"]);
}

#[test]
fn case_does_not_survive() {
    assert_eq!(terms("The QUICK Fox"), ["the", "quick", "fox"]);
}

#[test]
fn positions_count_up_from_zero() {
    // A term's position is its place in what the analyzer gives.
    let terms = Analyzer::new().analyze("one two three");
    let positions: Vec<usize> = terms.iter().enumerate().map(|(at, _)| at).collect();
    assert_eq!(terms, [&b"one"[..], b"two", b"three"]);
    assert_eq!(positions, [0, 1, 2]);
    assert_eq!(terms.len(), 3);
}

#[test]
fn an_apostrophe_inside_a_word_keeps_the_word_together() {
    assert_eq!(terms("don't it's o'brien"), ["don't", "it's", "o'brien"]);
    assert_eq!(terms("don\u{2019}t"), ["don\u{2019}t"]);
}

#[test]
fn an_apostrophe_at_the_edge_of_a_word_is_a_separator() {
    assert_eq!(terms("'quoted'"), ["quoted"]);
    assert_eq!(terms("dogs' bones"), ["dogs", "bones"]);
}

#[test]
fn digits_are_terms_and_join_letters() {
    assert_eq!(
        terms("utf8 rfc 1234 v2beta"),
        ["utf8", "rfc", "1234", "v2beta"]
    );
}

#[test]
fn accented_letters_are_part_of_the_word_and_are_lowercased() {
    assert_eq!(terms("Café MÜLLER naïve"), ["café", "müller", "naïve"]);
}

#[test]
fn a_dash_that_is_not_ascii_still_separates() {
    // The reason the non ASCII path decodes and classifies rather than
    // assuming anything above 0x7f belongs to a word.
    assert_eq!(terms("east\u{2014}west"), ["east", "west"]);
}

#[test]
fn one_character_lowercases_into_two() {
    // The Turkish dotted capital I lowercases into a letter and a combining
    // dot, which is why the fold cannot be a character for a character.
    assert_eq!(terms("\u{0130}stanbul"), ["i\u{0307}stanbul"]);
}

#[test]
fn han_and_kana_are_one_term_each() {
    assert_eq!(terms("現場"), ["現", "場"]);
    assert_eq!(terms("東京タワー"), ["東", "京", "タ", "ワ", "ー"]);
}

#[test]
fn han_next_to_latin_does_not_swallow_it() {
    assert_eq!(terms("現場genba"), ["現", "場", "genba"]);
    assert_eq!(terms("genba現場"), ["genba", "現", "場"]);
}

#[test]
fn nothing_in_gives_nothing_out() {
    assert!(terms("").is_empty());
    assert!(terms("   ,.;  ").is_empty());
}

#[test]
fn a_term_too_long_is_cut_at_a_character_boundary() {
    let long = "é".repeat(400);
    let out = terms(&long);
    assert_eq!(out.len(), 1);
    assert!(out[0].len() <= MAX_TERM_BYTES);
    // The check that matters: it is still a string, so the cut did not land
    // in the middle of a character.
    assert!(out[0].chars().all(|c| c == 'é'));
    assert_eq!(out[0].len(), 254);
}

#[test]
fn a_term_exactly_at_the_limit_is_kept_whole() {
    let word = "a".repeat(MAX_TERM_BYTES);
    assert_eq!(terms(&word), std::slice::from_ref(&word));
}

#[test]
fn the_same_text_analysed_twice_gives_the_same_terms() {
    // The buffer is reused, so this is the test that it is cleared.
    let text = "Indexing and querying have to agree, or nothing is found.";
    assert_eq!(terms(text), terms(text));
}

#[test]
fn a_text_is_split_by_what_its_characters_are_said_to_be() {
    let text: Vec<char> = "ab-c'd 漢e".chars().collect();
    let classes: Vec<bool> = text.iter().map(|ch| ch.is_alphanumeric()).collect();
    assert_eq!(split(&text, &classes), [(0, 2), (3, 6), (7, 8), (8, 9)]);
    // The same text where nothing is said to be a letter has only the character
    // that stands alone.
    let none = vec![false; text.len()];
    assert_eq!(split(&text, &none), [(7, 8)]);
}

#[test]
fn a_word_becomes_the_bytes_of_what_its_characters_map_to() {
    let mut analyzer = Analyzer::new();
    let word: Vec<char> = "NAÏVE".chars().collect();
    let lowers: Vec<Vec<char>> = word.iter().map(|ch| ch.to_lowercase().collect()).collect();
    assert_eq!(analyzer.emit(&word, &lowers), "naïve".as_bytes());
    // An ASCII word needs no mapping.
    let word: Vec<char> = "Ledger7".chars().collect();
    assert_eq!(analyzer.emit(&word, &Vec::new()), b"ledger7");
}

#[test]
fn a_term_is_text_of_one_byte_to_the_limit() {
    let long = "é".repeat(400);
    for text in ["a b", "İstanbul STRASSE", "漢字 x'y", long.as_str(), "", "--"] {
        for term in Analyzer::new().analyze(text) {
            assert!((1..=MAX_TERM_BYTES).contains(&term.len()));
            assert!(std::str::from_utf8(&term).is_ok());
        }
    }
}

#[test]
fn a_character_of_every_width_is_encoded_as_text_is() {
    // One byte, two, three and four, each lowercased on the way.
    let text = "aZ\u{c9}\u{1e9e}\u{10400}9";
    assert_eq!(terms(text), ["az\u{e9}\u{df}\u{10428}9"]);
    let edges = "\u{7f7}\u{800}\u{ffdc}\u{10000}";
    let encoded: Vec<Vec<u8>> = terms(edges).into_iter().map(String::into_bytes).collect();
    assert_eq!(encoded.concat(), edges.replace('\u{7f7}', "").as_bytes());
}
