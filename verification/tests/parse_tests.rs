use gall_script::parse::{convert_word_to_char_ints, parse_phrase};
use gall_script::phrase::Phrase;

fn word_texts_of(p: &Phrase) -> Vec<Vec<u8>> {
    p.phrase_words.iter().map(|w| w.text.clone()).collect()
}

#[test]
fn char_ints_of_hello_world() {
    let got = convert_word_to_char_ints("Hello World");
    assert_eq!(got, vec![7, 4, 11, 11, 14, 404202, 22, 14, 17, 11, 3]);
}

#[test]
fn char_ints_skip_punctuation() {
    assert_eq!(parse_phrase("a b!c"), vec![0, 404202, 1, 2]);
}

#[test]
fn char_ints_only_space_is_sentinel() {
    // A tab is neither a letter nor a space: it is skipped, not encoded.
    assert_eq!(parse_phrase("\t"), Vec::<usize>::new());
    assert_eq!(parse_phrase(" "), vec![404202]);
}

#[test]
fn parse_phrase_matches_convert() {
    let text = "The Golden Atlas 42";
    assert_eq!(parse_phrase(text), convert_word_to_char_ints(text));
}

#[test]
fn canonicalization_drops_trailing_duplicate() {
    // First and last letter coincide: the trailing duplicate is dropped.
    let p = Phrase::new("ADA");
    assert_eq!(word_texts_of(&p), vec![b"AD".to_vec()]);
}

#[test]
fn canonicalization_leaves_other_words_alone() {
    let p = Phrase::new("CAT");
    assert_eq!(word_texts_of(&p), vec![b"CAT".to_vec()]);
}

#[test]
fn single_letter_word_is_not_reduced() {
    let p = Phrase::new("A");
    assert_eq!(word_texts_of(&p), vec![b"A".to_vec()]);
}

#[test]
fn two_equal_letters_reduce_to_one() {
    let p = Phrase::new("AA");
    assert_eq!(word_texts_of(&p), vec![b"A".to_vec()]);
}

#[test]
fn filtering_uppercases_and_splits() {
    let p = Phrase::new("cAt dOg");
    assert_eq!(word_texts_of(&p), vec![b"CAT".to_vec(), b"DOG".to_vec()]);
}

#[test]
fn digits_and_punctuation_are_dropped_inside_words() {
    let p = Phrase::new("d0g!");
    assert_eq!(word_texts_of(&p), vec![b"DG".to_vec()]);
}

#[test]
fn non_ascii_characters_are_dropped() {
    let p = Phrase::new("Caf\u{e9}");
    assert_eq!(word_texts_of(&p), vec![b"CAF".to_vec()]);
}

#[test]
fn empty_and_letterless_phrases_have_no_words() {
    assert_eq!(Phrase::new("").phrase_words.len(), 0);
    assert_eq!(Phrase::new("  12 !? \t").phrase_words.len(), 0);
}

#[test]
fn every_parsed_word_is_nonempty_uppercase() {
    let p = Phrase::new("?? x ## yZ;w 12ab");
    assert!(!p.phrase_words.is_empty());
    for w in &p.phrase_words {
        assert!(!w.text.is_empty());
        assert!(w.text.iter().all(|b| (b'A'..=b'Z').contains(b)));
        assert_eq!(w.nodes.len(), w.text.len());
    }
}

#[test]
fn whitespace_variants_separate_words() {
    let p = Phrase::new("ab\tcd\nef");
    assert_eq!(
        word_texts_of(&p),
        vec![b"AB".to_vec(), b"CD".to_vec(), b"EF".to_vec()]
    );
}
