use berg::{BionicTransformer, Transformer};

#[test]
fn bionic_transform() {
    let result = BionicTransformer::bionic("Hello world!");

    assert_eq!(result, "<b>He</b>llo <b>wor</b>ld!");
}

#[test]
fn word_of_even_length_is_split_in_the_middle() {
    assert_eq!(BionicTransformer::bionic_word("name"), "<b>na</b>me");
}

#[test]
fn word_of_odd_length_keeps_the_extra_character_in_the_tail() {
    assert_eq!(BionicTransformer::bionic_word("Hello"), "<b>He</b>llo");
    assert_eq!(BionicTransformer::bionic_word("world!"), "<b>wor</b>ld!");
}

#[test]
fn single_character_follows_empty_markers() {
    assert_eq!(BionicTransformer::bionic_word("a"), "<b></b>a");
}

#[test]
fn empty_word_is_unchanged() {
    assert_eq!(BionicTransformer::bionic_word(""), "");
}

#[test]
fn whitespace_only_word_is_unchanged() {
    assert_eq!(BionicTransformer::bionic_word("\t"), "\t");
    assert_eq!(BionicTransformer::bionic_word(" \n\u{a0}\u{3000}"), " \n\u{a0}\u{3000}");
}

#[test]
fn word_is_split_by_characters_not_bytes() {
    assert_eq!(BionicTransformer::bionic_word("décor"), "<b>dé</b>cor");
    assert_eq!(BionicTransformer::bionic_word("日本語!"), "<b>日本</b>語!");
}

#[test]
fn word_gains_seven_characters() {
    let word = "reading";
    let styled = BionicTransformer::bionic_word(word);
    assert_eq!(styled.chars().count(), word.chars().count() + 7);
    assert_eq!(styled, "<b>rea</b>ding");
}

#[test]
fn empty_text_gives_empty_text() {
    assert_eq!(BionicTransformer::bionic(""), "");
}

#[test]
fn runs_of_spaces_are_kept() {
    assert_eq!(BionicTransformer::bionic("a  b"), "<b></b>a  <b></b>b");
    assert_eq!(BionicTransformer::bionic(" "), " ");
    assert_eq!(BionicTransformer::bionic(" hi "), " <b>h</b>i ");
}

#[test]
fn tabs_and_line_breaks_do_not_separate_words() {
    assert_eq!(BionicTransformer::bionic("ab\tcd"), "<b>ab</b>\tcd");
    assert_eq!(BionicTransformer::bionic("one\ntwo three"), "<b>one</b>\ntwo <b>th</b>ree");
}

#[test]
fn transformer_is_the_bionic_text() {
    let t = BionicTransformer::new();
    assert_eq!(t.transform("my name"), BionicTransformer::bionic("my name"));
    assert_eq!(t.transform("my name"), "<b>m</b>y <b>na</b>me");
}
