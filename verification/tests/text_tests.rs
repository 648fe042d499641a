use rusttransformer::text::{join_words, normalize, split_words, to_ascii_lowercase};

#[test]
fn lowercase_maps_ascii_capitals_only() {
    assert_eq!(to_ascii_lowercase('A'), 'a');
    assert_eq!(to_ascii_lowercase('Z'), 'z');
    assert_eq!(to_ascii_lowercase('m'), 'm');
    assert_eq!(to_ascii_lowercase('7'), '7');
    assert_eq!(to_ascii_lowercase('É'), 'É');
}

#[test]
fn normalize_drops_punctuation_and_lowers_case() {
    assert_eq!(
        normalize("I love this chat! It's so good."),
        "i love this chat its so good"
    );
}

#[test]
fn split_words_cuts_at_any_white_space() {
    let words = split_words("  one\ttwo \n three  ");
    assert_eq!(words, vec!["one".to_string(), "two".to_string(), "three".to_string()]);
    assert_eq!(split_words("   "), Vec::<String>::new());
}

#[test]
fn join_words_puts_single_spaces() {
    let words = vec!["a".to_string(), "bc".to_string(), "d".to_string()];
    assert_eq!(join_words(&words), "a bc d");
    assert_eq!(join_words(&Vec::new()), "");
}

#[test]
fn normalize_lowers_ascii_letters_only() {
    assert_eq!(normalize("CAFÉ Ünï"), "cafÉ Ünï");
}

#[test]
fn split_words_cuts_at_unicode_white_space() {
    let words = split_words("a\u{00A0}b\u{2003}c");
    assert_eq!(words, vec!["a".to_string(), "b".to_string(), "c".to_string()]);
}

#[test]
fn normalize_keeps_digits_and_white_space() {
    assert_eq!(normalize("R2-D2\tis #1\n"), "r2d2\tis 1\n");
}
