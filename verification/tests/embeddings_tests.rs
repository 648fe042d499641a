use rusttransformer::dataset::{ChatRecord, DatasetError};
use rusttransformer::embeddings::{
    build_co_occurrence_matrix, build_vocab, clean_msg, load_chat_dataset,
};

fn strings(words: &[&str]) -> Vec<String> {
    words.iter().map(|w| w.to_string()).collect()
}

fn repeated(word: &str, times: usize) -> String {
    vec![word; times].join(" ")
}

#[test]
fn plain_cleaning_lowers_and_strips() {
    assert_eq!(
        clean_msg("I love this chat! It's so good.".to_string()),
        "i love this chat its so good"
    );
}

#[test]
fn plain_cleaning_collapses_white_space() {
    assert_eq!(clean_msg("  A\t\tb \n C  ".to_string()), "a b c");
    assert_eq!(clean_msg("!!! ???".to_string()), "");
    assert_eq!(clean_msg(String::new()), "");
}

#[test]
fn plain_cleaning_twice_is_cleaning_once() {
    let once = clean_msg("Hello,   World -- 42 times!".to_string());
    assert_eq!(once, "hello world 42 times");
    assert_eq!(clean_msg(once.clone()), once);
}

#[test]
fn cleaned_dataset_holds_every_record() {
    let records = vec![
        ChatRecord { role: None, content: Some("Hi, there!".to_string()) },
        ChatRecord { role: Some("user".to_string()), content: Some("...".to_string()) },
    ];
    assert_eq!(load_chat_dataset(&records).unwrap(), strings(&["hi there", ""]));
}

#[test]
fn cleaned_dataset_fails_on_missing_content() {
    let records = vec![
        ChatRecord { role: None, content: Some("ok".to_string()) },
        ChatRecord { role: Some("user".to_string()), content: None },
        ChatRecord { role: Some("user".to_string()), content: None },
    ];
    assert!(matches!(load_chat_dataset(&records), Err(DatasetError::MissingContent(1))));
}

#[test]
fn build_vocab_takes_words_seen_more_than_twenty_times() {
    let dataset = vec![repeated("often", 21), repeated("rare", 20)];
    assert_eq!(build_vocab(&dataset), strings(&["often"]));
}

#[test]
fn build_vocab_counts_across_messages() {
    let dataset = vec![repeated("a", 10), repeated("b", 25), repeated("a", 11)];
    assert_eq!(build_vocab(&dataset), strings(&["b", "a"]));
}

#[test]
fn build_vocab_lists_each_word_once() {
    let dataset = vec![repeated("a", 100)];
    assert_eq!(build_vocab(&dataset), strings(&["a"]));
    assert_eq!(build_vocab(&Vec::new()), Vec::<String>::new());
}

#[test]
fn co_occurrence_of_one_message() {
    let vocab = strings(&["a", "b"]);
    let dataset = strings(&["a b"]);
    let m = build_co_occurrence_matrix(&vocab, &dataset);
    // a with itself and b with itself: 4 quarters each; a next to b: 3.
    assert_eq!(m, vec![vec![4, 3], vec![3, 4]]);
}

#[test]
fn co_occurrence_falls_with_distance_and_ends_at_the_window() {
    let vocab = strings(&["a", "b", "x"]);
    // a and b are 1, 2, 3, 4 and 5 places apart
    for (gap, expected) in [(0usize, 3u64), (1, 2), (2, 1), (3, 0), (4, 0)] {
        let mut words = vec!["a".to_string()];
        words.extend(vec!["x".to_string(); gap]);
        words.push("b".to_string());
        let dataset = vec![words.join(" ")];
        let m = build_co_occurrence_matrix(&vocab, &dataset);
        assert_eq!(m[0][1], expected);
        assert_eq!(m[1][0], expected);
    }
}

#[test]
fn co_occurrence_skips_words_outside_the_vocabulary() {
    let vocab = strings(&["a", "b"]);
    // the unknown words do not count as places between a and b
    let dataset = strings(&["a q q q q q b"]);
    let m = build_co_occurrence_matrix(&vocab, &dataset);
    assert_eq!(m, vec![vec![4, 3], vec![3, 4]]);
}

#[test]
fn co_occurrence_adds_up_over_messages() {
    let vocab = strings(&["a", "b"]);
    let dataset = strings(&["a b", "b a a", "zzz"]);
    let m = build_co_occurrence_matrix(&vocab, &dataset);
    // second message: b a a -> (a,a): 4 + 4 + 3 + 3, (b,b): 4, (a,b): 3 + 2
    assert_eq!(m, vec![vec![4 + 14, 3 + 5], vec![3 + 5, 4 + 4]]);
}

#[test]
fn co_occurrence_is_symmetric() {
    let vocab = strings(&["a", "b", "c"]);
    let dataset = strings(&["a b c a c b b a", "c c a"]);
    let m = build_co_occurrence_matrix(&vocab, &dataset);
    for i in 0..3 {
        for j in 0..3 {
            assert_eq!(m[i][j], m[j][i]);
        }
    }
}

#[test]
fn co_occurrence_with_empty_vocabulary_is_empty() {
    let m = build_co_occurrence_matrix(&Vec::new(), &strings(&["a b"]));
    assert_eq!(m, Vec::<Vec<u64>>::new());
}
