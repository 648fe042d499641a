use rusttransformer::dataset::{
    author_counts, clean_msg, first_unknown_token, load_chat_dataset, pad_msg, ChatRecord,
    DatasetError, Message, Vocabulary,
};

fn table(words: &[&str]) -> Vocabulary {
    let mut t = Vocabulary::new();
    for w in words {
        t.insert(w.to_string());
    }
    t
}

fn record(role: Option<&str>, content: Option<&str>) -> ChatRecord {
    ChatRecord { role: role.map(|r| r.to_string()), content: content.map(|c| c.to_string()) }
}

fn tokens(words: &[&str]) -> Vec<String> {
    words.iter().map(|w| w.to_string()).collect()
}

#[test]
fn clean_msg_keeps_known_words_in_order() {
    let t = table(&["i", "love", "chat", "its", "good"]);
    let cleaned = clean_msg("I love this chat! It's so good.".to_string(), &t);
    assert_eq!(cleaned, "i love chat its good");
}

#[test]
fn clean_msg_without_known_words_is_empty() {
    let t = table(&["hello"]);
    assert_eq!(clean_msg("Nothing here, at all?".to_string(), &t), "");
    assert_eq!(clean_msg("".to_string(), &t), "");
}

#[test]
fn clean_msg_matches_words_after_lowering() {
    let t = table(&["hello"]);
    assert_eq!(clean_msg("HELLO Hello hel-lo".to_string(), &t), "hello hello hello");
}

#[test]
fn pad_msg_fills_with_empty_tokens() {
    assert_eq!(pad_msg("a b".to_string(), 4), tokens(&["a", "b", "", ""]));
}

#[test]
fn pad_msg_drops_what_does_not_fit() {
    assert_eq!(pad_msg("a b c d".to_string(), 2), tokens(&["a", "b"]));
    assert_eq!(pad_msg("a b".to_string(), 0), Vec::<String>::new());
}

#[test]
fn load_chat_dataset_labels_roles() {
    let t = table(&["hi", "there"]);
    let records = vec![
        record(Some("user"), Some("Hi there!")),
        record(Some("assistant"), Some("there, hi")),
    ];
    let dataset = load_chat_dataset(&records, 3, &t, 10).unwrap();
    assert_eq!(dataset.len(), 2);
    assert_eq!(dataset[0].msg, tokens(&["hi", "there", ""]));
    assert_eq!(dataset[0].author, 0);
    assert_eq!(dataset[1].msg, tokens(&["there", "hi", ""]));
    assert_eq!(dataset[1].author, 1);
}

#[test]
fn load_chat_dataset_skips_unknown_roles_and_empty_messages() {
    let t = table(&["hi"]);
    let records = vec![
        record(Some("system"), Some("hi")),
        record(Some("user"), Some("unknown words only")),
        record(Some("user"), Some("hi")),
    ];
    let dataset = load_chat_dataset(&records, 1, &t, 10).unwrap();
    assert_eq!(dataset.len(), 1);
    assert_eq!(dataset[0].msg, tokens(&["hi"]));
    assert_eq!(dataset[0].author, 0);
}

#[test]
fn load_chat_dataset_stops_at_the_limit() {
    let t = table(&["hi"]);
    let records = vec![
        record(Some("user"), Some("hi")),
        record(Some("assistant"), Some("hi")),
        record(None, None),
    ];
    let dataset = load_chat_dataset(&records, 1, &t, 2).unwrap();
    assert_eq!(dataset.len(), 2);
}

#[test]
fn load_chat_dataset_takes_all_without_a_limit() {
    let t = table(&["hi"]);
    let records = vec![
        record(Some("user"), Some("hi")),
        record(Some("assistant"), Some("hi")),
        record(Some("user"), Some("hi hi")),
    ];
    let dataset = load_chat_dataset(&records, 2, &t, 0).unwrap();
    assert_eq!(dataset.len(), 3);
}

#[test]
fn load_chat_dataset_fails_on_missing_content() {
    let t = table(&["hi"]);
    let records = vec![record(Some("user"), Some("hi")), record(Some("user"), None)];
    let r = load_chat_dataset(&records, 1, &t, 0);
    assert!(matches!(r, Err(DatasetError::MissingContent(1))));
}

#[test]
fn load_chat_dataset_fails_on_missing_role_of_a_kept_message() {
    let t = table(&["hi"]);
    let records = vec![record(None, Some("hi"))];
    let r = load_chat_dataset(&records, 1, &t, 0);
    assert!(matches!(r, Err(DatasetError::MissingRole(0))));
}

#[test]
fn load_chat_dataset_does_not_ask_the_role_of_an_empty_message() {
    let t = table(&["hi"]);
    let records = vec![record(None, Some("???")), record(Some("user"), Some("hi"))];
    let dataset = load_chat_dataset(&records, 1, &t, 0).unwrap();
    assert_eq!(dataset.len(), 1);
}

#[test]
fn vocabulary_holds_what_was_inserted() {
    let mut v = Vocabulary::new();
    assert!(!v.contains("a"));
    v.insert("a".to_string());
    assert!(v.contains("a"));
    assert!(!v.contains("A"));
    let w = Vocabulary::from_words(&tokens(&["x", "y", "x"]));
    assert!(w.contains("x") && w.contains("y") && !w.contains("a"));
}

#[test]
fn author_counts_counts_each_author() {
    let dataset = vec![
        Message { msg: tokens(&["a"]), author: 0 },
        Message { msg: tokens(&["b"]), author: 1 },
        Message { msg: tokens(&["c"]), author: 1 },
    ];
    assert_eq!(author_counts(&dataset), [1, 2]);
    assert_eq!(author_counts(&Vec::new()), [0, 0]);
}

#[test]
fn first_unknown_token_finds_the_first() {
    let t = table(&["a", "b", ""]);
    assert_eq!(first_unknown_token(&tokens(&["a", "b", ""]), &t), None);
    assert_eq!(first_unknown_token(&tokens(&["a", "x", "y"]), &t), Some(1));
    assert_eq!(first_unknown_token(&Vec::new(), &t), None);
}
