//! Chat messages as training examples: cleaning a message against the
//! vocabulary of the embedding table, padding it to a fixed number of tokens,
//! and building the dataset from decoded records.

use crate::text::{
    is_word, join_words, joined, lemma_joined_empty, lemma_words_are_words,
    lemma_words_of_joined, normalize, normalized, split_words, views, words,
};
use vstd::hash_map::StringHashMap;
use vstd::prelude::*;
use vstd::string::StringExecFns;

verus! {

/// The author label of a message that a user wrote.
pub const AUTHOR_USER: usize = 0;

/// The author label of a message that the assistant wrote.
pub const AUTHOR_ASSISTANT: usize = 1;

/// The set of words that have an embedding.
pub struct Vocabulary {
    words: StringHashMap<()>,
}

impl View for Vocabulary {
    type V = Set<Seq<char>>;

    closed spec fn view(&self) -> Set<Seq<char>> {
        self.words@.dom()
    }
}

impl Vocabulary {
    /// The vocabulary without a word.
    pub fn new() -> (r: Vocabulary)
        ensures
            r@ == Set::<Seq<char>>::empty(),
    {
        let r = Vocabulary { words: StringHashMap::new() };
        proof {
            assert(r@ =~= Set::<Seq<char>>::empty());
        }
        r
    }

    /// Adds a word.
    pub fn insert(&mut self, word: String)
        ensures
            final(self)@ == old(self)@.insert(word@),
    {
        self.words.insert(word, ());
        proof {
            assert(self@ =~= old(self)@.insert(word@));
        }
    }

    /// Whether the vocabulary holds the word.
    pub fn contains(&self, word: &str) -> (r: bool)
        ensures
            r == self@.contains(word@),
    {
        self.words.contains_key(word)
    }

    /// The vocabulary of the given words.
    pub fn from_words(words: &Vec<String>) -> (r: Vocabulary)
        ensures
            r@ == views(words@).to_set(),
    {
        let mut vocabulary = Vocabulary::new();
        let mut i: usize = 0;
        proof {
            assert(views(words@).take(0).to_set() =~= Set::<Seq<char>>::empty());
        }
        while i < words.len()
            invariant
                i <= words.len(),
                vocabulary@ == views(words@).take(i as int).to_set(),
            decreases words.len() - i,
        {
            proof {
                let all = views(words@);
                assert(all.take(i as int + 1) =~= all.take(i as int).push(words@[i as int]@));
                all.take(i as int).lemma_push_to_set_commute(words@[i as int]@);
            }
            vocabulary.insert(words[i].clone());
            i += 1;
        }
        proof {
            assert(views(words@).take(words@.len() as int) =~= views(words@));
        }
        vocabulary
    }
}

/// A training example: the tokens of a message and the label of its author.
pub struct Message {
    /// The tokens, padded with empty tokens to the length of every message.
    pub msg: Vec<String>,
    /// `AUTHOR_USER` or `AUTHOR_ASSISTANT`.
    pub author: usize,
}

/// What a [`Message`] holds.
pub struct MessageView {
    pub msg: Seq<Seq<char>>,
    pub author: usize,
}

impl View for Message {
    type V = MessageView;

    open spec fn view(&self) -> MessageView {
        MessageView { msg: views(self.msg@), author: self.author }
    }
}

/// One decoded record of the dataset. A field is `None` where the record has
/// no text under that name.
pub struct ChatRecord {
    pub role: Option<String>,
    pub content: Option<String>,
}

/// What a [`ChatRecord`] holds.
pub struct ChatRecordView {
    pub role: Option<Seq<char>>,
    pub content: Option<Seq<char>>,
}

/// The contents of an optional string.
pub open spec fn text_of(s: Option<String>) -> Option<Seq<char>> {
    match s {
        Some(t) => Some(t@),
        None => None,
    }
}

impl View for ChatRecord {
    type V = ChatRecordView;

    open spec fn view(&self) -> ChatRecordView {
        ChatRecordView { role: text_of(self.role), content: text_of(self.content) }
    }
}

/// The contents of a list of records.
pub open spec fn record_views(records: Seq<ChatRecord>) -> Seq<ChatRecordView> {
    records.map_values(|r: ChatRecord| r@)
}

/// The contents of a list of messages.
pub open spec fn message_views(messages: Seq<Message>) -> Seq<MessageView> {
    messages.map_values(|m: Message| m@)
}

/// Why a dataset could not be built.
#[derive(Clone, Copy, Debug, PartialEq, Eq, Structural)]
pub enum DatasetError {
    /// The record at this index has no text under `content`.
    MissingContent(usize),
    /// The record at this index has no text under `role`.
    MissingRole(usize),
}

/// The words of the cleaned text `msg` that the vocabulary holds, in their
/// order.
pub open spec fn known_words(msg: Seq<char>, vocabulary: Set<Seq<char>>) -> Seq<Seq<char>> {
    words(normalized(msg)).filter(|w: Seq<char>| vocabulary.contains(w))
}

/// The first `size` of the tokens `ws`, with empty tokens after the last.
pub open spec fn padded(ws: Seq<Seq<char>>, size: nat) -> Seq<Seq<char>> {
    Seq::new(
        size,
        |i: int|
            if i < ws.len() {
                ws[i]
            } else {
                Seq::<char>::empty()
            },
    )
}

/// The author label that stands for a role, if the role is known.
pub open spec fn author_of(role: Seq<char>) -> Option<usize> {
    if role == "user"@ {
        Some(AUTHOR_USER)
    } else if role == "assistant"@ {
        Some(AUTHOR_ASSISTANT)
    } else {
        None
    }
}

/// What becomes of one record.
pub enum Outcome {
    /// It gives no example: no word of it is known, or its role is not.
    Skipped,
    /// It gives this example.
    Kept(MessageView),
    /// It lacks a field, and no dataset can be built.
    Failed(DatasetError),
}

/// What becomes of the record at `index`. Its content is cleaned first; a
/// record of which no known word is left is skipped whatever its role.
pub open spec fn outcome(
    record: ChatRecordView,
    index: usize,
    msg_size: nat,
    vocabulary: Set<Seq<char>>,
) -> Outcome {
    match record.content {
        None => Outcome::Failed(DatasetError::MissingContent(index)),
        Some(content) => {
            let ws = known_words(content, vocabulary);
            if ws.len() == 0 {
                Outcome::Skipped
            } else {
                match record.role {
                    None => Outcome::Failed(DatasetError::MissingRole(index)),
                    Some(role) => match author_of(role) {
                        None => Outcome::Skipped,
                        Some(author) => Outcome::Kept(
                            MessageView { msg: padded(ws, msg_size), author },
                        ),
                    },
                }
            }
        },
    }
}

/// Whether a dataset of `count` examples is complete under the limit
/// `num_messages`. The limit 0 stands for no limit.
pub open spec fn is_full(count: nat, num_messages: nat) -> bool {
    num_messages > 0 && count == num_messages
}

/// The dataset that the first `n` records give: the examples of the records
/// that are kept, in their order, up to `num_messages` of them. Records behind
/// the one that completes the dataset are not looked at; before that, the
/// first record that lacks a field fails the whole.
pub open spec fn loaded(
    records: Seq<ChatRecordView>,
    n: nat,
    msg_size: nat,
    vocabulary: Set<Seq<char>>,
    num_messages: nat,
) -> Result<Seq<MessageView>, DatasetError>
    decreases n,
{
    if n == 0 {
        Ok(Seq::empty())
    } else {
        match loaded(records, (n - 1) as nat, msg_size, vocabulary, num_messages) {
            Err(e) => Err(e),
            Ok(messages) => if is_full(messages.len(), num_messages) {
                Ok(messages)
            } else {
                match outcome(records[n - 1], (n - 1) as usize, msg_size, vocabulary) {
                    Outcome::Skipped => Ok(messages),
                    Outcome::Kept(m) => Ok(messages.push(m)),
                    Outcome::Failed(e) => Err(e),
                }
            },
        }
    }
}

/// The known words of a text are words.
pub proof fn lemma_known_words_are_words(msg: Seq<char>, vocabulary: Set<Seq<char>>)
    ensures
        forall|i: int|
            0 <= i < known_words(msg, vocabulary).len() ==> is_word(
                #[trigger] known_words(msg, vocabulary)[i],
            ),
{
    let all = words(normalized(msg));
    let pred = |w: Seq<char>| vocabulary.contains(w);
    lemma_words_are_words(normalized(msg));
    assert forall|i: int| 0 <= i < all.filter(pred).len() implies is_word(
        #[trigger] all.filter(pred)[i],
    ) by {
        let w = all.filter(pred)[i];
        assert(all.filter(pred).contains(w));
        all.lemma_filter_contains_rev(pred, w);
        let j = choose|j: int| 0 <= j < all.len() && all[j] == w;
        assert(is_word(all[j]));
    }
}

/// Cutting a cleaned message into words gives its known words back.
pub proof fn lemma_words_of_cleaned(msg: Seq<char>, vocabulary: Set<Seq<char>>)
    ensures
        words(joined(known_words(msg, vocabulary))) == known_words(msg, vocabulary),
        joined(known_words(msg, vocabulary)).len() == 0 <==> known_words(msg, vocabulary).len()
            == 0,
{
    lemma_known_words_are_words(msg, vocabulary);
    lemma_words_of_joined(known_words(msg, vocabulary));
    lemma_joined_empty(known_words(msg, vocabulary));
}

/// Cleans a message: brings it to lower case, drops every character that is
/// neither alphanumeric nor white space, and keeps the words that the
/// embedding table knows, with a single space between neighbours.
pub fn clean_msg(msg: String, word_embeddings: &Vocabulary) -> (r: String)
    ensures
        r@ == joined(known_words(msg@, word_embeddings@)),
{
    let chars = normalize(msg.as_str());
    let all = split_words(chars.as_str());
    let mut kept: Vec<String> = Vec::new();
    let ghost pred = |w: Seq<char>| word_embeddings@.contains(w);
    let mut i: usize = 0;
    proof {
        assert(views(all@).take(0) =~= Seq::<Seq<char>>::empty());
        assert(views(kept@) =~= Seq::<Seq<char>>::empty());
        reveal(Seq::filter);
    }
    while i < all.len()
        invariant
            i <= all.len(),
            pred == |w: Seq<char>| word_embeddings@.contains(w),
            views(kept@) == views(all@).take(i as int).filter(pred),
        decreases all.len() - i,
    {
        let known = word_embeddings.contains(all[i].as_str());
        proof {
            let ws = views(all@);
            assert(ws.take(i as int + 1) =~= ws.take(i as int).push(all@[i as int]@));
            ws.take(i as int).lemma_filter_push(all@[i as int]@, pred);
        }
        if known {
            let word = all[i].clone();
            proof {
                kept@.lemma_push_map_commute(|s: String| s@, word);
            }
            kept.push(word);
        }
        i += 1;
    }
    proof {
        assert(views(all@).take(all.len() as int) =~= views(all@));
    }
    join_words(&kept)
}

/// Cuts a cleaned message into tokens and brings them to `msg_size` tokens:
/// tokens behind that number are dropped, and empty tokens fill what is
/// missing.
pub fn pad_msg(msg: String, msg_size: usize) -> (r: Vec<String>)
    ensures
        views(r@) == padded(words(msg@), msg_size as nat),
{
    let all = split_words(msg.as_str());
    let mut padded_msg: Vec<String> = Vec::new();
    let mut i: usize = 0;
    while i < msg_size
        invariant
            i <= msg_size,
            views(all@) == words(msg@),
            views(padded_msg@) == padded(words(msg@), i as nat),
        decreases msg_size - i,
    {
        let word = if i < all.len() {
            all[i].clone()
        } else {
            String::new()
        };
        proof {
            assert(i < all.len() ==> views(all@)[i as int] == all@[i as int]@);
            padded_msg@.lemma_push_map_commute(|s: String| s@, word);
            assert(padded(words(msg@), i as nat).push(word@) =~= padded(
                words(msg@),
                (i + 1) as nat,
            ));
        }
        padded_msg.push(word);
        i += 1;
    }
    padded_msg
}

/// Builds the dataset from decoded records. A record gives an example when
/// its cleaned content holds a known word and its role is `user` or
/// `assistant`; the example is the content, cleaned and padded to `msg_size`
/// tokens, with the label of the role. At most `num_messages` examples are
/// taken, or all where `num_messages` is 0.
pub fn load_chat_dataset(
    records: &Vec<ChatRecord>,
    msg_size: usize,
    word_embeddings: &Vocabulary,
    num_messages: usize,
) -> (r: Result<Vec<Message>, DatasetError>)
    ensures
        match r {
            Ok(dataset) => Ok(message_views(dataset@)),
            Err(e) => Err(e),
        } == loaded(
            record_views(records@),
            records@.len(),
            msg_size as nat,
            word_embeddings@,
            num_messages as nat,
        ),
{
    let user = String::from_str("user");
    let assistant = String::from_str("assistant");
    let mut chat_dataset: Vec<Message> = Vec::new();
    let ghost vocabulary = word_embeddings@;
    let ghost all = record_views(records@);
    let mut i: usize = 0;
    proof {
        assert(message_views(chat_dataset@) =~= Seq::<MessageView>::empty());
    }
    while i < records.len()
        invariant_except_break
            loaded(all, i as nat, msg_size as nat, vocabulary, num_messages as nat) == Ok::<
                Seq<MessageView>,
                DatasetError,
            >(message_views(chat_dataset@)),
            !is_full(chat_dataset@.len(), num_messages as nat),
        invariant
            i <= records.len(),
            vocabulary == word_embeddings@,
            all == record_views(records@),
            user@ == "user"@,
            assistant@ == "assistant"@,
        ensures
            i <= records.len(),
            loaded(all, records@.len(), msg_size as nat, vocabulary, num_messages as nat) == Ok::<
                Seq<MessageView>,
                DatasetError,
            >(message_views(chat_dataset@)),
        decreases records.len() - i,
    {
        let record = &records[i];
        proof {
            assert(all[i as int] == record@);
        }
        let content = match &record.content {
            Some(content) => content,
            None => {
                proof {
                    lemma_loaded_fails(
                        all,
                        (i + 1) as nat,
                        records@.len(),
                        msg_size as nat,
                        vocabulary,
                        num_messages as nat,
                    );
                }
                return Err(DatasetError::MissingContent(i));
            },
        };
        let cleaned = clean_msg(content.clone(), word_embeddings);
        proof {
            lemma_words_of_cleaned(content@, vocabulary);
        }
        if cleaned.as_str().is_empty() {
            i += 1;
            continue ;
        }
        let msg = pad_msg(cleaned, msg_size);
        let role = match &record.role {
            Some(role) => role,
            None => {
                proof {
                    lemma_loaded_fails(
                        all,
                        (i + 1) as nat,
                        records@.len(),
                        msg_size as nat,
                        vocabulary,
                        num_messages as nat,
                    );
                }
                return Err(DatasetError::MissingRole(i));
            },
        };
        let author: usize = if *role == user {
            AUTHOR_USER
        } else if *role == assistant {
            AUTHOR_ASSISTANT
        } else {
            i += 1;
            continue ;
        };
        let chat_msg = Message { msg, author };
        proof {
            chat_dataset@.lemma_push_map_commute(|m: Message| m@, chat_msg);
        }
        chat_dataset.push(chat_msg);
        i += 1;
        if chat_dataset.len() == num_messages {
            proof {
                lemma_loaded_full(
                    all,
                    i as nat,
                    records@.len(),
                    msg_size as nat,
                    vocabulary,
                    num_messages as nat,
                );
            }
            break ;
        }
    }
    Ok(chat_dataset)
}

/// Once the records up to `n` have failed, more records change nothing.
proof fn lemma_loaded_fails(
    records: Seq<ChatRecordView>,
    n: nat,
    m: nat,
    msg_size: nat,
    vocabulary: Set<Seq<char>>,
    num_messages: nat,
)
    requires
        n <= m,
        loaded(records, n, msg_size, vocabulary, num_messages) is Err,
    ensures
        loaded(records, m, msg_size, vocabulary, num_messages) == loaded(
            records,
            n,
            msg_size,
            vocabulary,
            num_messages,
        ),
    decreases m,
{
    if n < m {
        lemma_loaded_fails(records, n, (m - 1) as nat, msg_size, vocabulary, num_messages);
    }
}

/// Once the records up to `n` have completed the dataset, more records change
/// nothing.
proof fn lemma_loaded_full(
    records: Seq<ChatRecordView>,
    n: nat,
    m: nat,
    msg_size: nat,
    vocabulary: Set<Seq<char>>,
    num_messages: nat,
)
    requires
        n <= m,
        loaded(records, n, msg_size, vocabulary, num_messages) matches Ok(messages) && is_full(
            messages.len(),
            num_messages,
        ),
    ensures
        loaded(records, m, msg_size, vocabulary, num_messages) == loaded(
            records,
            n,
            msg_size,
            vocabulary,
            num_messages,
        ),
    decreases m,
{
    if n < m {
        lemma_loaded_full(records, n, (m - 1) as nat, msg_size, vocabulary, num_messages);
    }
}

/// The number of messages among the first `n` of `messages` whose author is
/// `author`.
pub open spec fn authored(messages: Seq<MessageView>, n: nat, author: usize) -> nat
    decreases n,
{
    if n == 0 {
        0
    } else {
        authored(messages, (n - 1) as nat, author) + if messages[n - 1].author == author {
            1nat
        } else {
            0nat
        }
    }
}

/// Counts the messages of each author: the users' first, the assistant's
/// second.
pub fn author_counts(dataset: &Vec<Message>) -> (r: [usize; 2])
    requires
        forall|i: int| 0 <= i < dataset@.len() ==> (#[trigger] dataset@[i]).author < 2,
    ensures
        r@[0] == authored(message_views(dataset@), dataset@.len(), AUTHOR_USER),
        r@[1] == authored(message_views(dataset@), dataset@.len(), AUTHOR_ASSISTANT),
        r@[0] + r@[1] == dataset@.len(),
{
    let mut counts = [0usize; 2];
    let ghost all = message_views(dataset@);
    let mut i: usize = 0;
    while i < dataset.len()
        invariant
            i <= dataset.len(),
            all == message_views(dataset@),
            forall|i: int| 0 <= i < dataset@.len() ==> (#[trigger] dataset@[i]).author < 2,
            counts@[0] == authored(all, i as nat, AUTHOR_USER),
            counts@[1] == authored(all, i as nat, AUTHOR_ASSISTANT),
            counts@[0] + counts@[1] == i,
        decreases dataset.len() - i,
    {
        let author = dataset[i].author;
        proof {
            assert(all[i as int].author == dataset@[i as int].author);
        }
        let seen = counts[author];
        counts[author] = seen + 1;
        i += 1;
    }
    counts
}

/// The index of the first token that the embedding table does not hold, or
/// `None` where it holds them all.
pub fn first_unknown_token(tokens: &Vec<String>, embedding: &Vocabulary) -> (r: Option<usize>)
    ensures
        r is None <==> forall|i: int|
            0 <= i < tokens@.len() ==> embedding@.contains(#[trigger] tokens@[i]@),
        r matches Some(k) ==> k < tokens@.len() && !embedding@.contains(tokens@[k as int]@)
            && forall|i: int| 0 <= i < k ==> embedding@.contains(#[trigger] tokens@[i]@),
{
    let mut i: usize = 0;
    while i < tokens.len()
        invariant
            i <= tokens.len(),
            forall|j: int| 0 <= j < i ==> embedding@.contains(#[trigger] tokens@[j]@),
        decreases tokens.len() - i,
    {
        if !embedding.contains(tokens[i].as_str()) {
            return Some(i);
        }
        i += 1;
    }
    None
}

} // verus!
