//! The counting that comes before word embeddings are computed: cleaning the
//! messages, choosing the vocabulary, and counting which words of the
//! vocabulary occur near each other.

use crate::dataset::{text_of, ChatRecord, DatasetError};
use crate::text::{join_words, joined, normalize, normalized, split_words, views, words};
use vstd::hash_map::StringHashMap;
use vstd::prelude::*;

verus! {

/// The cleaned form of the text `msg`: its words in lower case, without the
/// characters that cleaning drops, with a single space between neighbours.
pub open spec fn cleaned(msg: Seq<char>) -> Seq<char> {
    joined(words(normalized(msg)))
}

/// Cleans a message: brings it to lower case, drops every character that is
/// neither alphanumeric nor white space, and puts a single space between the
/// words that are left.
pub fn clean_msg(msg: String) -> (r: String)
    ensures
        r@ == cleaned(msg@),
{
    let chars = normalize(msg.as_str());
    let all = split_words(chars.as_str());
    join_words(&all)
}

/// The cleaned contents of the first `n` records, or the failure of the first
/// of them that has no content.
pub open spec fn cleaned_contents(records: Seq<ChatRecord>, n: nat) -> Result<
    Seq<Seq<char>>,
    DatasetError,
>
    decreases n,
{
    if n == 0 {
        Ok(Seq::empty())
    } else {
        match cleaned_contents(records, (n - 1) as nat) {
            Err(e) => Err(e),
            Ok(before) => match text_of(records[n - 1].content) {
                None => Err(DatasetError::MissingContent((n - 1) as usize)),
                Some(content) => Ok(before.push(cleaned(content))),
            },
        }
    }
}

/// Builds the list of cleaned messages from decoded records: one message for
/// each record, in their order. A record without content fails the whole.
pub fn load_chat_dataset(records: &Vec<ChatRecord>) -> (r: Result<Vec<String>, DatasetError>)
    ensures
        match r {
            Ok(dataset) => Ok(views(dataset@)),
            Err(e) => Err(e),
        } == cleaned_contents(records@, records@.len()),
{
    let mut chat_dataset: Vec<String> = Vec::new();
    let mut i: usize = 0;
    proof {
        assert(views(chat_dataset@) =~= Seq::<Seq<char>>::empty());
    }
    while i < records.len()
        invariant
            i <= records.len(),
            cleaned_contents(records@, i as nat) == Ok::<Seq<Seq<char>>, DatasetError>(
                views(chat_dataset@),
            ),
        decreases records.len() - i,
    {
        match &records[i].content {
            None => {
                proof {
                    lemma_cleaned_contents_fails(records@, (i + 1) as nat, records@.len());
                }
                return Err(DatasetError::MissingContent(i));
            },
            Some(content) => {
                let chat_msg = clean_msg(content.clone());
                proof {
                    chat_dataset@.lemma_push_map_commute(|s: String| s@, chat_msg);
                }
                chat_dataset.push(chat_msg);
            },
        }
        i += 1;
    }
    Ok(chat_dataset)
}

/// Once the records up to `n` have failed, more records change nothing.
proof fn lemma_cleaned_contents_fails(records: Seq<ChatRecord>, n: nat, m: nat)
    requires
        n <= m,
        cleaned_contents(records, n) is Err,
    ensures
        cleaned_contents(records, m) == cleaned_contents(records, n),
    decreases m,
{
    if n < m {
        lemma_cleaned_contents_fails(records, n, (m - 1) as nat);
    }
}

/// A word enters the vocabulary when it occurs after this many earlier
/// occurrences.
pub const EARLIER_OCCURRENCES: usize = 20;

/// The words of all the messages, one message after the other.
pub open spec fn word_stream(dataset: Seq<Seq<char>>) -> Seq<Seq<char>> {
    dataset.map_values(|msg: Seq<char>| words(msg)).flatten()
}

/// How often the word `w` occurs in `stream`.
pub open spec fn occurrences(stream: Seq<Seq<char>>, w: Seq<char>) -> nat
    decreases stream.len(),
{
    if stream.len() == 0 {
        0
    } else {
        occurrences(stream.drop_last(), w) + if stream.last() == w {
            1nat
        } else {
            0nat
        }
    }
}

/// The vocabulary of a stream of words: the words that occur more than
/// `EARLIER_OCCURRENCES` times, in the order in which they first get there.
pub open spec fn frequent(stream: Seq<Seq<char>>) -> Seq<Seq<char>>
    decreases stream.len(),
{
    if stream.len() == 0 {
        Seq::empty()
    } else if occurrences(stream.drop_last(), stream.last()) == EARLIER_OCCURRENCES {
        frequent(stream.drop_last()).push(stream.last())
    } else {
        frequent(stream.drop_last())
    }
}

/// A count as it is kept: exact up to the largest number that can be held.
pub open spec fn kept_count(n: int) -> usize {
    if n > usize::MAX {
        usize::MAX
    } else {
        n as usize
    }
}

/// Whether `counts` holds, for every word of `stream`, the number of its
/// occurrences but the first.
pub open spec fn counted(counts: Map<Seq<char>, usize>, stream: Seq<Seq<char>>) -> bool {
    &&& forall|w: Seq<char>| #[trigger] counts.contains_key(w) <==> occurrences(stream, w) > 0
    &&& forall|w: Seq<char>| #[trigger]
        counts.contains_key(w) ==> counts[w] == kept_count(occurrences(stream, w) - 1)
}

/// A word is in the vocabulary of a stream exactly if it occurs there more
/// than `EARLIER_OCCURRENCES` times, and no word is in it twice.
pub proof fn lemma_frequent(stream: Seq<Seq<char>>)
    ensures
        forall|w: Seq<char>| #[trigger]
            frequent(stream).contains(w) <==> occurrences(stream, w) > EARLIER_OCCURRENCES,
        frequent(stream).no_duplicates(),
    decreases stream.len(),
{
    if stream.len() > 0 {
        let rest = stream.drop_last();
        let x = stream.last();
        lemma_frequent(rest);
        let before = frequent(rest);
        if occurrences(rest, x) == EARLIER_OCCURRENCES {
            assert(!before.contains(x));
            assert forall|w: Seq<char>| #[trigger]
                frequent(stream).contains(w) <==> occurrences(stream, w)
                    > EARLIER_OCCURRENCES by {
                if frequent(stream).contains(w) {
                    let i = choose|i: int|
                        0 <= i < frequent(stream).len() && frequent(stream)[i] == w;
                    if i < before.len() {
                        assert(before[i] == w);
                        assert(before.contains(w));
                    }
                }
                if occurrences(stream, w) > EARLIER_OCCURRENCES {
                    if w == x {
                        assert(frequent(stream)[before.len() as int] == w);
                    } else {
                        assert(before.contains(w));
                        let i = choose|i: int| 0 <= i < before.len() && before[i] == w;
                        assert(frequent(stream)[i] == w);
                    }
                }
            }
            assert forall|i: int, j: int|
                0 <= i < frequent(stream).len() && 0 <= j < frequent(stream).len() && i
                    != j implies frequent(stream)[i] != frequent(stream)[j] by {
                if i < before.len() && j < before.len() {
                } else if i < before.len() {
                    assert(before.contains(before[i]));
                } else {
                    assert(before.contains(before[j]));
                }
            }
        } else {
            assert forall|w: Seq<char>| #[trigger]
                frequent(stream).contains(w) <==> occurrences(stream, w)
                    > EARLIER_OCCURRENCES by {
                assert(before.contains(w) <==> occurrences(rest, w) > EARLIER_OCCURRENCES);
            }
        }
    }
}

/// Chooses the vocabulary: the words that occur more than
/// `EARLIER_OCCURRENCES` times in the messages, in the order in which they
/// first get there.
pub fn build_vocab(dataset: &Vec<String>) -> (r: Vec<String>)
    ensures
        views(r@) == frequent(word_stream(views(dataset@))),
{
    let mut vocab: Vec<String> = Vec::new();
    let mut word_counts: StringHashMap<usize> = StringHashMap::new();
    let ghost mut seen: Seq<Seq<char>> = Seq::empty();
    let ghost all = views(dataset@);
    let ghost cut = |msg: Seq<char>| words(msg);
    proof {
        assert(views(vocab@) =~= Seq::<Seq<char>>::empty());
        assert(all.take(0).map_values(cut) =~= Seq::<Seq<Seq<char>>>::empty());
        assert(Seq::<Seq<Seq<char>>>::empty().flatten() =~= Seq::<Seq<char>>::empty());
    }
    let mut m: usize = 0;
    while m < dataset.len()
        invariant
            m <= dataset.len(),
            all == views(dataset@),
            cut == |msg: Seq<char>| words(msg),
            seen == word_stream(all.take(m as int)),
            counted(word_counts@, seen),
            views(vocab@) == frequent(seen),
        decreases dataset.len() - m,
    {
        let msg_words = split_words(dataset[m].as_str());
        let ghost before = seen;
        let mut k: usize = 0;
        while k < msg_words.len()
            invariant
                k <= msg_words.len(),
                seen == before + views(msg_words@).take(k as int),
                counted(word_counts@, seen),
                views(vocab@) == frequent(seen),
            decreases msg_words.len() - k,
        {
            let word = &msg_words[k];
            let ghost w = word@;
            let ghost old_counts = word_counts@;
            let count: usize = match word_counts.get(word.as_str()) {
                None => 0,
                Some(c) => if *c < usize::MAX {
                    *c + 1
                } else {
                    usize::MAX
                },
            };
            word_counts.insert(word.clone(), count);
            proof {
                let next = seen.push(w);
                assert(next.drop_last() =~= seen);
                assert(views(msg_words@).take(k as int + 1) =~= views(msg_words@).take(
                    k as int,
                ).push(w));
                assert(next =~= before + views(msg_words@).take(k as int + 1));
                assert forall|v: Seq<char>| #[trigger]
                    word_counts@.contains_key(v) <==> occurrences(next, v) > 0 by {
                    assert(old_counts.contains_key(v) <==> occurrences(seen, v) > 0);
                }
                assert forall|v: Seq<char>| #[trigger]
                    word_counts@.contains_key(v) implies word_counts@[v] == kept_count(
                    occurrences(next, v) - 1,
                ) by {
                    assert(old_counts.contains_key(v) <==> occurrences(seen, v) > 0);
                    if old_counts.contains_key(v) {
                        assert(old_counts[v] == kept_count(occurrences(seen, v) - 1));
                    }
                }
                assert(old_counts.contains_key(w) <==> occurrences(seen, w) > 0);
                assert(count == EARLIER_OCCURRENCES <==> occurrences(seen, w)
                    == EARLIER_OCCURRENCES);
                seen = next;
            }
            // Only common words are taken, to keep the vocabulary small.
            if count == EARLIER_OCCURRENCES {
                let entry = word.clone();
                proof {
                    vocab@.lemma_push_map_commute(|s: String| s@, entry);
                }
                vocab.push(entry);
            }
            k += 1;
        }
        proof {
            assert(views(msg_words@).take(msg_words@.len() as int) =~= views(msg_words@));
            let done = all.take(m as int);
            assert(all.take(m as int + 1) =~= done.push(all[m as int]));
            done.lemma_push_map_commute(cut, all[m as int]);
            done.map_values(cut).lemma_flatten_push(words(all[m as int]));
        }
        m += 1;
    }
    proof {
        assert(all.take(dataset@.len() as int) =~= all);
    }
    vocab
}

/// Two words of a message occur together when this many words or fewer lie
/// from one to the other.
pub const WINDOW: usize = 4;

/// How much the words at the places `p` and `q` of a message occur together,
/// in quarters: 4 for a word with itself, one less for each step apart, and
/// nothing from `WINDOW` steps on.
pub open spec fn closeness(p: int, q: int) -> nat {
    let d = if p >= q {
        p - q
    } else {
        q - p
    };
    if d <= WINDOW {
        (WINDOW - d) as nat
    } else {
        0
    }
}

/// The place of each word in the first `n` entries of a vocabulary. Of a word
/// that is there more than once, the last place.
pub open spec fn index_map(vocab: Seq<Seq<char>>, n: nat) -> Map<Seq<char>, usize>
    decreases n,
{
    if n == 0 {
        Map::empty()
    } else {
        index_map(vocab, (n - 1) as nat).insert(vocab[n - 1], (n - 1) as usize)
    }
}

/// The places, by `index`, of those of the words `ws` that `index` holds.
pub open spec fn ids_of(ws: Seq<Seq<char>>, index: Map<Seq<char>, usize>) -> Seq<usize> {
    ws.filter(|w: Seq<char>| index.contains_key(w)).map_values(|w: Seq<char>| index[w])
}

/// What the words at the places `p` and `q` of a message add to the entry
/// `(a, b)`: their closeness, if they are the words `a` and `b`.
pub open spec fn pair_weight(ids: Seq<usize>, p: int, q: int, a: int, b: int) -> nat {
    if ids[p] == a && ids[q] == b {
        closeness(p, q)
    } else {
        0
    }
}

/// What the word at the place `p` adds to the entry `(a, b)` together with the
/// words at the first `n` places.
pub open spec fn row_weight(ids: Seq<usize>, p: int, n: nat, a: int, b: int) -> nat
    decreases n,
{
    if n == 0 {
        0
    } else {
        row_weight(ids, p, (n - 1) as nat, a, b) + pair_weight(ids, p, n - 1, a, b)
    }
}

/// What the words at the first `n` places add to the entry `(a, b)`, each
/// together with every word of the message.
pub open spec fn message_weight(ids: Seq<usize>, n: nat, a: int, b: int) -> nat
    decreases n,
{
    if n == 0 {
        0
    } else {
        message_weight(ids, (n - 1) as nat, a, b) + row_weight(ids, n - 1, ids.len(), a, b)
    }
}

/// How much the words `a` and `b` of the vocabulary occur together in the
/// first `n` messages, in quarters.
pub open spec fn co_occurrence(
    dataset: Seq<Seq<char>>,
    n: nat,
    index: Map<Seq<char>, usize>,
    a: int,
    b: int,
) -> nat
    decreases n,
{
    if n == 0 {
        0
    } else {
        let ids = ids_of(words(dataset[n - 1]), index);
        co_occurrence(dataset, (n - 1) as nat, index, a, b) + message_weight(ids, ids.len(), a, b)
    }
}

/// A weight as it is kept: exact up to the largest number that can be held.
pub open spec fn kept_weight(n: nat) -> u64 {
    if n > u64::MAX {
        u64::MAX
    } else {
        n as u64
    }
}

/// The entry `(a, b)` of a matrix.
pub open spec fn entry(matrix: Seq<Vec<u64>>, a: int, b: int) -> u64 {
    matrix[a]@[b]
}

/// Whether a matrix has `n` rows of `n` entries.
pub open spec fn is_square(matrix: Seq<Vec<u64>>, n: nat) -> bool {
    &&& matrix.len() == n
    &&& forall|a: int| 0 <= a < n ==> (#[trigger] matrix[a])@.len() == n
}

/// The matrix of `n` rows of `n` zeros.
fn zero_matrix(n: usize) -> (r: Vec<Vec<u64>>)
    ensures
        is_square(r@, n as nat),
        forall|a: int, b: int| 0 <= a < n && 0 <= b < n ==> #[trigger] entry(r@, a, b) == 0,
{
    let mut matrix: Vec<Vec<u64>> = Vec::new();
    let mut a: usize = 0;
    while a < n
        invariant
            a <= n,
            is_square_rows(matrix@, a as nat, n as nat),
            forall|i: int, b: int| 0 <= i < a && 0 <= b < n ==> #[trigger] entry(matrix@, i, b) == 0,
        decreases n - a,
    {
        let mut row: Vec<u64> = Vec::new();
        let mut b: usize = 0;
        while b < n
            invariant
                b <= n,
                row@.len() == b,
                forall|j: int| 0 <= j < b ==> row@[j] == 0,
            decreases n - b,
        {
            row.push(0);
            b += 1;
        }
        let ghost before = matrix@;
        matrix.push(row);
        proof {
            assert forall|i: int, b: int| 0 <= i < a + 1 && 0 <= b < n implies #[trigger] entry(
                matrix@,
                i,
                b,
            ) == 0 by {
                if i < a {
                    assert(entry(before, i, b) == 0);
                }
            }
        }
        a += 1;
    }
    matrix
}

/// Whether a matrix has `rows` rows of `n` entries.
pub open spec fn is_square_rows(matrix: Seq<Vec<u64>>, rows: nat, n: nat) -> bool {
    &&& matrix.len() == rows
    &&& forall|a: int| 0 <= a < rows ==> (#[trigger] matrix[a])@.len() == n
}

/// Adds the weight `w` to the entry `(a, b)`, up to the largest number that
/// can be held.
fn add_weight(matrix: &mut Vec<Vec<u64>>, a: usize, b: usize, w: u64, Ghost(n): Ghost<nat>)
    requires
        is_square(old(matrix)@, n),
        a < n,
        b < n,
    ensures
        is_square(final(matrix)@, n),
        forall|i: int, j: int|
            0 <= i < n && 0 <= j < n ==> #[trigger] entry(final(matrix)@, i, j) == if i == a && j
                == b {
                if entry(old(matrix)@, i, j) > u64::MAX - w {
                    u64::MAX
                } else {
                    (entry(old(matrix)@, i, j) + w) as u64
                }
            } else {
                entry(old(matrix)@, i, j)
            },
{
    let cur = matrix[a][b];
    let next = if cur > u64::MAX - w {
        u64::MAX
    } else {
        cur + w
    };
    matrix[a][b] = next;
    proof {
        assert forall|i: int| 0 <= i < n implies (#[trigger] matrix@[i])@.len() == n by {
            assert(old(matrix)@[i]@.len() == n);
        }
    }
}

/// The places of the words of a vocabulary, as a table.
fn build_index(vocab: &Vec<String>) -> (r: StringHashMap<usize>)
    ensures
        r@ == index_map(views(vocab@), vocab@.len()),
        forall|w: Seq<char>| #[trigger] r@.contains_key(w) ==> r@[w] < vocab@.len(),
{
    let mut word_to_index: StringHashMap<usize> = StringHashMap::new();
    let mut i: usize = 0;
    while i < vocab.len()
        invariant
            i <= vocab.len(),
            word_to_index@ == index_map(views(vocab@), i as nat),
            forall|w: Seq<char>| #[trigger]
                word_to_index@.contains_key(w) ==> word_to_index@[w] < i,
        decreases vocab.len() - i,
    {
        word_to_index.insert(vocab[i].clone(), i);
        i += 1;
    }
    word_to_index
}

/// The places, by `index`, of those words of a message that `index` holds.
fn message_ids(msg: &str, index: &StringHashMap<usize>, Ghost(n): Ghost<nat>) -> (r: Vec<usize>)
    requires
        forall|w: Seq<char>| #[trigger] index@.contains_key(w) ==> index@[w] < n,
    ensures
        r@ == ids_of(words(msg@), index@),
        forall|i: int| 0 <= i < r@.len() ==> #[trigger] r@[i] < n,
{
    let all = split_words(msg);
    let mut ids: Vec<usize> = Vec::new();
    let ghost held = |w: Seq<char>| index@.contains_key(w);
    let ghost place = |w: Seq<char>| index@[w];
    let mut k: usize = 0;
    proof {
        reveal(Seq::filter);
        assert(views(all@).take(0) =~= Seq::<Seq<char>>::empty());
        assert(ids_of(views(all@).take(0), index@) =~= Seq::<usize>::empty());
    }
    while k < all.len()
        invariant
            k <= all.len(),
            held == |w: Seq<char>| index@.contains_key(w),
            place == |w: Seq<char>| index@[w],
            forall|w: Seq<char>| #[trigger] index@.contains_key(w) ==> index@[w] < n,
            ids@ == ids_of(views(all@).take(k as int), index@),
            forall|i: int| 0 <= i < ids@.len() ==> #[trigger] ids@[i] < n,
        decreases all.len() - k,
    {
        let found = index.get(all[k].as_str());
        proof {
            let ws = views(all@);
            let w = all@[k as int]@;
            assert(ws.take(k as int + 1) =~= ws.take(k as int).push(w));
            ws.take(k as int).lemma_filter_push(w, held);
            if held(w) {
                ws.take(k as int).filter(held).lemma_push_map_commute(place, w);
            }
        }
        match found {
            Some(id) => {
                ids.push(*id);
            },
            None => {},
        }
        k += 1;
    }
    proof {
        assert(views(all@).take(all@.len() as int) =~= views(all@));
    }
    ids
}

/// The closeness of two places of a message.
fn closeness_of(p: usize, q: usize) -> (r: u64)
    ensures
        r == closeness(p as int, q as int),
{
    let d = if p >= q {
        p - q
    } else {
        q - p
    };
    if d <= WINDOW {
        (WINDOW - d) as u64
    } else {
        0
    }
}

/// Counts how much the words of the vocabulary occur together in the
/// messages. The entry `(a, b)` of the result is the sum, over the messages and
/// over the pairs of places of a message where the words `a` and `b` of the
/// vocabulary stand, of the closeness of the two places, in quarters. Words
/// that the vocabulary lacks are taken out of a message before its places are
/// counted.
pub fn build_co_occurrence_matrix(vocab: &Vec<String>, dataset: &Vec<String>) -> (r: Vec<
    Vec<u64>,
>)
    ensures
        is_square(r@, vocab@.len()),
        forall|a: int, b: int|
            0 <= a < vocab@.len() && 0 <= b < vocab@.len() ==> #[trigger] entry(r@, a, b)
                == kept_weight(
                co_occurrence(
                    views(dataset@),
                    dataset@.len(),
                    index_map(views(vocab@), vocab@.len()),
                    a,
                    b,
                ),
            ),
{
    let n = vocab.len();
    let word_to_index = build_index(vocab);
    let ghost index = word_to_index@;
    let ghost all = views(dataset@);
    let mut matrix = zero_matrix(n);
    let mut m: usize = 0;
    while m < dataset.len()
        invariant
            m <= dataset.len(),
            n == vocab@.len(),
            index == word_to_index@,
            all == views(dataset@),
            forall|w: Seq<char>| #[trigger] index.contains_key(w) ==> index[w] < n,
            is_square(matrix@, n as nat),
            forall|a: int, b: int|
                0 <= a < n && 0 <= b < n ==> #[trigger] entry(matrix@, a, b) == kept_weight(
                    co_occurrence(all, m as nat, index, a, b),
                ),
        decreases dataset.len() - m,
    {
        let ids = message_ids(dataset[m].as_str(), &word_to_index, Ghost(n as nat));
        let len = ids.len();
        let mut p: usize = 0;
        while p < len
            invariant
                p <= len,
                len == ids@.len(),
                m < dataset.len(),
                forall|i: int| 0 <= i < ids@.len() ==> #[trigger] ids@[i] < n,
                is_square(matrix@, n as nat),
                forall|a: int, b: int|
                    0 <= a < n && 0 <= b < n ==> #[trigger] entry(matrix@, a, b) == kept_weight(
                        co_occurrence(all, m as nat, index, a, b) + message_weight(
                            ids@,
                            p as nat,
                            a,
                            b,
                        ),
                    ),
            decreases len - p,
        {
            let mut q: usize = 0;
            while q < len
                invariant
                    p < len,
                    q <= len,
                    len == ids@.len(),
                    forall|i: int| 0 <= i < ids@.len() ==> #[trigger] ids@[i] < n,
                    is_square(matrix@, n as nat),
                    forall|a: int, b: int|
                        0 <= a < n && 0 <= b < n ==> #[trigger] entry(matrix@, a, b)
                            == kept_weight(
                            co_occurrence(all, m as nat, index, a, b) + message_weight(
                                ids@,
                                p as nat,
                                a,
                                b,
                            ) + row_weight(ids@, p as int, q as nat, a, b),
                        ),
                decreases len - q,
            {
                let weight = closeness_of(p, q);
                let ghost before = matrix@;
                add_weight(&mut matrix, ids[p], ids[q], weight, Ghost(n as nat));
                proof {
                    assert forall|a: int, b: int| 0 <= a < n && 0 <= b < n implies #[trigger] entry(
                        matrix@,
                        a,
                        b,
                    ) == kept_weight(
                        co_occurrence(all, m as nat, index, a, b) + message_weight(
                            ids@,
                            p as nat,
                            a,
                            b,
                        ) + row_weight(ids@, p as int, (q + 1) as nat, a, b),
                    ) by {
                        assert(entry(before, a, b) == kept_weight(
                            co_occurrence(all, m as nat, index, a, b) + message_weight(
                                ids@,
                                p as nat,
                                a,
                                b,
                            ) + row_weight(ids@, p as int, q as nat, a, b),
                        ));
                        assert(row_weight(ids@, p as int, (q + 1) as nat, a, b) == row_weight(
                            ids@,
                            p as int,
                            q as nat,
                            a,
                            b,
                        ) + pair_weight(ids@, p as int, q as int, a, b));
                    }
                }
                q += 1;
            }
            proof {
                assert forall|a: int, b: int| 0 <= a < n && 0 <= b < n implies #[trigger] entry(
                    matrix@,
                    a,
                    b,
                ) == kept_weight(
                    co_occurrence(all, m as nat, index, a, b) + message_weight(
                        ids@,
                        (p + 1) as nat,
                        a,
                        b,
                    ),
                ) by {
                    assert(message_weight(ids@, (p + 1) as nat, a, b) == message_weight(
                        ids@,
                        p as nat,
                        a,
                        b,
                    ) + row_weight(ids@, p as int, ids@.len(), a, b));
                }
            }
            p += 1;
        }
        proof {
            assert(all[m as int] == dataset@[m as int]@);
            assert forall|a: int, b: int| 0 <= a < n && 0 <= b < n implies #[trigger] entry(
                matrix@,
                a,
                b,
            ) == kept_weight(co_occurrence(all, (m + 1) as nat, index, a, b)) by {
                assert(co_occurrence(all, (m + 1) as nat, index, a, b) == co_occurrence(
                    all,
                    m as nat,
                    index,
                    a,
                    b,
                ) + message_weight(ids@, ids@.len(), a, b));
            }
        }
        m += 1;
    }
    matrix
}

/// What the words at the first `n` places add to the entry `(a, b)`, each
/// together with the words at the first `m` places.
pub open spec fn block_weight(ids: Seq<usize>, n: nat, m: nat, a: int, b: int) -> nat
    decreases n,
{
    if n == 0 {
        0
    } else {
        block_weight(ids, (n - 1) as nat, m, a, b) + row_weight(ids, n - 1, m, a, b)
    }
}

/// One more column adds to a block what the word at that place adds, seen from
/// the other side, together with the words of the block's rows.
proof fn lemma_block_column(ids: Seq<usize>, n: nat, m: nat, a: int, b: int)
    ensures
        block_weight(ids, n, m + 1, a, b) == block_weight(ids, n, m, a, b) + row_weight(
            ids,
            m as int,
            n,
            b,
            a,
        ),
    decreases n,
{
    if n > 0 {
        lemma_block_column(ids, (n - 1) as nat, m, a, b);
        assert(row_weight(ids, n - 1, m + 1, a, b) == row_weight(ids, n - 1, m, a, b)
            + pair_weight(ids, n - 1, m as int, a, b));
        assert(row_weight(ids, m as int, n, b, a) == row_weight(ids, m as int, (n - 1) as nat, b, a)
            + pair_weight(ids, m as int, n - 1, b, a));
        assert(pair_weight(ids, n - 1, m as int, a, b) == pair_weight(ids, m as int, n - 1, b, a));
    }
}

/// A block without columns adds nothing.
proof fn lemma_block_empty(ids: Seq<usize>, n: nat, a: int, b: int)
    ensures
        block_weight(ids, n, 0, a, b) == 0,
    decreases n,
{
    if n > 0 {
        lemma_block_empty(ids, (n - 1) as nat, a, b);
    }
}

/// A block adds to the entry `(a, b)` what the block with rows and columns
/// exchanged adds to the entry `(b, a)`.
proof fn lemma_block_transposed(ids: Seq<usize>, n: nat, m: nat, a: int, b: int)
    ensures
        block_weight(ids, n, m, a, b) == block_weight(ids, m, n, b, a),
    decreases m,
{
    if m == 0 {
        lemma_block_empty(ids, n, a, b);
    } else {
        lemma_block_transposed(ids, n, (m - 1) as nat, a, b);
        lemma_block_column(ids, n, (m - 1) as nat, a, b);
    }
}

/// The weight of a message is that of the block of all its places.
proof fn lemma_message_is_block(ids: Seq<usize>, n: nat, a: int, b: int)
    ensures
        message_weight(ids, n, a, b) == block_weight(ids, n, ids.len(), a, b),
    decreases n,
{
    if n > 0 {
        lemma_message_is_block(ids, (n - 1) as nat, a, b);
    }
}

/// Occurring together is mutual: the words `a` and `b` occur together as much
/// as the words `b` and `a`.
pub proof fn lemma_co_occurrence_symmetric(
    dataset: Seq<Seq<char>>,
    n: nat,
    index: Map<Seq<char>, usize>,
    a: int,
    b: int,
)
    ensures
        co_occurrence(dataset, n, index, a, b) == co_occurrence(dataset, n, index, b, a),
    decreases n,
{
    if n > 0 {
        lemma_co_occurrence_symmetric(dataset, (n - 1) as nat, index, a, b);
        let ids = ids_of(words(dataset[n - 1]), index);
        lemma_message_is_block(ids, ids.len(), a, b);
        lemma_message_is_block(ids, ids.len(), b, a);
        lemma_block_transposed(ids, ids.len(), ids.len(), a, b);
    }
}

/// The place that a vocabulary gives a word is a place where the word stands,
/// and the vocabulary gives a place to its words and to no others.
pub proof fn lemma_index_map(vocab: Seq<Seq<char>>, n: nat)
    requires
        n <= vocab.len() <= usize::MAX,
    ensures
        forall|w: Seq<char>| #[trigger]
            index_map(vocab, n).contains_key(w) <==> vocab.take(n as int).contains(w),
        forall|w: Seq<char>| #[trigger]
            index_map(vocab, n).contains_key(w) ==> index_map(vocab, n)[w] < n && vocab[index_map(
                vocab,
                n,
            )[w] as int] == w,
    decreases n,
{
    if n > 0 {
        lemma_index_map(vocab, (n - 1) as nat);
        let before = vocab.take(n as int - 1);
        let now = vocab.take(n as int);
        assert(now =~= before.push(vocab[n - 1]));
        assert forall|w: Seq<char>| #[trigger]
            index_map(vocab, n).contains_key(w) <==> now.contains(w) by {
            assert(index_map(vocab, (n - 1) as nat).contains_key(w) <==> before.contains(w));
            if now.contains(w) {
                let i = choose|i: int| 0 <= i < now.len() && now[i] == w;
                if i < n - 1 {
                    assert(before[i] == w);
                }
            }
            if before.contains(w) {
                let i = choose|i: int| 0 <= i < before.len() && before[i] == w;
                assert(now[i] == w);
            }
            if w == vocab[n - 1] {
                assert(now[n - 1] == w);
            }
        }
        assert forall|w: Seq<char>| #[trigger]
            index_map(vocab, n).contains_key(w) implies index_map(vocab, n)[w] < n && vocab[index_map(
            vocab,
            n,
        )[w] as int] == w by {
            if w != vocab[n - 1] {
                assert(index_map(vocab, (n - 1) as nat).contains_key(w));
                assert(index_map(vocab, n)[w] == index_map(vocab, (n - 1) as nat)[w]);
            }
        }
    } else {
        assert(vocab.take(0) =~= Seq::<Seq<char>>::empty());
    }
}

} // verus!
