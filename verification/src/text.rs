//! Characters, words and the cleaning of raw chat text.
//!
//! A message is cleaned in three steps: every character is brought to its
//! ASCII lower-case form, characters that are neither alphanumeric nor white
//! space are dropped, and what is left is cut into words at white space.

use vstd::prelude::*;

verus! {

/// Whether `c` is alphanumeric in the sense of `char::is_alphanumeric`.
pub uninterp spec fn is_alphanumeric(c: char) -> bool;

/// Whether `c` has the Unicode property `White_Space`, as `char::is_whitespace`
/// reports it.
pub uninterp spec fn unicode_white_space(c: char) -> bool;

/// Whether `c` separates words. The plain space always does.
pub open spec fn is_whitespace(c: char) -> bool {
    c == ' ' || unicode_white_space(c)
}

/// `char::is_alphanumeric`: the answer depends on the character alone and is
/// known here only by its name, `is_alphanumeric`.
#[verifier::external_body]
fn char_is_alphanumeric(c: char) -> (r: bool)
    ensures
        r == is_alphanumeric(c),
{
    c.is_alphanumeric()
}

/// `char::is_whitespace`: the answer depends on the character alone. It is
/// true of the plain space; of every other character it is known here only by
/// its name, `unicode_white_space`.
#[verifier::external_body]
fn char_is_whitespace(c: char) -> (r: bool)
    ensures
        r == (c == ' ' || unicode_white_space(c)),
{
    c.is_whitespace()
}

/// `String::push`: appends one character to the end of the string.
pub assume_specification[ String::push ](s: &mut String, c: char)
    ensures
        final(s)@ == old(s)@.push(c),
;

/// The ASCII lower-case form of `c`: `'A'..='Z'` become `'a'..='z'`, every
/// other character stays as it is.
pub open spec fn lower(c: char) -> char {
    if 'A' <= c && c <= 'Z' {
        ((c as u8) + 32) as char
    } else {
        c
    }
}

/// Whether cleaning keeps the character `c`.
pub open spec fn keeps(c: char) -> bool {
    is_alphanumeric(c) || is_whitespace(c)
}

/// The text `s` in lower case, without the characters that cleaning drops.
pub open spec fn normalized(s: Seq<char>) -> Seq<char> {
    s.map_values(|c: char| lower(c)).filter(|c: char| keeps(c))
}

/// The words of `s`: its maximal runs of characters that are not white space,
/// in the order in which they occur.
pub open spec fn words(s: Seq<char>) -> Seq<Seq<char>>
    decreases s.len(),
{
    if s.len() == 0 {
        Seq::empty()
    } else if is_whitespace(s.last()) {
        words(s.drop_last())
    } else if s.len() >= 2 && !is_whitespace(s[s.len() - 2]) {
        let before = words(s.drop_last());
        before.drop_last().push(before.last().push(s.last()))
    } else {
        words(s.drop_last()).push(seq![s.last()])
    }
}

/// The words `ws` written one after the other with a single space between
/// neighbours.
pub open spec fn joined(ws: Seq<Seq<char>>) -> Seq<char>
    decreases ws.len(),
{
    if ws.len() == 0 {
        Seq::empty()
    } else if ws.len() == 1 {
        ws[0]
    } else {
        joined(ws.drop_last()) + seq![' '] + ws.last()
    }
}

/// The contents of a list of strings.
pub open spec fn views(v: Seq<String>) -> Seq<Seq<char>> {
    v.map_values(|s: String| s@)
}

/// Whether `w` can be a word: it is not empty and holds no white space.
pub open spec fn is_word(w: Seq<char>) -> bool {
    w.len() > 0 && forall|i: int| 0 <= i < w.len() ==> !is_whitespace(#[trigger] w[i])
}

/// What a scan of the text `p` has found so far: the finished words `done` and
/// the word `cur` that the last character of `p` may still belong to.
pub open spec fn scanned(p: Seq<char>, done: Seq<Seq<char>>, cur: Seq<char>) -> bool {
    &&& words(p) == if cur.len() > 0 {
        done.push(cur)
    } else {
        done
    }
    &&& cur.len() > 0 <==> p.len() > 0 && !is_whitespace(p.last())
}

/// Reading one more character moves a scan forward.
pub proof fn lemma_scan_step(p: Seq<char>, done: Seq<Seq<char>>, cur: Seq<char>, c: char)
    requires
        scanned(p, done, cur),
    ensures
        is_whitespace(c) ==> scanned(p.push(c), words(p), Seq::empty()),
        !is_whitespace(c) ==> scanned(p.push(c), done, cur.push(c)),
{
    let q = p.push(c);
    assert(q.drop_last() =~= p);
    assert(q.last() == c);
    if !is_whitespace(c) {
        if cur.len() > 0 {
            assert(q[q.len() - 2] == p.last());
            assert(done.push(cur).drop_last() =~= done);
        } else {
            assert(cur.push(c) =~= seq![c]);
        }
    }
}

/// Every word of a text is a word: not empty, and free of white space.
pub proof fn lemma_words_are_words(s: Seq<char>)
    ensures
        forall|i: int| 0 <= i < words(s).len() ==> is_word(#[trigger] words(s)[i]),
        s.len() > 0 && !is_whitespace(s.last()) ==> words(s).len() > 0,
    decreases s.len(),
{
    if s.len() > 0 {
        let p = s.drop_last();
        lemma_words_are_words(p);
        if !is_whitespace(s.last()) && s.len() >= 2 && !is_whitespace(s[s.len() - 2]) {
            assert(p.last() == s[s.len() - 2]);
            let before = words(p);
            let grown = before.last().push(s.last());
            assert(is_word(before[before.len() - 1]));
            assert(is_word(grown));
            assert forall|i: int| 0 <= i < words(s).len() implies is_word(
                #[trigger] words(s)[i],
            ) by {
                if i < before.len() - 1 {
                    assert(words(s)[i] == before[i]);
                }
            }
        } else if !is_whitespace(s.last()) {
            assert(is_word(seq![s.last()]));
        }
    }
}

/// The words of a text that ends in the word `w` after a space.
proof fn lemma_words_after_space(p: Seq<char>, w: Seq<char>, k: int)
    requires
        is_word(w),
        1 <= k <= w.len(),
    ensures
        words(p + seq![' '] + w.take(k)) == words(p).push(w.take(k)),
    decreases k,
{
    let base = p + seq![' '];
    let s = base + w.take(k);
    assert(s.drop_last() =~= base + w.take(k - 1));
    assert(s.last() == w[k - 1]);
    if k == 1 {
        assert(w.take(0) =~= Seq::<char>::empty());
        assert(base + w.take(0) =~= base);
        assert(base.drop_last() =~= p);
        assert(base.last() == ' ');
        assert(words(base) == words(p));
        assert(s[s.len() - 2] == ' ');
        assert(w.take(1) =~= seq![w[0]]);
    } else {
        lemma_words_after_space(p, w, k - 1);
        assert(s[s.len() - 2] == w[k - 2]);
        let before = words(p).push(w.take(k - 1));
        assert(before.drop_last() =~= words(p));
        assert(w.take(k - 1).push(w[k - 1]) =~= w.take(k));
    }
}

/// The words of a text that is one word.
proof fn lemma_words_of_word(w: Seq<char>, k: int)
    requires
        is_word(w),
        1 <= k <= w.len(),
    ensures
        words(w.take(k)) == seq![w.take(k)],
    decreases k,
{
    let s = w.take(k);
    assert(s.last() == w[k - 1]);
    assert(s.drop_last() =~= w.take(k - 1));
    if k == 1 {
        assert(w.take(0) =~= Seq::<char>::empty());
        assert(words(w.take(0)) =~= Seq::<Seq<char>>::empty());
        assert(seq![w[0]] =~= w.take(1));
        assert(Seq::<Seq<char>>::empty().push(w.take(1)) =~= seq![w.take(1)]);
    } else {
        lemma_words_of_word(w, k - 1);
        assert(s[s.len() - 2] == w[k - 2]);
        let before = seq![w.take(k - 1)];
        assert(before.drop_last().push(w.take(k - 1).push(w[k - 1])) =~= seq![w.take(k)]) by {
            assert(w.take(k - 1).push(w[k - 1]) =~= w.take(k));
        }
    }
}

/// Joining words with single spaces and cutting the result at white space
/// gives the words back.
pub proof fn lemma_words_of_joined(ws: Seq<Seq<char>>)
    requires
        forall|i: int| 0 <= i < ws.len() ==> is_word(#[trigger] ws[i]),
    ensures
        words(joined(ws)) == ws,
    decreases ws.len(),
{
    if ws.len() == 0 {
        assert(ws =~= Seq::empty());
    } else if ws.len() == 1 {
        let w = ws[0];
        lemma_words_of_word(w, w.len() as int);
        assert(w.take(w.len() as int) =~= w);
        assert(ws =~= seq![w]);
    } else {
        let w = ws.last();
        lemma_words_of_joined(ws.drop_last());
        lemma_words_after_space(joined(ws.drop_last()), w, w.len() as int);
        assert(w.take(w.len() as int) =~= w);
        assert(ws.drop_last().push(w) =~= ws);
    }
}

/// The text that joins no word is empty, and only that one.
pub proof fn lemma_joined_empty(ws: Seq<Seq<char>>)
    requires
        forall|i: int| 0 <= i < ws.len() ==> is_word(#[trigger] ws[i]),
    ensures
        joined(ws).len() == 0 <==> ws.len() == 0,
{
    if ws.len() == 1 {
        assert(is_word(ws[0]));
    }
}

/// The ASCII lower-case form of a character.
pub fn to_ascii_lowercase(c: char) -> (r: char)
    ensures
        r == lower(c),
{
    if 'A' <= c && c <= 'Z' {
        ((c as u8) + 32) as char
    } else {
        c
    }
}

/// Brings a text to lower case and drops every character that is neither
/// alphanumeric nor white space.
pub fn normalize(msg: &str) -> (r: String)
    ensures
        r@ == normalized(msg@),
{
    let mut out = String::new();
    for c in it: msg.chars()
        invariant
            it.seq() == msg@,
            out@ == normalized(msg@.take(it.index() as int)),
    {
        let l = to_ascii_lowercase(c);
        let keep = char_is_alphanumeric(l) || char_is_whitespace(l);
        proof {
            let i = it.index() as int;
            let p = msg@.take(i);
            let low = |c: char| lower(c);
            let kept = |c: char| keeps(c);
            assert(msg@.take(i + 1) =~= p.push(c));
            p.lemma_push_map_commute(low, c);
            p.map_values(low).lemma_filter_push(l, kept);
        }
        if keep {
            out.push(l);
        }
    }
    proof {
        assert(msg@.take(msg@.len() as int) =~= msg@);
    }
    out
}

/// Cuts a text into its words at white space.
pub fn split_words(s: &str) -> (r: Vec<String>)
    ensures
        views(r@) == words(s@),
{
    let mut done: Vec<String> = Vec::new();
    let mut cur = String::new();
    proof {
        assert(views(done@) =~= Seq::<Seq<char>>::empty());
    }
    for c in it: s.chars()
        invariant
            it.seq() == s@,
            scanned(s@.take(it.index() as int), views(done@), cur@),
    {
        let ghost p = s@.take(it.index() as int);
        proof {
            assert(s@.take(it.index() as int + 1) =~= p.push(c));
            lemma_scan_step(p, views(done@), cur@, c);
        }
        if char_is_whitespace(c) {
            if !cur.as_str().is_empty() {
                proof {
                    done@.lemma_push_map_commute(|s: String| s@, cur);
                }
                done.push(cur);
            }
            cur = String::new();
        } else {
            cur.push(c);
        }
    }
    proof {
        assert(s@.take(s@.len() as int) =~= s@);
    }
    if !cur.as_str().is_empty() {
        proof {
            done@.lemma_push_map_commute(|s: String| s@, cur);
        }
        done.push(cur);
    }
    done
}

/// Writes words one after the other with a single space between neighbours.
pub fn join_words(ws: &Vec<String>) -> (r: String)
    ensures
        r@ == joined(views(ws@)),
{
    let mut out = String::new();
    let mut i: usize = 0;
    while i < ws.len()
        invariant
            i <= ws.len(),
            out@ == joined(views(ws@).take(i as int)),
        decreases ws.len() - i,
    {
        proof {
            let all = views(ws@);
            let next = all.take(i as int + 1);
            assert(next.drop_last() =~= all.take(i as int));
            assert(next.last() == ws@[i as int]@);
            if i == 0 {
                assert(Seq::<char>::empty() + ws@[0]@ =~= ws@[0]@);
            }
        }
        if i > 0 {
            out.push(' ');
            proof {
                assert(joined(views(ws@).take(i as int)).push(' ') =~= joined(
                    views(ws@).take(i as int),
                ) + seq![' ']);
            }
        }
        out.append(ws[i].as_str());
        i += 1;
    }
    proof {
        assert(views(ws@).take(ws@.len() as int) =~= views(ws@));
    }
    out
}

/// Whether cleaning leaves the character `c` as it is.
pub open spec fn is_settled(c: char) -> bool {
    lower(c) == c && keeps(c)
}

/// Whether cleaning leaves every character of `t` as it is.
pub open spec fn all_settled(t: Seq<char>) -> bool {
    forall|i: int| 0 <= i < t.len() ==> is_settled(#[trigger] t[i])
}

/// Cleaning leaves every character of a normalized text as it is.
pub proof fn lemma_normalized_is_settled(s: Seq<char>)
    ensures
        all_settled(normalized(s)),
{
    let low = |c: char| lower(c);
    let kept = |c: char| keeps(c);
    let mapped = s.map_values(low);
    assert forall|i: int| 0 <= i < normalized(s).len() implies is_settled(
        #[trigger] normalized(s)[i],
    ) by {
        let c = mapped.filter(kept)[i];
        mapped.lemma_filter_pred(kept, i);
        assert(mapped.filter(kept).contains(c));
        mapped.lemma_filter_contains_rev(kept, c);
        let j = choose|j: int| 0 <= j < mapped.len() && mapped[j] == c;
        assert(c == lower(s[j]));
    }
}

/// A text whose characters cleaning leaves as they are is its own normalized
/// form.
pub proof fn lemma_settled_is_normalized(t: Seq<char>)
    requires
        all_settled(t),
    ensures
        normalized(t) == t,
    decreases t.len(),
{
    let low = |c: char| lower(c);
    let kept = |c: char| keeps(c);
    assert(t.map_values(low) =~= t);
    if t.len() == 0 {
        reveal(Seq::filter);
    } else {
        let rest = t.drop_last();
        assert(all_settled(rest)) by {
            assert forall|i: int| 0 <= i < rest.len() implies is_settled(#[trigger] rest[i]) by {
                assert(rest[i] == t[i]);
            }
        }
        lemma_settled_is_normalized(rest);
        assert(rest.map_values(low) =~= rest);
        assert(rest.push(t.last()) =~= t);
        rest.lemma_filter_push(t.last(), kept);
        assert(is_settled(t[t.len() - 1]));
    }
}

/// The words of a text whose characters cleaning leaves as they are are made
/// of such characters.
pub proof fn lemma_words_are_settled(s: Seq<char>)
    requires
        all_settled(s),
    ensures
        forall|i: int| 0 <= i < words(s).len() ==> all_settled(#[trigger] words(s)[i]),
    decreases s.len(),
{
    if s.len() > 0 {
        let p = s.drop_last();
        assert(all_settled(p)) by {
            assert forall|i: int| 0 <= i < p.len() implies is_settled(#[trigger] p[i]) by {
                assert(p[i] == s[i]);
            }
        }
        lemma_words_are_settled(p);
        lemma_words_are_words(p);
        assert(is_settled(s[s.len() - 1]));
        let before = words(p);
        if is_whitespace(s.last()) {
        } else if s.len() >= 2 && !is_whitespace(s[s.len() - 2]) {
            assert(p.last() == s[s.len() - 2]);
            let grown = before.last().push(s.last());
            assert(all_settled(before[before.len() - 1]));
            assert(all_settled(grown)) by {
                assert forall|j: int| 0 <= j < grown.len() implies is_settled(
                    #[trigger] grown[j],
                ) by {
                    if j < before.last().len() {
                        assert(grown[j] == before.last()[j]);
                    }
                }
            }
            assert forall|i: int| 0 <= i < words(s).len() implies all_settled(
                #[trigger] words(s)[i],
            ) by {
                if i < before.len() - 1 {
                    assert(words(s)[i] == before[i]);
                }
            }
        } else {
            assert(all_settled(seq![s.last()]));
            assert forall|i: int| 0 <= i < words(s).len() implies all_settled(
                #[trigger] words(s)[i],
            ) by {
                if i < before.len() {
                    assert(words(s)[i] == before[i]);
                }
            }
        }
    }
}

/// Words of characters that cleaning leaves as they are join to a text of such
/// characters.
pub proof fn lemma_joined_is_settled(ws: Seq<Seq<char>>)
    requires
        forall|i: int| 0 <= i < ws.len() ==> all_settled(#[trigger] ws[i]),
    ensures
        all_settled(joined(ws)),
    decreases ws.len(),
{
    if ws.len() == 1 {
        assert(all_settled(ws[0]));
    } else if ws.len() > 1 {
        let rest = ws.drop_last();
        assert forall|i: int| 0 <= i < rest.len() implies all_settled(#[trigger] rest[i]) by {
            assert(rest[i] == ws[i]);
        }
        lemma_joined_is_settled(rest);
        let head = joined(rest);
        let last = ws.last();
        assert(all_settled(ws[ws.len() - 1]));
        assert(is_settled(' '));
        assert forall|j: int| 0 <= j < joined(ws).len() implies is_settled(
            #[trigger] joined(ws)[j],
        ) by {
            if j < head.len() {
                assert(joined(ws)[j] == head[j]);
            } else if j == head.len() {
                assert(joined(ws)[j] == ' ');
            } else {
                assert(joined(ws)[j] == last[j - head.len() - 1]);
            }
        }
    }
}

/// Cleaning a cleaned text changes nothing: its words are already in lower
/// case, hold only characters that are kept, and stand one space apart.
pub proof fn lemma_cleaning_is_idempotent(s: Seq<char>)
    ensures
        joined(words(normalized(joined(words(normalized(s)))))) == joined(words(normalized(s))),
{
    let ws = words(normalized(s));
    lemma_normalized_is_settled(s);
    lemma_words_are_settled(normalized(s));
    lemma_words_are_words(normalized(s));
    lemma_joined_is_settled(ws);
    lemma_settled_is_normalized(joined(ws));
    lemma_words_of_joined(ws);
}

} // verus!
