//! Words between white space.

use crate::text::{self, from_chars, to_chars};
use vstd::prelude::*;

verus! {

/// The characters that Unicode counts as white space.
pub open spec fn is_space(c: char) -> bool {
    ||| '\u{9}' <= c <= '\u{d}'
    ||| c == ' '
    ||| c == '\u{85}'
    ||| c == '\u{a0}'
    ||| c == '\u{1680}'
    ||| '\u{2000}' <= c <= '\u{200a}'
    ||| c == '\u{2028}'
    ||| c == '\u{2029}'
    ||| c == '\u{202f}'
    ||| c == '\u{205f}'
    ||| c == '\u{3000}'
}

/// Whether Unicode counts a character as white space.
pub fn is_space_char(c: char) -> (r: bool)
    ensures
        r == is_space(c),
{
    ('\u{9}' <= c && c <= '\u{d}') || c == ' ' || c == '\u{85}' || c == '\u{a0}' || c
        == '\u{1680}' || ('\u{2000}' <= c && c <= '\u{200a}') || c == '\u{2028}' || c
        == '\u{2029}' || c == '\u{202f}' || c == '\u{205f}' || c == '\u{3000}'
}

/// The words that have ended in a text, and the one that has not.
pub open spec fn words_so_far(s: Seq<char>) -> (Seq<Seq<char>>, Seq<char>)
    decreases s.len(),
{
    if s.len() == 0 {
        (Seq::empty(), Seq::empty())
    } else {
        let (done, open) = words_so_far(s.drop_last());
        if !is_space(s.last()) {
            (done, open.push(s.last()))
        } else if open.len() == 0 {
            (done, open)
        } else {
            (done.push(open), Seq::empty())
        }
    }
}

/// The words of a text: what stands between white space.
pub open spec fn words(s: Seq<char>) -> Seq<Seq<char>> {
    let (done, open) = words_so_far(s);
    if open.len() == 0 {
        done
    } else {
        done.push(open)
    }
}

/// The words of a text.
pub fn split_words(s: &str) -> (r: Vec<String>)
    ensures
        text::texts(r@) == words(s@),
{
    let mut done: Vec<String> = Vec::new();
    let mut open: String = String::new();
    assert(text::texts(done@) =~= Seq::empty());
    for c in it: s.chars()
        invariant
            (text::texts(done@), open@) == words_so_far(it.seq().take(it.index())),
            it.seq() == s@,
    {
        let ghost seen = it.seq().take(it.index());
        let ghost before = text::texts(done@);
        let ghost word = open@;
        assert(it.seq().take(it.index() + 1) =~= seen.push(c));
        assert(seen.push(c).drop_last() =~= seen);
        if !is_space_char(c) {
            open.push(c);
        } else if !open.as_str().is_empty() {
            done.push(open);
            open = String::new();
            assert(text::texts(done@) =~= before.push(word));
        }
    }
    assert(s@.take(s@.len() as int) =~= s@);
    if !open.as_str().is_empty() {
        let ghost before = text::texts(done@);
        let ghost word = open@;
        done.push(open);
        assert(text::texts(done@) =~= before.push(word));
    }
    done
}

/// A text without the white space in front.
pub open spec fn trim_front(s: Seq<char>) -> Seq<char>
    decreases s.len(),
{
    if s.len() > 0 && is_space(s[0]) {
        trim_front(s.drop_first())
    } else {
        s
    }
}

/// A text without the white space behind.
pub open spec fn trim_back(s: Seq<char>) -> Seq<char>
    decreases s.len(),
{
    if s.len() > 0 && is_space(s.last()) {
        trim_back(s.drop_last())
    } else {
        s
    }
}

/// A text without the white space around it.
pub open spec fn trimmed(s: Seq<char>) -> Seq<char> {
    trim_back(trim_front(s))
}

/// The text without the white space around it.
pub fn trim(s: &str) -> (r: String)
    ensures
        r@ == trimmed(s@),
{
    let chars = to_chars(s);
    let mut from: usize = 0;
    assert(s@.skip(0) =~= s@);
    while from < chars.len() && is_space_char(chars[from])
        invariant
            from <= chars@.len(),
            chars@ == s@,
            trim_front(s@) == trim_front(s@.skip(from as int)),
        decreases chars@.len() - from,
    {
        assert(s@.skip(from as int).drop_first() =~= s@.skip(from + 1));
        from = from + 1;
    }
    let ghost front = trim_front(s@);
    assert(front == s@.skip(from as int));
    let mut to: usize = chars.len();
    assert(s@.subrange(from as int, to as int) =~= front);
    while to > from && is_space_char(chars[to - 1])
        invariant
            from <= to <= chars@.len(),
            chars@ == s@,
            trim_back(front) == trim_back(s@.subrange(from as int, to as int)),
        decreases to,
    {
        assert(s@.subrange(from as int, to as int).drop_last() =~= s@.subrange(
            from as int,
            to - 1,
        ));
        to = to - 1;
    }
    from_chars(&chars, from, to)
}

/// No character is white space.
pub open spec fn is_solid(s: Seq<char>) -> bool {
    forall|j: int| 0 <= j < s.len() ==> !is_space(#[trigger] s[j])
}

/// A word has no white space in it and is not empty.
pub proof fn law_words_are_solid(s: Seq<char>)
    ensures
        forall|i: int|
            0 <= i < words(s).len() ==> is_solid(#[trigger] words(s)[i]) && words(s)[i].len() > 0,
{
    lemma_solid(s);
    let (done, open) = words_so_far(s);
    assert forall|i: int| 0 <= i < words(s).len() implies is_solid(#[trigger] words(s)[i])
        && words(s)[i].len() > 0 by {
        if i < done.len() {
            assert(words(s)[i] == done[i]);
        }
    }
}

/// The words that have ended are solid, and so is the one that has not.
proof fn lemma_solid(s: Seq<char>)
    ensures
        ({
            let (done, open) = words_so_far(s);
            &&& forall|i: int|
                0 <= i < done.len() ==> is_solid(#[trigger] done[i]) && done[i].len() > 0
            &&& is_solid(open)
        }),
    decreases s.len(),
{
    if s.len() > 0 {
        lemma_solid(s.drop_last());
        let (before, word) = words_so_far(s.drop_last());
        let (done, open) = words_so_far(s);
        assert(is_solid(open)) by {
            if !is_space(s.last()) {
                assert forall|j: int| 0 <= j < open.len() implies !is_space(
                    #[trigger] open[j],
                ) by {
                    if j < word.len() {
                        assert(open[j] == word[j]);
                    }
                }
            }
        }
        assert forall|i: int| 0 <= i < done.len() implies is_solid(#[trigger] done[i])
            && done[i].len() > 0 by {
            if i < before.len() {
                assert(done[i] == before[i]);
            }
        }
    }
}

/// A text between spaces is what is left of it when they are cut off; only spaces are
/// cut off.
pub proof fn law_trimmed(front: Seq<char>, middle: Seq<char>, back: Seq<char>)
    requires
        forall|i: int| 0 <= i < front.len() ==> is_space(#[trigger] front[i]),
        forall|i: int| 0 <= i < back.len() ==> is_space(#[trigger] back[i]),
        middle.len() > 0,
        !is_space(middle[0]),
        !is_space(middle.last()),
    ensures
        trimmed(front + middle + back) == middle,
{
    lemma_trim_front(front, middle + back);
    assert(front + middle + back =~= front + (middle + back));
    lemma_trim_back(middle, back);
}

proof fn lemma_trim_front(front: Seq<char>, rest: Seq<char>)
    requires
        forall|i: int| 0 <= i < front.len() ==> is_space(#[trigger] front[i]),
        rest.len() > 0,
        !is_space(rest[0]),
    ensures
        trim_front(front + rest) == rest,
    decreases front.len(),
{
    let all = front + rest;
    if front.len() > 0 {
        assert(all[0] == front[0]);
        assert(all.drop_first() =~= front.drop_first() + rest);
        lemma_trim_front(front.drop_first(), rest);
    } else {
        assert(all =~= rest);
    }
}

proof fn lemma_trim_back(rest: Seq<char>, back: Seq<char>)
    requires
        forall|i: int| 0 <= i < back.len() ==> is_space(#[trigger] back[i]),
        rest.len() > 0,
        !is_space(rest.last()),
    ensures
        trim_back(rest + back) == rest,
    decreases back.len(),
{
    let all = rest + back;
    if back.len() > 0 {
        assert(all.last() == back.last());
        assert(back[back.len() - 1] == back.last());
        assert(all.drop_last() =~= rest + back.drop_last());
        lemma_trim_back(rest, back.drop_last());
    } else {
        assert(all =~= rest);
    }
}

/// A word behind a space is the last of the words, and the others are those before it.
pub proof fn law_last_word(s: Seq<char>, space: char, word: Seq<char>)
    requires
        is_space(space),
        word.len() > 0,
        is_solid(word),
    ensures
        words(s.push(space) + word) == words(s).push(word),
        words(word) == seq![word],
        words(s.push(space)) == words(s),
{
    let t = s.push(space);
    assert(t.drop_last() =~= s);
    lemma_word_grows(t, word);
    assert(words_so_far(t).1 =~= Seq::<char>::empty());
    assert(words_so_far(t).0 =~= words(s));
    assert(Seq::<char>::empty() + word =~= word);
    lemma_word_grows(Seq::empty(), word);
    assert(words(word) =~= seq![word]);
}

proof fn lemma_word_grows(t: Seq<char>, word: Seq<char>)
    requires
        is_solid(word),
    ensures
        words_so_far(t + word) == (words_so_far(t).0, words_so_far(t).1 + word),
    decreases word.len(),
{
    let all = t + word;
    if word.len() > 0 {
        let init = word.drop_last();
        assert(is_solid(init)) by {
            assert forall|j: int| 0 <= j < init.len() implies !is_space(#[trigger] init[j]) by {
                assert(init[j] == word[j]);
            }
        }
        lemma_word_grows(t, init);
        assert(all.drop_last() =~= t + init);
        assert(all.last() == word[word.len() - 1]);
        assert(words_so_far(t).1 + word =~= (words_so_far(t).1 + init).push(word.last()));
    } else {
        assert(all =~= t);
        assert(words_so_far(t).1 + word =~= words_so_far(t).1);
    }
}

} // verus!
