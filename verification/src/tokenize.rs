//! Splitting text into words on spaces and line feeds.

use vstd::prelude::*;

verus! {

/// `String::push`: appends one character.
pub assume_specification[ String::push ](s: &mut String, ch: char)
    ensures
        final(s)@ == old(s)@.push(ch),
;

/// The characters that separate words.
pub open spec fn is_separator(c: char) -> bool {
    c == ' ' || c == '\n'
}

/// The words of a text: its maximal runs of characters that are no
/// separators, in order. A separator adds nothing; a character that follows a
/// word character extends the last word; any other character starts a word.
pub open spec fn words_of(text: Seq<char>) -> Seq<Seq<char>>
    decreases text.len(),
{
    if text.len() == 0 {
        Seq::empty()
    } else {
        let before = words_of(text.drop_last());
        let c = text.last();
        if is_separator(c) {
            before
        } else if text.len() >= 2 && !is_separator(text[text.len() - 2]) {
            before.drop_last().push(before.last().push(c))
        } else {
            before.push(seq![c])
        }
    }
}

/// No word of a text is empty, no word holds a separator, and a text that
/// ends in a word character has a last word.
pub proof fn lemma_words_are_runs(text: Seq<char>)
    ensures
        forall|i: int| 0 <= i < words_of(text).len() ==> (#[trigger] words_of(text)[i]).len() > 0,
        forall|i: int, j: int|
            0 <= i < words_of(text).len() && 0 <= j < words_of(text)[i].len() ==> !is_separator(
                #[trigger] words_of(text)[i][j],
            ),
        text.len() > 0 && !is_separator(text.last()) ==> words_of(text).len() > 0,
    decreases text.len(),
{
    if text.len() > 0 {
        lemma_words_are_runs(text.drop_last());
        let before = words_of(text.drop_last());
        let c = text.last();
        if is_separator(c) {
        } else if text.len() >= 2 && !is_separator(text[text.len() - 2]) {
            let grown = before.drop_last().push(before.last().push(c));
            assert forall|i: int| 0 <= i < grown.len() implies (#[trigger] grown[i]).len() > 0 by {}
            assert forall|i: int, j: int|
                0 <= i < grown.len() && 0 <= j < grown[i].len() implies !is_separator(
                #[trigger] grown[i][j],
            ) by {}
        } else {
            let grown = before.push(seq![c]);
            assert forall|i: int| 0 <= i < grown.len() implies (#[trigger] grown[i]).len() > 0 by {}
            assert forall|i: int, j: int|
                0 <= i < grown.len() && 0 <= j < grown[i].len() implies !is_separator(
                #[trigger] grown[i][j],
            ) by {}
        }
    }
}

/// The texts of a sequence of strings.
pub open spec fn texts(strings: Seq<String>) -> Seq<Seq<char>> {
    strings.map_values(|s: String| s@)
}

/// Splits `text` on spaces and line feeds and drops the empty pieces.
pub fn split_words(text: &str) -> (words: Vec<String>)
    ensures
        texts(words@) == words_of(text@),
{
    let mut words: Vec<String> = Vec::new();
    let mut current = String::new();
    let mut in_word = false;
    for c in it: text.chars()
        invariant
            it.seq() == text@,
            in_word == (current@.len() > 0),
            in_word == (it.index() > 0 && !is_separator(text@[it.index() - 1])),
            words_of(text@.take(it.index())) == if in_word {
                texts(words@).push(current@)
            } else {
                texts(words@)
            },
    {
        proof {
            let i = it.index();
            assert(text@.take(i + 1).drop_last() == text@.take(i));
        }
        if c == ' ' || c == '\n' {
            if in_word {
                words.push(current);
                current = String::new();
                in_word = false;
            }
        } else {
            let ghost run = current@;
            current.push(c);
            assert(!in_word ==> run.push(c) =~= seq![c]);
            in_word = true;
        }
    }
    assert(text@.take(text@.len() as int) == text@);
    if in_word {
        words.push(current);
    }
    words
}

} // verus!
