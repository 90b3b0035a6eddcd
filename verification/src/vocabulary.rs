//! The interning table: an insertion-ordered set of distinct words, kept in an
//! `indexmap::IndexSet`, with the contracts its callers rely on.

use indexmap::IndexSet;
use vstd::prelude::*;

verus! {

/// `indexmap::IndexSet`, carried as an opaque value.
#[verifier::external_type_specification]
#[verifier::external_body]
#[verifier::reject_recursive_types(T)]
#[verifier::reject_recursive_types(S)]
pub struct ExIndexSet<T, S>(IndexSet<T, S>);

/// The strings that a set holds, in insertion order.
pub uninterp spec fn set_items(set: IndexSet<String>) -> Seq<Seq<char>>;

/// `IndexSet::new`: the empty set.
#[verifier::external_body]
pub(crate) fn set_new() -> (set: IndexSet<String>)
    ensures
        set_items(set) == Seq::<Seq<char>>::empty(),
{
    IndexSet::new()
}

/// `IndexSet::insert_full`: a value that the set holds stays where it is and
/// its index is returned with `false`; any other value is appended at the end
/// and the index of the new last position is returned with `true`.
#[verifier::external_body]
pub(crate) fn set_insert_full(set: &mut IndexSet<String>, value: String) -> (r: (usize, bool))
    ensures
        set_items(*old(set)).contains(value@) ==> {
            &&& set_items(*final(set)) == set_items(*old(set))
            &&& r.0 < set_items(*old(set)).len()
            &&& set_items(*old(set))[r.0 as int] == value@
            &&& !r.1
        },
        !set_items(*old(set)).contains(value@) ==> {
            &&& set_items(*final(set)) == set_items(*old(set)).push(value@)
            &&& r.0 == set_items(*old(set)).len()
            &&& r.1
        },
{
    set.insert_full(value)
}

/// `IndexSet::get_index`: the value at a position below the set's length,
/// nothing at any other position.
#[verifier::external_body]
pub(crate) fn set_get_index(set: &IndexSet<String>, index: usize) -> (r: Option<&String>)
    ensures
        index < set_items(*set).len() ==> r.is_some() && r.unwrap()@ == set_items(*set)[
            index as int],
        index >= set_items(*set).len() ==> r.is_none(),
{
    set.get_index(index)
}

/// `IndexSet::contains`: whether the set holds a value equal to the given one.
#[verifier::external_body]
pub(crate) fn set_contains(set: &IndexSet<String>, value: &String) -> (b: bool)
    ensures
        b == set_items(*set).contains(value@),
{
    set.contains(value)
}

/// The vocabulary after `word` was interned: unchanged where it holds the
/// word, else longer by that word.
pub open spec fn interned(vocab: Seq<Seq<char>>, word: Seq<char>) -> Seq<Seq<char>> {
    if vocab.contains(word) {
        vocab
    } else {
        vocab.push(word)
    }
}

/// The vocabulary after each of `words` was interned in turn.
pub open spec fn interned_all(vocab: Seq<Seq<char>>, words: Seq<Seq<char>>) -> Seq<Seq<char>>
    decreases words.len(),
{
    if words.len() == 0 {
        vocab
    } else {
        interned(interned_all(vocab, words.drop_last()), words.last())
    }
}

/// The position of `word` in a vocabulary that holds it.
pub open spec fn word_id(vocab: Seq<Seq<char>>, word: Seq<char>) -> int {
    vocab.index_of(word)
}

/// The word behind an id, if the id is in range.
pub open spec fn resolved(vocab: Seq<Seq<char>>, id: int) -> Option<Seq<char>> {
    if 0 <= id < vocab.len() {
        Some(vocab[id])
    } else {
        None
    }
}

/// Interns `word`: returns the id it already has, or appends it and returns
/// the next id in sequence. The id is the position cut to 32 bits.
pub fn intern(words: &mut IndexSet<String>, word: String) -> (id: u32)
    requires
        set_items(*old(words)).no_duplicates(),
    ensures
        set_items(*final(words)) == interned(set_items(*old(words)), word@),
        set_items(*final(words)).no_duplicates(),
        set_items(*final(words)).contains(word@),
        id == word_id(set_items(*final(words)), word@) as u32,
        set_items(*final(words)).len() <= 0x1_0000_0000 ==> id < set_items(*final(words)).len()
            && set_items(*final(words))[id as int] == word@,
{
    let ghost before = set_items(*words);
    let ghost text = word@;
    let (index, _) = set_insert_full(words, word);
    proof {
        lemma_interned_distinct(before, text);
    }
    #[verifier::truncate]
    (index as u32)
}

/// Looks an id up: the word at that position, or nothing past the end.
pub fn resolve(words: &IndexSet<String>, id: u32) -> (r: Option<&String>)
    ensures
        match r {
            Some(word) => resolved(set_items(*words), id as int) == Some(word@),
            None => resolved(set_items(*words), id as int).is_none(),
        },
{
    set_get_index(words, id as usize)
}

/// Interning keeps the words distinct, keeps every word at its position, and
/// gives a new word the position after the last.
pub proof fn lemma_interned_distinct(vocab: Seq<Seq<char>>, word: Seq<char>)
    requires
        vocab.no_duplicates(),
    ensures
        interned(vocab, word).no_duplicates(),
        interned(vocab, word).contains(word),
        vocab.is_prefix_of(interned(vocab, word)),
        !vocab.contains(word) ==> word_id(interned(vocab, word), word) == vocab.len(),
        forall|other: Seq<char>| #[trigger]
            vocab.contains(other) ==> word_id(interned(vocab, word), other) == word_id(
                vocab,
                other,
            ),
{
    let after = interned(vocab, word);
    if !vocab.contains(word) {
        assert(after[vocab.len() as int] == word);
        assert forall|other: Seq<char>| #[trigger] vocab.contains(other) implies word_id(
            after,
            other,
        ) == word_id(vocab, other) by {
            let i = vocab.index_of(other);
            assert(after[i] == other);
        }
    }
}

/// Interning a sequence of words keeps the words distinct and every earlier
/// word at its position, holds each of the words afterwards, and adds no
/// empty word unless one was given.
pub proof fn lemma_interned_all(vocab: Seq<Seq<char>>, words: Seq<Seq<char>>)
    requires
        vocab.no_duplicates(),
    ensures
        interned_all(vocab, words).no_duplicates(),
        vocab.is_prefix_of(interned_all(vocab, words)),
        forall|k: int|
            0 <= k < words.len() ==> interned_all(vocab, words).contains(#[trigger] words[k]),
        forall|i: int|
            0 <= i < interned_all(vocab, words).len() ==> vocab.contains(
                #[trigger] interned_all(vocab, words)[i],
            ) || words.contains(interned_all(vocab, words)[i]),
        interned_all(vocab, words).len() <= vocab.len() + words.len(),
    decreases words.len(),
{
    if words.len() > 0 {
        let shorter = words.drop_last();
        lemma_interned_all(vocab, shorter);
        let before = interned_all(vocab, shorter);
        let after = interned_all(vocab, words);
        lemma_interned_distinct(before, words.last());
        assert forall|k: int| 0 <= k < words.len() implies after.contains(#[trigger] words[k]) by {
            if k < words.len() - 1 {
                assert(words[k] == shorter[k]);
            }
        }
    }
}

/// Interning a word a second time changes nothing and gives the same id.
pub proof fn lemma_intern_twice(vocab: Seq<Seq<char>>, word: Seq<char>)
    requires
        vocab.no_duplicates(),
    ensures
        interned(interned(vocab, word), word) == interned(vocab, word),
        word_id(interned(interned(vocab, word), word), word) == word_id(
            interned(vocab, word),
            word,
        ),
        0 <= word_id(interned(vocab, word), word) < interned(vocab, word).len(),
        interned(vocab, word)[word_id(interned(vocab, word), word)] == word,
{
    lemma_interned_distinct(vocab, word);
}

/// The position at which `word` first occurs in `words`, which hold it.
#[verifier::opaque]
pub open spec fn first_occurrence(words: Seq<Seq<char>>, word: Seq<char>) -> int {
    choose|i: int|
        0 <= i < words.len() && words[i] == word && (forall|j: int|
            0 <= j < i ==> words[j] != word)
}

/// The first occurrence of a word is the position that holds it and has no
/// occurrence before it.
pub proof fn lemma_first_occurrence_is(words: Seq<Seq<char>>, word: Seq<char>, i: int)
    requires
        0 <= i < words.len(),
        words[i] == word,
        forall|j: int| 0 <= j < i ==> words[j] != word,
    ensures
        first_occurrence(words, word) == i,
{
    reveal(first_occurrence);
    let f = first_occurrence(words, word);
    assert(0 <= f < words.len() && words[f] == word && (forall|j: int|
        0 <= j < f ==> words[j] != word));
}

/// A word that a sequence holds has a first occurrence in it.
pub proof fn lemma_first_occurrence(words: Seq<Seq<char>>, word: Seq<char>)
    requires
        words.contains(word),
    ensures
        0 <= first_occurrence(words, word) < words.len(),
        words[first_occurrence(words, word)] == word,
        forall|j: int| 0 <= j < first_occurrence(words, word) ==> words[j] != word,
        words.drop_last().contains(word) ==> first_occurrence(words, word) == first_occurrence(
            words.drop_last(),
            word,
        ),
        !words.drop_last().contains(word) ==> first_occurrence(words, word) == words.len() - 1,
    decreases words.len(),
{
    let shorter = words.drop_last();
    if shorter.contains(word) {
        lemma_first_occurrence(shorter, word);
        let i = first_occurrence(shorter, word);
        assert forall|j: int| 0 <= j < i implies words[j] != word by {
            assert(words[j] == shorter[j]);
        }
        lemma_first_occurrence_is(words, word, i);
    } else {
        let i = words.len() - 1;
        assert forall|j: int| 0 <= j < i implies words[j] != word by {
            assert(shorter[j] == words[j]);
        }
        lemma_first_occurrence_is(words, word, i);
    }
}

/// Into an empty vocabulary, ids are given in the order in which the words
/// first occur, from 0 on without a gap: the vocabulary holds exactly the
/// words given, each once, and a word that first occurs earlier stands
/// earlier.
pub proof fn lemma_ids_in_first_occurrence_order(words: Seq<Seq<char>>)
    ensures
        interned_all(Seq::empty(), words).no_duplicates(),
        forall|k: int|
            0 <= k < words.len() ==> interned_all(Seq::empty(), words).contains(
                #[trigger] words[k],
            ),
        forall|i: int|
            0 <= i < interned_all(Seq::empty(), words).len() ==> words.contains(
                #[trigger] interned_all(Seq::empty(), words)[i],
            ),
        forall|i: int, j: int|
            0 <= i < j < interned_all(Seq::empty(), words).len() ==> first_occurrence(
                words,
                #[trigger] interned_all(Seq::empty(), words)[i],
            ) < first_occurrence(words, #[trigger] interned_all(Seq::empty(), words)[j]),
        words.len() > 0 ==> interned_all(Seq::empty(), words).len() > 0 && interned_all(
            Seq::empty(),
            words,
        )[0] == words[0] && word_id(interned_all(Seq::empty(), words), words[0]) == 0,
    decreases words.len(),
{
    let start = Seq::<Seq<char>>::empty();
    let after = interned_all(start, words);
    lemma_interned_all(start, words);
    if words.len() > 0 {
        let shorter = words.drop_last();
        let before = interned_all(start, shorter);
        lemma_ids_in_first_occurrence_order(shorter);
        assert forall|i: int, j: int| 0 <= i < j < after.len() implies first_occurrence(
            words,
            #[trigger] after[i],
        ) < first_occurrence(words, #[trigger] after[j]) by {
            lemma_order_step(words, before, after, i, j);
        }
    }
}

/// One pair of positions of the order above, given the order for the words
/// without the last.
proof fn lemma_order_step(
    words: Seq<Seq<char>>,
    before: Seq<Seq<char>>,
    after: Seq<Seq<char>>,
    i: int,
    j: int,
)
    requires
        words.len() > 0,
        after == interned(before, words.last()),
        0 <= i < j < after.len(),
        forall|k: int| 0 <= k < before.len() ==> words.drop_last().contains(#[trigger] before[k]),
        forall|k: int|
            0 <= k < words.drop_last().len() ==> before.contains(#[trigger] words.drop_last()[k]),
        forall|a: int, b: int|
            0 <= a < b < before.len() ==> first_occurrence(
                words.drop_last(),
                #[trigger] before[a],
            ) < first_occurrence(words.drop_last(), #[trigger] before[b]),
    ensures
        first_occurrence(words, after[i]) < first_occurrence(words, after[j]),
{
    lemma_first_occurrence(words, after[i]);
    lemma_first_occurrence(words, after[j]);
}

} // verus!
