//! Ingestion: text is split into words, the words are interned, and a window
//! of three word ids slides over them, leaving one record per position.

use crate::date::AppendError;
use crate::message::{
    absorb_event, append_message, dump_appended, dump_progress, flushed, DumpState,
    ExtractedMessage, MessageEvent, MessageView,
};
use crate::model::{
    lemma_pack_fields, source_views, ChainEntry, ChainPrefix, ChainSuffix, ChainView,
    Datestamp, MarkovChain, SourceView, TextSource, NGRAM_CNT,
};
use crate::tokenize::{lemma_words_are_runs, split_words, texts, words_of};
use crate::vocabulary::{
    intern, interned_all, lemma_interned_all, lemma_interned_distinct, resolve, resolved,
    set_contains, set_insert_full, set_items, set_new, word_id,
};
use indexmap::IndexSet;
use vstd::prelude::*;
use vstd::string::StrSliceExecFns;

verus! {

/// Whether a word ends a sentence: its last character is `.`, `?` or `!`.
pub open spec fn ends_sentence(word: Seq<char>) -> bool {
    word.len() > 0 && (word.last() == '.' || word.last() == '?' || word.last() == '!')
}

/// The ids that the words of a text get when they are interned in turn into
/// `vocab`: each word's position in the grown vocabulary, cut to 32 bits.
pub open spec fn word_ids(vocab: Seq<Seq<char>>, words: Seq<Seq<char>>) -> Seq<u32> {
    Seq::new(words.len(), |k: int| word_id(interned_all(vocab, words), words[k]) as u32)
}

/// Whether the record at position `i` is terminal. Where punctuation
/// decides, it is terminal when the word behind its suffix id ends a sentence;
/// else it is terminal when its three ids equal the last three ids of the text.
pub open spec fn terminal_at(
    ids: Seq<u32>,
    vocab: Seq<Seq<char>>,
    by_punctuation: bool,
    i: int,
) -> bool {
    if by_punctuation {
        match resolved(vocab, ids[i + 2] as int) {
            Some(word) => ends_sentence(word),
            None => false,
        }
    } else {
        ids.subrange(i, i + 3) == ids.subrange(ids.len() - 3, ids.len() as int)
    }
}

/// Whether the record at position `i` opens a sentence: it is the first, or
/// the record before it is terminal.
pub open spec fn starting_at(
    ids: Seq<u32>,
    vocab: Seq<Seq<char>>,
    by_punctuation: bool,
    i: int,
) -> bool {
    i == 0 || terminal_at(ids, vocab, by_punctuation, i - 1)
}

/// The record at position `i`: two ids as prefix, the third as suffix.
pub open spec fn record_at(
    ids: Seq<u32>,
    vocab: Seq<Seq<char>>,
    datestamp: Datestamp,
    by_punctuation: bool,
    i: int,
) -> ChainEntry {
    ChainEntry {
        prefix: ChainPrefix {
            words: [ids[i], ids[i + 1]],
            starting: starting_at(ids, vocab, by_punctuation, i),
        },
        suffix: ChainSuffix::pack(ids[i + 2], terminal_at(ids, vocab, by_punctuation, i)),
        datestamp,
    }
}

/// The records of a text with the given word ids: none for fewer than three
/// ids, else one for each position at which a window of three ids fits.
pub open spec fn records_of(
    ids: Seq<u32>,
    vocab: Seq<Seq<char>>,
    datestamp: Datestamp,
    by_punctuation: bool,
) -> Seq<ChainEntry> {
    if ids.len() < 3 {
        Seq::empty()
    } else {
        Seq::new(
            (ids.len() - 2) as nat,
            |i: int| record_at(ids, vocab, datestamp, by_punctuation, i),
        )
    }
}

/// Tests whether the last character of `word` is `.`, `?` or `!`.
pub fn word_ends_sentence(word: &str) -> (b: bool)
    ensures
        b == ends_sentence(word@),
{
    let n = word.unicode_len();
    if n == 0 {
        false
    } else {
        let c = word.get_char(n - 1);
        c == '.' || c == '?' || c == '!'
    }
}

/// Interns each word in turn and returns the ids in the order of the words.
pub fn intern_words(words: &mut IndexSet<String>, tokens: Vec<String>) -> (ids: Vec<u32>)
    requires
        set_items(*old(words)).no_duplicates(),
    ensures
        set_items(*final(words)) == interned_all(set_items(*old(words)), texts(tokens@)),
        set_items(*final(words)).no_duplicates(),
        ids@ == word_ids(set_items(*old(words)), texts(tokens@)),
{
    let ghost start = set_items(*words);
    let ghost toks = texts(tokens@);
    let mut ids: Vec<u32> = Vec::new();
    for token in it: tokens
        invariant
            texts(it.seq()) == toks,
            set_items(*words) == interned_all(start, toks.take(it.index())),
            set_items(*words).no_duplicates(),
            ids@.len() == it.index(),
            forall|j: int|
                0 <= j < it.index() ==> set_items(*words).contains(#[trigger] toks[j]) && ids@[j]
                    == word_id(set_items(*words), toks[j]) as u32,
    {
        proof {
            let k = it.index();
            assert(toks.take(k + 1).drop_last() == toks.take(k));
            lemma_interned_distinct(set_items(*words), token@);
        }
        let id = intern(words, token);
        ids.push(id);
    }
    assert(toks.take(toks.len() as int) == toks);
    ids
}

/// Whether a source is known under one of `names`.
pub open spec fn shares_name(source: SourceView, names: Seq<Seq<char>>) -> bool {
    exists|k: int| 0 <= k < names.len() && source.names.contains(#[trigger] names[k])
}

/// The position of the first source that is known under one of `names`, or
/// the number of sources where there is none.
pub open spec fn source_position(sources: Seq<SourceView>, names: Seq<Seq<char>>) -> int
    decreases sources.len(),
{
    if sources.len() == 0 {
        0
    } else {
        let before = source_position(sources.drop_last(), names);
        if before < sources.len() - 1 || shares_name(sources.last(), names) {
            before
        } else {
            sources.len() as int
        }
    }
}

/// The sources after one was picked for `names`: unchanged where a source is
/// known under one of the names, else longer by an empty source whose names
/// are exactly `names`, each once.
pub open spec fn sources_with(sources: Seq<SourceView>, names: Seq<Seq<char>>) -> Seq<
    SourceView,
> {
    if source_position(sources, names) < sources.len() {
        sources
    } else {
        sources.push(
            SourceView {
                names: interned_all(Seq::empty(), names),
                entries: Seq::empty(),
            },
        )
    }
}

/// The position is that of the first source that shares a name.
pub proof fn lemma_source_position(sources: Seq<SourceView>, names: Seq<Seq<char>>)
    ensures
        0 <= source_position(sources, names) <= sources.len(),
        source_position(sources, names) < sources.len() ==> shares_name(
            sources[source_position(sources, names)],
            names,
        ),
        forall|j: int|
            0 <= j < source_position(sources, names) ==> !shares_name(
                #[trigger] sources[j],
                names,
            ),
    decreases sources.len(),
{
    if sources.len() > 0 {
        lemma_source_position(sources.drop_last(), names);
        assert forall|j: int| 0 <= j < source_position(sources, names) implies !shares_name(
            #[trigger] sources[j],
            names,
        ) by {
            if j < sources.len() - 1 {
                assert(sources[j] == sources.drop_last()[j]);
            }
        }
    }
}

/// Tests whether a source is known under one of `names`.
pub fn source_has_name(source: &TextSource, names: &Vec<String>) -> (b: bool)
    ensures
        b == shares_name(source@, texts(names@)),
{
    let mut k: usize = 0;
    while k < names.len()
        invariant
            k <= names.len(),
            forall|j: int| 0 <= j < k ==> !source@.names.contains(#[trigger] texts(names@)[j]),
        decreases names.len() - k,
    {
        if set_contains(&source.names, &names[k]) {
            assert(texts(names@)[k as int] == names@[k as int]@);
            return true;
        }
        k += 1;
    }
    false
}

/// Finds the first source that is known under one of `names`; where there is
/// none, appends an empty source with exactly those names. Returns the
/// position of the source.
pub fn source_by_names(sources: &mut Vec<TextSource>, names: Vec<String>) -> (idx: usize)
    ensures
        source_views(final(sources)@) == sources_with(
            source_views(old(sources)@),
            texts(names@),
        ),
        idx == source_position(source_views(old(sources)@), texts(names@)),
        idx < final(sources)@.len(),
        idx < old(sources)@.len() ==> *final(sources) == *old(sources),
        idx == old(sources)@.len() ==> final(sources)@.len() == old(sources)@.len() + 1
            && final(sources)@.drop_last() == old(sources)@,
{
    let ghost given = texts(names@);
    let ghost before = source_views(sources@);
    let mut i: usize = 0;
    while i < sources.len()
        invariant
            i <= sources.len(),
            *sources == *old(sources),
            given == texts(names@),
            before == source_views(sources@),
            source_position(before.take(i as int), given) == i,
        decreases sources.len() - i,
    {
        proof {
            assert(before.take(i + 1).drop_last() == before.take(i as int));
        }
        if source_has_name(&sources[i], &names) {
            proof {
                lemma_position_of_prefix(before, given, i + 1);
            }
            return i;
        }
        i += 1;
    }
    assert(before.take(i as int) == before);
    let mut set = set_new();
    for name in it: names
        invariant
            texts(it.seq()) == given,
            set_items(set) == interned_all(Seq::empty(), given.take(it.index())),
    {
        proof {
            assert(given.take(it.index() + 1).drop_last() == given.take(it.index()));
        }
        let _ = set_insert_full(&mut set, name);
    }
    assert(given.take(given.len() as int) == given);
    sources.push(TextSource { names: set, entries: Vec::new() });
    sources.len() - 1
}

/// A source found among the first `n` sources is the one found among all.
proof fn lemma_position_of_prefix(sources: Seq<SourceView>, names: Seq<Seq<char>>, n: int)
    requires
        0 <= n <= sources.len(),
        source_position(sources.take(n), names) < n,
    ensures
        source_position(sources, names) == source_position(sources.take(n), names),
    decreases sources.len() - n,
{
    if n < sources.len() {
        assert(sources.take(n + 1).drop_last() == sources.take(n));
        lemma_position_of_prefix(sources, names, n + 1);
    } else {
        assert(sources.take(n) == sources);
    }
}

/// Splits `text` into words, interns them into `words`, and appends to
/// `entries` one record for each window of three consecutive word ids, dated
/// `datestamp`. With `treat_ending_punctuation_as_terminal` a record is
/// terminal when the word behind its suffix ends in `.`, `?` or `!`; without
/// it, when its window equals the last window of the text.
pub fn push_text_entries(
    text: &str,
    datestamp: Datestamp,
    entries: &mut Vec<ChainEntry>,
    words: &mut IndexSet<String>,
    treat_ending_punctuation_as_terminal: bool,
)
    requires
        set_items(*old(words)).no_duplicates(),
    ensures
        set_items(*final(words)) == interned_all(set_items(*old(words)), words_of(text@)),
        set_items(*final(words)).no_duplicates(),
        final(entries)@ == old(entries)@ + records_of(
            word_ids(set_items(*old(words)), words_of(text@)),
            set_items(*final(words)),
            datestamp,
            treat_ending_punctuation_as_terminal,
        ),
{
    let tokens = split_words(text);
    let word_indexes = intern_words(words, tokens);
    let n = word_indexes.len();
    if n < NGRAM_CNT + 1 {
        return ;
    }
    let ghost ids = word_indexes@;
    let ghost vocab = set_items(*words);
    let mut starting = true;
    let mut i: usize = 0;
    while i < n - NGRAM_CNT
        invariant
            n == word_indexes.len(),
            n >= 3,
            ids == word_indexes@,
            vocab == set_items(*words),
            i <= n - 2,
            starting == starting_at(
                ids,
                vocab,
                treat_ending_punctuation_as_terminal,
                i as int,
            ),
            entries@ == old(entries)@ + records_of(
                ids,
                vocab,
                datestamp,
                treat_ending_punctuation_as_terminal,
            ).take(
                i as int,
            ),
        decreases n - i,
    {
        let suffix = word_indexes[i + NGRAM_CNT];
        let terminal = if treat_ending_punctuation_as_terminal {
            match resolve(words, suffix) {
                Some(word) => word_ends_sentence(word.as_str()),
                None => false,
            }
        } else {
            proof {
                lemma_window_equality(ids, i as int, n - 3);
            }
            word_indexes[i] == word_indexes[n - 3] && word_indexes[i + 1] == word_indexes[n - 2]
                && suffix == word_indexes[n - 1]
        };
        let entry = ChainEntry {
            prefix: if starting {
                ChainPrefix::starting([word_indexes[i], word_indexes[i + 1]])
            } else {
                ChainPrefix::nonstarting([word_indexes[i], word_indexes[i + 1]])
            },
            suffix: if terminal {
                ChainSuffix::terminal(suffix)
            } else {
                ChainSuffix::nonterminal(suffix)
            },
            datestamp,
        };
        entries.push(entry);
        starting = terminal;
        i += 1;
    }
}

/// The model after `text` was ingested under `names`: the words of the text
/// are interned, and the records of the text are appended to the source that
/// `names` pick.
pub open spec fn appended(
    chain: ChainView,
    text: Seq<char>,
    names: Seq<Seq<char>>,
    datestamp: Datestamp,
    by_punctuation: bool,
) -> ChainView {
    let at = source_position(chain.sources, names);
    let sources = sources_with(chain.sources, names);
    let words = interned_all(chain.words, words_of(text));
    let records = records_of(
        word_ids(chain.words, words_of(text)),
        words,
        datestamp,
        by_punctuation,
    );
    ChainView {
        words,
        sources: sources.update(
            at,
            SourceView { names: sources[at].names, entries: sources[at].entries + records },
        ),
    }
}

/// Ingests `text` under `names`: picks the source, interns the words and
/// appends the records.
pub fn append_entries(
    chain: &mut MarkovChain,
    text: &str,
    names: Vec<String>,
    datestamp: Datestamp,
    treat_ending_punctuation_as_terminal: bool,
)
    requires
        old(chain)@.distinct(),
    ensures
        final(chain)@ == appended(
            old(chain)@,
            text@,
            texts(names@),
            datestamp,
            treat_ending_punctuation_as_terminal,
        ),
        final(chain)@.distinct(),
{
    let ghost before = chain@;
    let ghost given = texts(names@);
    let idx = source_by_names(&mut chain.sources, names);
    push_text_entries(
        text,
        datestamp,
        &mut chain.sources[idx].entries,
        &mut chain.words,
        treat_ending_punctuation_as_terminal,
    );
    proof {
        let after = appended(
            before,
            text@,
            given,
            datestamp,
            treat_ending_punctuation_as_terminal,
        );
        assert(chain@.sources =~= after.sources);
    }
}

/// Ingestion keeps the vocabulary distinct and adds no empty word to it.
pub proof fn lemma_appended_vocabulary(
    chain: ChainView,
    text: Seq<char>,
    names: Seq<Seq<char>>,
    datestamp: Datestamp,
    by_punctuation: bool,
)
    requires
        chain.distinct(),
    ensures
        appended(chain, text, names, datestamp, by_punctuation).distinct(),
        chain.words.is_prefix_of(appended(chain, text, names, datestamp, by_punctuation).words),
        chain.no_empty_word() ==> appended(
            chain,
            text,
            names,
            datestamp,
            by_punctuation,
        ).no_empty_word(),
{
    let after = appended(chain, text, names, datestamp, by_punctuation);
    lemma_interned_all(chain.words, words_of(text));
    lemma_words_are_runs(text);
    if chain.no_empty_word() {
        assert forall|i: int| 0 <= i < after.words.len() implies (#[trigger] after.words[i]).len()
            > 0 by {
            let word = after.words[i];
            if chain.words.contains(word) {
                assert(chain.words[chain.words.index_of(word)] == word);
            } else {
                assert(words_of(text)[words_of(text).index_of(word)] == word);
            }
        }
    }
}

/// Ingestion of plain text and of message dumps into a model.
pub trait ChainAppend {
    /// What the model holds.
    spec fn model(&self) -> ChainView;

    /// Ingests a block of text under the given names and date. Only the
    /// records whose window equals the last window of the text are terminal.
    fn append_text(&mut self, text: &str, source_names: Vec<String>, datestamp: Datestamp)
        requires
            old(self).model().distinct(),
        ensures
            final(self).model() == appended(
                old(self).model(),
                text@,
                texts(source_names@),
                datestamp,
                false,
            ),
            final(self).model().distinct(),
            old(self).model().no_empty_word() ==> final(self).model().no_empty_word(),
    ;

    /// Ingests the events of a message dump in order and flushes the last
    /// message at the end. Stops at the first timestamp that cannot be read,
    /// with the messages before it ingested.
    fn append_message_dump(&mut self, events: Vec<MessageEvent>) -> (r: Result<(), AppendError>)
        requires
            old(self).model().distinct(),
        ensures
            final(self).model() == dump_appended(old(self).model(), events@).0,
            r == dump_appended(old(self).model(), events@).1,
            final(self).model().distinct(),
            old(self).model().no_empty_word() ==> final(self).model().no_empty_word(),
    ;
}

impl ChainAppend for MarkovChain {
    open spec fn model(&self) -> ChainView {
        self@
    }

    fn append_text(&mut self, text: &str, source_names: Vec<String>, datestamp: Datestamp) {
        proof {
            lemma_appended_vocabulary(self@, text@, texts(source_names@), datestamp, false);
        }
        append_entries(self, text, source_names, datestamp, false);
    }

    fn append_message_dump(&mut self, events: Vec<MessageEvent>) -> (r: Result<(), AppendError>) {
        let ghost start = DumpState { chain: self@, message: MessageView::empty() };
        let ghost all = events@;
        let mut message = ExtractedMessage::default();
        for event in it: events
            invariant
                it.seq() == all,
                all == events@,
                start == (DumpState { chain: old(self)@, message: MessageView::empty() }),
                self@.distinct(),
                start.chain.no_empty_word() ==> self@.no_empty_word(),
                dump_progress(start, all.take(it.index())) == (
                    DumpState { chain: self@, message: message@ },
                    None::<AppendError>,
                ),
        {
            let ghost reached = DumpState { chain: self@, message: message@ };
            proof {
                assert(all.take(it.index() + 1).drop_last() == all.take(it.index()));
                lemma_flushed_vocabulary(reached.chain, reached.message);
            }
            match absorb_event(self, message, event) {
                Ok(next) => {
                    message = next;
                },
                Err(error) => {
                    proof {
                        lemma_progress_stays_failed(start, all, it.index() + 1);
                    }
                    return Err(error);
                },
            }
        }
        proof {
            assert(all.take(all.len() as int) == all);
            lemma_flushed_vocabulary(self@, message@);
        }
        if !message.body.as_str().is_empty() {
            append_message(self, message);
        }
        Ok(())
    }
}

/// Flushing a message keeps the vocabulary distinct and adds no empty word.
pub proof fn lemma_flushed_vocabulary(chain: ChainView, message: MessageView)
    requires
        chain.distinct(),
    ensures
        flushed(chain, message).distinct(),
        chain.no_empty_word() ==> flushed(chain, message).no_empty_word(),
{
    lemma_appended_vocabulary(chain, message.body, message.names, message.datestamp, true);
}

/// Once an event has failed, the events after it change nothing.
proof fn lemma_progress_stays_failed(start: DumpState, events: Seq<MessageEvent>, n: int)
    requires
        0 <= n <= events.len(),
        dump_progress(start, events.take(n)).1.is_some(),
    ensures
        dump_progress(start, events) == dump_progress(start, events.take(n)),
    decreases events.len() - n,
{
    if n < events.len() {
        assert(events.take(n + 1).drop_last() == events.take(n));
        lemma_progress_stays_failed(start, events, n + 1);
    } else {
        assert(events.take(n) == events);
    }
}

/// A text of at least three words leaves one record for each window of three
/// words: two records fewer than words, the record at a position holding the
/// ids at that position and the next as prefix and the low 31 bits of the id
/// after them as suffix, under the given date.
pub proof fn lemma_window_coverage(
    ids: Seq<u32>,
    vocab: Seq<Seq<char>>,
    datestamp: Datestamp,
    by_punctuation: bool,
)
    requires
        ids.len() >= 3,
    ensures
        records_of(ids, vocab, datestamp, by_punctuation).len() == ids.len() - 2,
        forall|i: int|
            #![trigger records_of(ids, vocab, datestamp, by_punctuation)[i]]
            0 <= i < ids.len() - 2 ==> {
                let record = records_of(ids, vocab, datestamp, by_punctuation)[i];
                &&& record.prefix.words@ == ids.subrange(i, i + 2)
                &&& record.suffix.spec_word_idx() == ids[i + 2] % 0x8000_0000
                &&& record.datestamp == datestamp
            },
{
    assert forall|i: int|
        #![trigger records_of(ids, vocab, datestamp, by_punctuation)[i]]
        0 <= i < ids.len() - 2 implies {
        let record = records_of(ids, vocab, datestamp, by_punctuation)[i];
        &&& record.prefix.words@ == ids.subrange(i, i + 2)
        &&& record.suffix.spec_word_idx() == ids[i + 2] % 0x8000_0000
        &&& record.datestamp == datestamp
    } by {
        lemma_pack_fields(ids[i + 2], terminal_at(ids, vocab, by_punctuation, i));
    }
}

/// Where the vocabulary stays within 2^31 words, each id of a text resolves
/// to the word it was given for.
pub proof fn lemma_ids_resolve(vocab: Seq<Seq<char>>, words: Seq<Seq<char>>)
    requires
        vocab.no_duplicates(),
        interned_all(vocab, words).len() <= 0x8000_0000,
    ensures
        word_ids(vocab, words).len() == words.len(),
        forall|k: int|
            0 <= k < words.len() ==> (#[trigger] word_ids(vocab, words)[k]) < interned_all(
                vocab,
                words,
            ).len() && resolved(interned_all(vocab, words), word_ids(vocab, words)[k] as int)
                == Some(words[k]),
{
    let after = interned_all(vocab, words);
    lemma_interned_all(vocab, words);
    assert forall|k: int| 0 <= k < words.len() implies (#[trigger] word_ids(vocab, words)[k])
        < after.len() && resolved(after, word_ids(vocab, words)[k] as int) == Some(
        words[k],
    ) by {
        assert(after[word_id(after, words[k])] == words[k]);
    }
}

/// Window coverage in words: where the vocabulary stays within 2^31 words,
/// the record at a position resolves to the three words at that position of
/// the text, the first two as prefix and the third as suffix.
pub proof fn lemma_records_hold_the_words(
    vocab: Seq<Seq<char>>,
    text: Seq<char>,
    datestamp: Datestamp,
    by_punctuation: bool,
)
    requires
        vocab.no_duplicates(),
        interned_all(vocab, words_of(text)).len() <= 0x8000_0000,
        words_of(text).len() >= 3,
    ensures
        ({
            let words = words_of(text);
            let after = interned_all(vocab, words);
            let records = records_of(word_ids(vocab, words), after, datestamp, by_punctuation);
            &&& records.len() == words.len() - 2
            &&& forall|i: int|
                #![trigger records[i]]
                0 <= i < words.len() - 2 ==> {
                    &&& resolved(after, records[i].prefix.words[0] as int) == Some(words[i])
                    &&& resolved(after, records[i].prefix.words[1] as int) == Some(words[i + 1])
                    &&& resolved(after, records[i].suffix.spec_word_idx() as int) == Some(
                        words[i + 2],
                    )
                }
        }),
{
    let words = words_of(text);
    let after = interned_all(vocab, words);
    let ids = word_ids(vocab, words);
    let records = records_of(ids, after, datestamp, by_punctuation);
    lemma_ids_resolve(vocab, words);
    assert forall|i: int| #![trigger records[i]] 0 <= i < words.len() - 2 implies {
        &&& resolved(after, records[i].prefix.words[0] as int) == Some(words[i])
        &&& resolved(after, records[i].prefix.words[1] as int) == Some(words[i + 1])
        &&& resolved(after, records[i].suffix.spec_word_idx() as int) == Some(words[i + 2])
    } by {
        lemma_pack_fields(ids[i + 2], terminal_at(ids, after, by_punctuation, i));
    }
}

/// Where the last window determines the terminal records and no earlier
/// window holds the same three ids as the last, only the last record is
/// terminal, and only the first opens a sentence unless it is the last too.
pub proof fn lemma_only_last_is_terminal(
    ids: Seq<u32>,
    vocab: Seq<Seq<char>>,
    datestamp: Datestamp,
)
    requires
        ids.len() >= 3,
        forall|i: int|
            0 <= i < ids.len() - 3 ==> #[trigger] ids.subrange(i, i + 3) != ids.subrange(
                ids.len() - 3,
                ids.len() as int,
            ),
    ensures
        forall|i: int|
            0 <= i < ids.len() - 2 ==> ((#[trigger] records_of(
                ids,
                vocab,
                datestamp,
                false,
            )[i]).suffix.spec_is_terminal() <==> i == ids.len() - 3),
        forall|i: int|
            0 <= i < ids.len() - 2 ==> ((#[trigger] records_of(
                ids,
                vocab,
                datestamp,
                false,
            )[i]).prefix.starting <==> i == 0),
{
    assert forall|i: int| 0 <= i < ids.len() - 2 implies ((#[trigger] records_of(
        ids,
        vocab,
        datestamp,
        false,
    )[i]).suffix.spec_is_terminal() <==> i == ids.len() - 3) by {
        lemma_pack_fields(ids[i + 2], terminal_at(ids, vocab, false, i));
    }
    assert forall|i: int| 0 <= i < ids.len() - 2 implies ((#[trigger] records_of(
        ids,
        vocab,
        datestamp,
        false,
    )[i]).prefix.starting <==> i == 0) by {
        if i > 0 {
            assert(ids.subrange(i - 1, i - 1 + 3) != ids.subrange(
                ids.len() - 3,
                ids.len() as int,
            ));
        }
    }
}

/// Where punctuation determines the terminal records and the vocabulary
/// stays within 2^31 words, a record is terminal exactly when the word of
/// its suffix ends a sentence.
pub proof fn lemma_terminal_by_punctuation(
    vocab: Seq<Seq<char>>,
    text: Seq<char>,
    datestamp: Datestamp,
)
    requires
        vocab.no_duplicates(),
        interned_all(vocab, words_of(text)).len() <= 0x8000_0000,
        words_of(text).len() >= 3,
    ensures
        ({
            let words = words_of(text);
            let after = interned_all(vocab, words);
            let records = records_of(word_ids(vocab, words), after, datestamp, true);
            forall|i: int|
                #![trigger records[i]]
                0 <= i < words.len() - 2 ==> {
                    &&& resolved(after, records[i].suffix.spec_word_idx() as int) == Some(
                        words[i + 2],
                    )
                    &&& records[i].suffix.spec_is_terminal() == ends_sentence(words[i + 2])
                }
        }),
{
    let words = words_of(text);
    let after = interned_all(vocab, words);
    let ids = word_ids(vocab, words);
    let records = records_of(ids, after, datestamp, true);
    lemma_ids_resolve(vocab, words);
    assert forall|i: int| #![trigger records[i]] 0 <= i < words.len() - 2 implies {
        &&& resolved(after, records[i].suffix.spec_word_idx() as int) == Some(words[i + 2])
        &&& records[i].suffix.spec_is_terminal() == ends_sentence(words[i + 2])
    } by {
        lemma_pack_fields(ids[i + 2], terminal_at(ids, after, true, i));
    }
}

/// Whether two sequences of names have a name in common.
pub open spec fn names_meet(first: Seq<Seq<char>>, second: Seq<Seq<char>>) -> bool {
    exists|k: int| 0 <= k < second.len() && first.contains(#[trigger] second[k])
}

/// Ingestion changes the names of no source, and adds at most the source
/// that it creates.
pub proof fn lemma_appended_sources(
    chain: ChainView,
    text: Seq<char>,
    names: Seq<Seq<char>>,
    datestamp: Datestamp,
    by_punctuation: bool,
)
    ensures
        ({
            let after = appended(chain, text, names, datestamp, by_punctuation);
            let picked = sources_with(chain.sources, names);
            &&& after.sources.len() == picked.len()
            &&& forall|j: int|
                0 <= j < picked.len() ==> (#[trigger] after.sources[j]).names == picked[j].names
            &&& forall|j: int|
                0 <= j < chain.sources.len() ==> (#[trigger] after.sources[j]).names
                    == chain.sources[j].names
        }),
{
    lemma_source_position(chain.sources, names);
}

/// The position that names pick depends on the names of the sources alone.
pub proof fn lemma_position_by_names(
    first: Seq<SourceView>,
    second: Seq<SourceView>,
    names: Seq<Seq<char>>,
)
    requires
        first.len() == second.len(),
        forall|j: int| 0 <= j < first.len() ==> (#[trigger] first[j]).names == second[j].names,
    ensures
        source_position(first, names) == source_position(second, names),
    decreases first.len(),
{
    if first.len() > 0 {
        lemma_position_by_names(first.drop_last(), second.drop_last(), names);
    }
}

/// Source grouping. Take a model none of whose sources is known under a name
/// of `first` or of `second`. Text ingested under `first` makes a new source.
/// Text ingested later under `second` goes to that same source where the two
/// have a name in common, and makes another new source where they have none.
pub proof fn lemma_source_grouping(
    chain: ChainView,
    first: Seq<Seq<char>>,
    second: Seq<Seq<char>>,
    text: Seq<char>,
    datestamp: Datestamp,
    by_punctuation: bool,
)
    requires
        source_position(chain.sources, first) == chain.sources.len(),
        source_position(chain.sources, second) == chain.sources.len(),
    ensures
        ({
            let after = appended(chain, text, first, datestamp, by_punctuation);
            &&& after.sources.len() == chain.sources.len() + 1
            &&& names_meet(first, second) ==> source_position(after.sources, second)
                == chain.sources.len()
            &&& !names_meet(first, second) ==> source_position(after.sources, second)
                == after.sources.len()
        }),
{
    let after = appended(chain, text, first, datestamp, by_punctuation);
    let picked = sources_with(chain.sources, first);
    lemma_position_by_names(after.sources, picked, second);
    assert(picked.drop_last() =~= chain.sources);
    let created = picked.last();
    lemma_interned_all(Seq::empty(), first);
    if names_meet(first, second) {
        let k = choose|k: int| 0 <= k < second.len() && first.contains(#[trigger] second[k]);
        assert(first[first.index_of(second[k])] == second[k]);
        assert(shares_name(created, second));
    } else if shares_name(created, second) {
        let k = choose|k: int|
            0 <= k < second.len() && created.names.contains(#[trigger] second[k]);
        assert(first.contains(created.names[created.names.index_of(second[k])]));
    }
}

/// Two windows of three ids are equal when their ids agree place by place.
proof fn lemma_window_equality(ids: Seq<u32>, i: int, j: int)
    requires
        0 <= i <= ids.len() - 3,
        0 <= j <= ids.len() - 3,
    ensures
        (ids.subrange(i, i + 3) == ids.subrange(j, j + 3)) <==> (ids[i] == ids[j] && ids[i + 1]
            == ids[j + 1] && ids[i + 2] == ids[j + 2]),
{
    let a = ids.subrange(i, i + 3);
    let b = ids.subrange(j, j + 3);
    if a == b {
        assert(a[0] == b[0] && a[1] == b[1] && a[2] == b[2]);
    }
    if ids[i] == ids[j] && ids[i + 1] == ids[j + 1] && ids[i + 2] == ids[j + 2] {
        assert(a =~= b);
    }
}

} // verus!
