//! Generation: a bounded number of random walks over the records of the
//! chosen sources, the first successful one resolved to text.

use crate::model::{ChainEntry, Datestamp, MarkovChain, SourceView, TextSource};
use crate::vocabulary::{resolve, resolved, set_items};
use indexmap::IndexSet;
use rand::rngs::SmallRng;
use rand::seq::SliceRandom;
use vstd::prelude::*;
use vstd::string::StringExecFns;

verus! {

/// Number of walks that are tried before generation gives up.
pub const MAX_TRIES: usize = 20;

/// `rand::rngs::SmallRng`, carried as an opaque value.
#[verifier::external_type_specification]
#[verifier::external_body]
pub struct ExSmallRng(SmallRng);

/// `SliceRandom::choose` on a slice: nothing for an empty slice, else one of
/// its items. Which one is not stated.
#[verifier::external_body]
pub(crate) fn choose_one<'a, T>(items: &'a [T], rng: &mut SmallRng) -> (r: Option<&'a T>)
    ensures
        items@.len() == 0 ==> r.is_none(),
        items@.len() > 0 ==> r.is_some() && items@.contains(*r.unwrap()),
{
    items.choose(rng)
}

/// The records behind a sequence of references.
pub open spec fn records(edges: Seq<&ChainEntry>) -> Seq<ChainEntry> {
    edges.map_values(|e: &ChainEntry| *e)
}

/// Whether a record continues a walk that stands at the suffix word `word`:
/// its first prefix word is that word.
pub open spec fn continues(edge: ChainEntry, word: u32) -> bool {
    edge.prefix.words[0] == word
}

/// How a walk stands after a record was visited.
#[derive(Debug, Clone, Copy, PartialEq, Eq)]
pub enum WalkStep {
    /// The buffer holds enough words and the record is terminal.
    Succeeded,
    /// The buffer is full.
    Abandoned,
    /// The walk goes on with a record that continues it.
    Walking,
}

/// The step after a record was visited with `buffered` words in the buffer,
/// the record's prefix included.
pub open spec fn step_after(
    buffered: int,
    edge: ChainEntry,
    min_words: int,
    max_words: int,
) -> WalkStep {
    if buffered >= min_words && edge.suffix.spec_is_terminal() {
        WalkStep::Succeeded
    } else if buffered >= max_words {
        WalkStep::Abandoned
    } else {
        WalkStep::Walking
    }
}

/// Visits a record: appends its prefix words to the buffer, and its suffix
/// word too where the walk succeeds with it.
pub fn walk_step(
    generated: &mut Vec<u32>,
    edge: &ChainEntry,
    min_words: usize,
    max_words: usize,
) -> (step: WalkStep)
    ensures
        step == step_after(
            (old(generated)@.len() + 2) as int,
            *edge,
            min_words as int,
            max_words as int,
        ),
        step == WalkStep::Succeeded ==> final(generated)@ == (old(generated)@
            + edge.prefix.words@).push(edge.suffix.spec_word_idx()),
        step != WalkStep::Succeeded ==> final(generated)@ == old(generated)@
            + edge.prefix.words@,
{
    generated.push(edge.prefix.words[0]);
    generated.push(edge.prefix.words[1]);
    if generated.len() >= min_words && edge.suffix.is_terminal() {
        generated.push(edge.suffix.word_idx());
        WalkStep::Succeeded
    } else if generated.len() >= max_words {
        WalkStep::Abandoned
    } else {
        WalkStep::Walking
    }
}

/// The records of the pool that continue a walk standing at `word`, in the
/// order of the pool.
pub fn next_edges<'a>(edges: &[&'a ChainEntry], word: u32) -> (next: Vec<&'a ChainEntry>)
    ensures
        records(next@) == records(edges@).filter(|e: ChainEntry| continues(e, word)),
{
    let ghost all = records(edges@);
    let ghost wanted = |e: ChainEntry| continues(e, word);
    let mut next: Vec<&'a ChainEntry> = Vec::new();
    let mut i: usize = 0;
    while i < edges.len()
        invariant
            i <= edges.len(),
            all == records(edges@),
            wanted == (|e: ChainEntry| continues(e, word)),
            records(next@) == all.take(i as int).filter(wanted),
        decreases edges.len() - i,
    {
        let edge = edges[i];
        proof {
            assert(all.take(i + 1).drop_last() == all.take(i as int));
            reveal(Seq::filter);
        }
        if edge.prefix.words[0] == word {
            next.push(edge);
        }
        i += 1;
    }
    proof {
        assert(all.take(i as int) == all);
    }
    next
}

/// The words that a walk has buffered after it visited the records at the
/// positions `path` of the pool: their prefix words, in order.
pub open spec fn walk_buffer(pool: Seq<ChainEntry>, path: Seq<int>) -> Seq<u32>
    decreases path.len(),
{
    if path.len() == 0 {
        Seq::empty()
    } else {
        walk_buffer(pool, path.drop_last()) + pool[path.last()].prefix.words@
    }
}

/// Whether the walk goes on from its record number `k` to the next: the step
/// after that record is `Walking`, and the next record continues it.
pub open spec fn walks_on(
    pool: Seq<ChainEntry>,
    path: Seq<int>,
    k: int,
    min_words: int,
    max_words: int,
) -> bool {
    &&& step_after(2 * (k + 1), pool[path[k]], min_words, max_words) == WalkStep::Walking
    &&& continues(pool[path[k + 1]], pool[path[k]].suffix.spec_word_idx())
}

/// Whether `path` is a walk over the pool: it visits at least one record,
/// every position lies in the pool, and the walk goes on from each record
/// but the last to the next.
pub open spec fn is_walk(
    pool: Seq<ChainEntry>,
    path: Seq<int>,
    min_words: int,
    max_words: int,
) -> bool {
    &&& path.len() > 0
    &&& forall|k: int| 0 <= k < path.len() ==> 0 <= #[trigger] path[k] < pool.len()
    &&& forall|k: int|
        0 <= k < path.len() - 1 ==> #[trigger] walks_on(pool, path, k, min_words, max_words)
}

/// Whether `path` is a walk that succeeds with its last record.
pub open spec fn successful_walk(
    pool: Seq<ChainEntry>,
    path: Seq<int>,
    min_words: int,
    max_words: int,
) -> bool {
    &&& is_walk(pool, path, min_words, max_words)
    &&& step_after(2 * (path.len() as int), pool[path.last()], min_words, max_words)
        == WalkStep::Succeeded
}

/// The word ids of a successful walk: the buffered prefix words, then the
/// suffix word of the last record.
pub open spec fn walk_output(pool: Seq<ChainEntry>, path: Seq<int>) -> Seq<u32> {
    walk_buffer(pool, path).push(pool[path.last()].suffix.spec_word_idx())
}

/// Whether a walk that has visited `path` is given up there: its buffer is
/// full, or it should go on and no record of the pool continues it.
pub open spec fn given_up(
    pool: Seq<ChainEntry>,
    path: Seq<int>,
    min_words: int,
    max_words: int,
) -> bool {
    match step_after(2 * (path.len() as int), pool[path.last()], min_words, max_words) {
        WalkStep::Succeeded => false,
        WalkStep::Abandoned => true,
        WalkStep::Walking => forall|j: int|
            0 <= j < pool.len() ==> !continues(
                #[trigger] pool[j],
                pool[path.last()].suffix.spec_word_idx(),
            ),
    }
}

/// Whether every walk over the pool succeeds: the pool holds a record, and
/// no walk is given up.
pub open spec fn every_walk_succeeds(
    pool: Seq<ChainEntry>,
    min_words: int,
    max_words: int,
) -> bool {
    &&& pool.len() > 0
    &&& forall|path: Seq<int>| #[trigger]
        is_walk(pool, path, min_words, max_words) ==> !given_up(
            pool,
            path,
            min_words,
            max_words,
        )
}

/// What holds of the ids that generation returns for a pool, whatever is
/// drawn: they are the output of a successful walk over the pool, so there
/// are more of them than `min_words`, and a pool without a successful walk
/// gives nothing, as an empty pool does; a pool whose every walk succeeds
/// gives something.
pub open spec fn generated_ids(
    pool: Seq<ChainEntry>,
    min_words: int,
    max_words: int,
    ids: Option<Seq<u32>>,
) -> bool {
    &&& ids.is_some() ==> exists|path: Seq<int>|
        successful_walk(pool, path, min_words, max_words) && ids.unwrap() == #[trigger] walk_output(
            pool,
            path,
        )
    &&& ids.is_some() ==> ids.unwrap().len() > min_words
    &&& pool.len() == 0 ==> ids.is_none()
    &&& every_walk_succeeds(pool, min_words, max_words) ==> ids.is_some()
}

/// Where two words are enough and every record of the pool is terminal,
/// every walk succeeds with its first record.
pub proof fn lemma_terminal_pool_succeeds(pool: Seq<ChainEntry>, min_words: int, max_words: int)
    requires
        pool.len() > 0,
        min_words <= 2,
        forall|i: int| 0 <= i < pool.len() ==> (#[trigger] pool[i]).suffix.spec_is_terminal(),
    ensures
        every_walk_succeeds(pool, min_words, max_words),
{
    assert forall|path: Seq<int>| #[trigger]
        is_walk(pool, path, min_words, max_words) implies !given_up(
        pool,
        path,
        min_words,
        max_words,
    ) by {}
}

/// A walk buffers two words for each record it visits.
pub proof fn lemma_walk_buffer_len(pool: Seq<ChainEntry>, path: Seq<int>)
    ensures
        walk_buffer(pool, path).len() == 2 * path.len(),
    decreases path.len(),
{
    if path.len() > 0 {
        lemma_walk_buffer_len(pool, path.drop_last());
    }
}

/// Generation bounds. A successful walk yields more ids than `min_words`:
/// two for each record and one for the last suffix. While it went on, its
/// buffer was below `max_words`, so it yields at most two ids more than
/// `max_words` unless it has one record only.
pub proof fn lemma_walk_bounds(
    pool: Seq<ChainEntry>,
    path: Seq<int>,
    min_words: int,
    max_words: int,
)
    requires
        successful_walk(pool, path, min_words, max_words),
    ensures
        walk_output(pool, path).len() == 2 * path.len() + 1,
        walk_output(pool, path).len() > min_words,
        path.len() > 1 ==> 2 * (path.len() - 1) < max_words,
        path.len() == 1 || walk_output(pool, path).len() <= max_words + 2,
        pool[path.last()].suffix.spec_is_terminal(),
{
    lemma_walk_buffer_len(pool, path);
    if path.len() > 1 {
        assert(walks_on(pool, path, path.len() - 2, min_words, max_words));
    }
}

/// Ids that all resolve give as many words as there are ids.
pub proof fn lemma_known_words_len(vocab: Seq<Seq<char>>, ids: Seq<u32>)
    ensures
        known_words(vocab, ids).len() <= ids.len(),
        (forall|i: int| 0 <= i < ids.len() ==> (#[trigger] ids[i]) < vocab.len())
            ==> known_words(vocab, ids).len() == ids.len(),
    decreases ids.len(),
{
    if ids.len() > 0 {
        lemma_known_words_len(vocab, ids.drop_last());
        if forall|i: int| 0 <= i < ids.len() ==> (#[trigger] ids[i]) < vocab.len() {
            assert forall|i: int| 0 <= i < ids.drop_last().len() implies (
            #[trigger] ids.drop_last()[i]) < vocab.len() by {}
        }
    }
}

/// Tries up to `MAX_TRIES` walks over the pool, each from a record drawn at
/// random and continued by records drawn at random among those that continue
/// it, and returns the word ids of the first walk that succeeds.
pub fn generate_sequence(
    rng: &mut SmallRng,
    edges: &[&ChainEntry],
    min_words: usize,
    max_words: usize,
) -> (r: Option<Vec<u32>>)
    ensures
        generated_ids(
            records(edges@),
            min_words as int,
            max_words as int,
            match r {
                Some(ids) => Some(ids@),
                None => None,
            },
        ),
{
    let ghost pool = records(edges@);
    let mut tries: usize = 0;
    let mut generated: Vec<u32> = Vec::new();
    while tries < MAX_TRIES
        invariant
            pool == records(edges@),
            generated@.len() == 0,
            tries > 0 ==> !every_walk_succeeds(pool, min_words as int, max_words as int),
        decreases MAX_TRIES - tries,
    {
        let mut edge: &ChainEntry = match choose_one(edges, rng) {
            Some(first) => *first,
            None => {
                return None;
            },
        };
        let ghost mut path: Seq<int> = seq![pool.index_of(*edge)];
        proof {
            let i = edges@.index_of(edge);
            assert(pool[i] == *edge);
        }
        loop
            invariant_except_break
                is_walk(pool, path, min_words as int, max_words as int),
                generated@ == walk_buffer(pool, path.drop_last()),
                *edge == pool[path.last()],
                generated@.len() <= max_words,
            invariant
                pool == records(edges@),
                tries < MAX_TRIES,
                tries > 0 ==> !every_walk_succeeds(pool, min_words as int, max_words as int),
            ensures
                !every_walk_succeeds(pool, min_words as int, max_words as int),
            decreases max_words - generated@.len(),
        {
            proof {
                lemma_walk_buffer_len(pool, path.drop_last());
            }
            let step = walk_step(&mut generated, edge, min_words, max_words);
            match step {
                WalkStep::Succeeded => {
                    assert(generated@ == walk_output(pool, path));
                    return Some(generated);
                },
                WalkStep::Abandoned => {
                    break ;
                },
                WalkStep::Walking => {
                    let word = edge.suffix.word_idx();
                    let next = next_edges(edges, word);
                    match choose_one(next.as_slice(), rng) {
                        Some(chosen) => {
                            proof {
                                let wanted = |e: ChainEntry| continues(e, word);
                                let j = next@.index_of(chosen);
                                assert(records(next@)[j] == **chosen);
                                pool.lemma_filter_contains_rev(wanted, **chosen);
                                let at = pool.index_of(**chosen);
                                let longer = path.push(at);
                                assert(longer.drop_last() =~= path);
                                assert forall|k: int| 0 <= k < longer.len() - 1 implies walks_on(
                                    pool,
                                    longer,
                                    k,
                                    min_words as int,
                                    max_words as int,
                                ) by {
                                    if k < path.len() - 1 {
                                        assert(walks_on(
                                            pool,
                                            path,
                                            k,
                                            min_words as int,
                                            max_words as int,
                                        ));
                                    }
                                }
                                path = longer;
                            }
                            edge = *chosen;
                        },
                        None => {
                            proof {
                                let wanted = |e: ChainEntry| continues(e, word);
                                assert forall|j: int| 0 <= j < pool.len() implies !continues(
                                    #[trigger] pool[j],
                                    word,
                                ) by {
                                    if continues(pool[j], word) {
                                        pool.lemma_filter_contains(wanted, j);
                                    }
                                }
                            }
                            break ;
                        },
                    }
                },
            }
        }
        generated.clear();
        tries += 1;
    }
    None
}

/// The words behind those ids of a sequence that resolve, in order.
pub open spec fn known_words(vocab: Seq<Seq<char>>, ids: Seq<u32>) -> Seq<Seq<char>>
    decreases ids.len(),
{
    if ids.len() == 0 {
        Seq::empty()
    } else {
        let before = known_words(vocab, ids.drop_last());
        match resolved(vocab, ids.last() as int) {
            Some(word) => before.push(word),
            None => before,
        }
    }
}

/// The words joined by single spaces.
pub open spec fn joined(words: Seq<Seq<char>>) -> Seq<char>
    decreases words.len(),
{
    if words.len() == 0 {
        Seq::empty()
    } else if words.len() == 1 {
        words[0]
    } else {
        joined(words.drop_last()) + seq![' '] + words.last()
    }
}

/// Resolves a sequence of word ids to text: ids that do not resolve are left
/// out, and the words are joined by single spaces.
pub fn seq_to_text(seq: Vec<u32>, words: &IndexSet<String>) -> (text: String)
    ensures
        text@ == joined(known_words(set_items(*words), seq@)),
{
    let ghost vocab = set_items(*words);
    let mut text = String::new();
    let mut any = false;
    let mut i: usize = 0;
    while i < seq.len()
        invariant
            i <= seq.len(),
            vocab == set_items(*words),
            any == (known_words(vocab, seq@.take(i as int)).len() > 0),
            text@ == joined(known_words(vocab, seq@.take(i as int))),
        decreases seq.len() - i,
    {
        proof {
            assert(seq@.take(i + 1).drop_last() == seq@.take(i as int));
        }
        let ghost before = known_words(vocab, seq@.take(i as int));
        match resolve(words, seq[i]) {
            Some(word) => {
                proof {
                    assert(before.push(word@).drop_last() =~= before);
                }
                if any {
                    proof {
                        reveal_strlit(" ");
                    }
                    text.append(" ");
                }
                text.append(word.as_str());
                any = true;
            },
            None => {},
        }
        i += 1;
    }
    proof {
        assert(seq@.take(i as int) == seq@);
    }
    text
}

/// What a sequence of referenced sources holds.
pub open spec fn chosen_views(sources: Seq<&TextSource>) -> Seq<SourceView> {
    sources.map_values(|s: &TextSource| s@)
}

/// The records of all the sources, source after source.
pub open spec fn pooled(sources: Seq<SourceView>) -> Seq<ChainEntry>
    decreases sources.len(),
{
    if sources.len() == 0 {
        Seq::empty()
    } else {
        pooled(sources.drop_last()) + sources.last().entries
    }
}

/// Whether a record is dated within the range, both ends included; without a
/// range every record is.
pub open spec fn dated_within(entry: ChainEntry, range: Option<(Datestamp, Datestamp)>) -> bool {
    match range {
        Some((first, last)) => entry.datestamp.spec_within(first, last),
        None => true,
    }
}

/// The records that generation draws from: those of all the sources that are
/// dated within the range, in order.
pub open spec fn eligible(
    sources: Seq<SourceView>,
    range: Option<(Datestamp, Datestamp)>,
) -> Seq<ChainEntry> {
    pooled(sources).filter(|e: ChainEntry| dated_within(e, range))
}

/// Date filter. A range that holds the date of no record leaves nothing to
/// draw from; a range that holds the date of every record leaves the same
/// records as no range.
pub proof fn lemma_date_filter(sources: Seq<SourceView>, range: (Datestamp, Datestamp))
    ensures
        (forall|i: int|
            0 <= i < pooled(sources).len() ==> !(#[trigger] pooled(
                sources,
            )[i]).datestamp.spec_within(range.0, range.1)) ==> eligible(sources, Some(range)).len()
            == 0,
        (forall|i: int|
            0 <= i < pooled(sources).len() ==> (#[trigger] pooled(
                sources,
            )[i]).datestamp.spec_within(range.0, range.1)) ==> eligible(sources, Some(range))
            == eligible(sources, None),
        eligible(sources, None) == pooled(sources),
{
    let pool = pooled(sources);
    let dated = |e: ChainEntry| dated_within(e, Some(range));
    let any = |e: ChainEntry| dated_within(e, None);
    lemma_filter_all_or_none(pool, dated);
    lemma_filter_all_or_none(pool, any);
}

/// A filter that every item passes keeps the sequence; one that no item
/// passes leaves nothing.
proof fn lemma_filter_all_or_none(items: Seq<ChainEntry>, wanted: spec_fn(ChainEntry) -> bool)
    ensures
        (forall|i: int| 0 <= i < items.len() ==> wanted(#[trigger] items[i])) ==> items.filter(
            wanted,
        ) == items,
        (forall|i: int| 0 <= i < items.len() ==> !wanted(#[trigger] items[i])) ==> items.filter(
            wanted,
        ).len() == 0,
    decreases items.len(),
{
    reveal(Seq::filter);
    if items.len() > 0 {
        lemma_filter_all_or_none(items.drop_last(), wanted);
        if forall|i: int| 0 <= i < items.len() ==> wanted(#[trigger] items[i]) {
            assert forall|i: int| 0 <= i < items.drop_last().len() implies wanted(
                #[trigger] items.drop_last()[i],
            ) by {}
        }
        if forall|i: int| 0 <= i < items.len() ==> !wanted(#[trigger] items[i]) {
            assert forall|i: int| 0 <= i < items.drop_last().len() implies !wanted(
                #[trigger] items.drop_last()[i],
            ) by {}
        }
    }
}

/// Collects references to the records of the sources that are dated within
/// the range.
pub fn collect_edges<'a>(
    sources: &[&'a TextSource],
    date_range: Option<(Datestamp, Datestamp)>,
) -> (edges: Vec<&'a ChainEntry>)
    ensures
        records(edges@) == eligible(chosen_views(sources@), date_range),
{
    let ghost views = chosen_views(sources@);
    let ghost wanted = |e: ChainEntry| dated_within(e, date_range);
    let mut edges: Vec<&'a ChainEntry> = Vec::new();
    let mut i: usize = 0;
    assert(Seq::<ChainEntry>::empty().filter(wanted) =~= Seq::empty());
    while i < sources.len()
        invariant
            i <= sources.len(),
            views == chosen_views(sources@),
            wanted == (|e: ChainEntry| dated_within(e, date_range)),
            records(edges@) == pooled(views.take(i as int)).filter(wanted),
        decreases sources.len() - i,
    {
        let source: &'a TextSource = sources[i];
        let ghost done = pooled(views.take(i as int));
        let ghost entries = source.entries@;
        let mut j: usize = 0;
        proof {
            assert(views.take(i + 1).drop_last() == views.take(i as int));
        }
        while j < source.entries.len()
            invariant
                j <= source.entries.len(),
                entries == source.entries@,
                wanted == (|e: ChainEntry| dated_within(e, date_range)),
                records(edges@) == (done + entries.take(j as int)).filter(wanted),
            decreases source.entries.len() - j,
        {
            let entry = &source.entries[j];
            let keep = match date_range {
                Some((first, last)) => entry.datestamp.within(&first, &last),
                None => true,
            };
            proof {
                let longer = done + entries.take(j + 1);
                assert(longer.drop_last() =~= done + entries.take(j as int));
                reveal(Seq::filter);
            }
            if keep {
                edges.push(entry);
            }
            j += 1;
        }
        proof {
            assert(entries.take(j as int) == entries);
        }
        i += 1;
    }
    proof {
        assert(views.take(i as int) == views);
    }
    edges
}

/// What holds of the text that generation returns for a vocabulary and a
/// pool, whatever is drawn: it is the output of a successful walk over the
/// pool, resolved and joined, so a pool without a successful walk gives
/// nothing, as an empty pool does; a pool whose every walk succeeds gives
/// something.
pub open spec fn generated_text(
    vocab: Seq<Seq<char>>,
    pool: Seq<ChainEntry>,
    min_words: int,
    max_words: int,
    text: Option<Seq<char>>,
) -> bool {
    &&& text.is_some() ==> exists|path: Seq<int>|
        successful_walk(pool, path, min_words, max_words) && text.unwrap() == joined(
            known_words(vocab, #[trigger] walk_output(pool, path)),
        )
    &&& pool.len() == 0 ==> text.is_none()
    &&& every_walk_succeeds(pool, min_words, max_words) ==> text.is_some()
}

/// The text of an optional string.
pub open spec fn text_of(text: Option<String>) -> Option<Seq<char>> {
    match text {
        Some(s) => Some(s@),
        None => None,
    }
}

/// Generates text from the records of `edges` with the words of `words`.
pub fn generate_from_edges(
    words: &IndexSet<String>,
    rng: &mut SmallRng,
    edges: &[&ChainEntry],
    min_words: usize,
    max_words: usize,
) -> (r: Option<String>)
    ensures
        generated_text(
            set_items(*words),
            records(edges@),
            min_words as int,
            max_words as int,
            text_of(r),
        ),
{
    if edges.len() > 0 {
        match generate_sequence(rng, edges, min_words, max_words) {
            Some(ids) => Some(seq_to_text(ids, words)),
            None => None,
        }
    } else {
        None
    }
}

/// Generation of text from chosen sources of a model.
pub trait ChainGenerate {
    /// The interned words; a word's id is its position.
    spec fn vocabulary(&self) -> Seq<Seq<char>>;

    /// Generates text from all the records of `sources`: between the bounds
    /// a walk succeeds with a terminal record once it holds `min_words`
    /// words, and is given up once it holds `max_words`.
    fn generate(
        &self,
        rng: &mut SmallRng,
        sources: &[&TextSource],
        min_words: usize,
        max_words: usize,
    ) -> (r: Option<String>)
        ensures
            generated_text(
                self.vocabulary(),
                eligible(chosen_views(sources@), None),
                min_words as int,
                max_words as int,
                text_of(r),
            ),
    ;

    /// Generates text from the records of `sources` that are dated within
    /// `date_range`, both ends included.
    fn generate_in_date_range(
        &self,
        rng: &mut SmallRng,
        sources: &[&TextSource],
        date_range: (Datestamp, Datestamp),
        min_words: usize,
        max_words: usize,
    ) -> (r: Option<String>)
        ensures
            generated_text(
                self.vocabulary(),
                eligible(chosen_views(sources@), Some(date_range)),
                min_words as int,
                max_words as int,
                text_of(r),
            ),
    ;
}

impl ChainGenerate for MarkovChain {
    open spec fn vocabulary(&self) -> Seq<Seq<char>> {
        self@.words
    }

    fn generate(
        &self,
        rng: &mut SmallRng,
        sources: &[&TextSource],
        min_words: usize,
        max_words: usize,
    ) -> (r: Option<String>) {
        let edges = collect_edges(sources, None);
        generate_from_edges(&self.words, rng, edges.as_slice(), min_words, max_words)
    }

    fn generate_in_date_range(
        &self,
        rng: &mut SmallRng,
        sources: &[&TextSource],
        date_range: (Datestamp, Datestamp),
        min_words: usize,
        max_words: usize,
    ) -> (r: Option<String>) {
        let edges = collect_edges(sources, Some(date_range));
        generate_from_edges(&self.words, rng, edges.as_slice(), min_words, max_words)
    }
}

} // verus!
