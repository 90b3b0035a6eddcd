//! The chain's data model: datestamps, packed suffixes, prefixes and records.

use crate::vocabulary::{set_items, set_new};
use indexmap::IndexSet;
use vstd::prelude::*;
use vstd::string::StringExecFns;

verus! {

/// Number of words that condition a transition: the chain is a bigram model.
pub const NGRAM_CNT: usize = 2;

/// Bits of a packed suffix that hold the word id.
pub const WORD_IDX_MASK: u32 = 0x7fff_ffff;

/// Bit of a packed suffix that holds the terminal flag.
pub const TERMINAL_BIT: u32 = 0x8000_0000;

/// A calendar position: a year and the ordinal day within it.
#[derive(Debug, Clone, Copy, PartialEq, PartialOrd)]
pub struct Datestamp {
    pub year: i16,
    pub day: u16,
}

impl Datestamp {
    /// Lexicographic order on `(year, day)`: `self` is not after `other`.
    pub open spec fn spec_le(self, other: Datestamp) -> bool {
        self.year < other.year || (self.year == other.year && self.day <= other.day)
    }

    /// Whether `self` lies in the inclusive range from `first` to `last`.
    pub open spec fn spec_within(self, first: Datestamp, last: Datestamp) -> bool {
        first.spec_le(self) && self.spec_le(last)
    }

    /// Compares two datestamps by year, then by day.
    pub fn le(&self, other: &Datestamp) -> (b: bool)
        ensures
            b == self.spec_le(*other),
    {
        self.year < other.year || (self.year == other.year && self.day <= other.day)
    }

    /// Tests membership in an inclusive range of datestamps.
    pub fn within(&self, first: &Datestamp, last: &Datestamp) -> (b: bool)
        ensures
            b == self.spec_within(*first, *last),
    {
        first.le(self) && self.le(last)
    }
}

impl Default for Datestamp {
    fn default() -> (d: Datestamp)
        ensures
            d == (Datestamp { year: 0, day: 0 }),
    {
        Datestamp { year: 0, day: 0 }
    }
}

/// A word id and a terminal flag packed into 32 bits, the flag in the high bit.
#[derive(Debug, Clone, Copy, PartialEq)]
pub struct ChainSuffix(u32);

impl ChainSuffix {
    /// The suffix that holds the low 31 bits of `word_idx` and the flag `terminal`.
    pub closed spec fn pack(word_idx: u32, terminal: bool) -> ChainSuffix {
        if terminal {
            ChainSuffix((word_idx & WORD_IDX_MASK) | TERMINAL_BIT)
        } else {
            ChainSuffix(word_idx & WORD_IDX_MASK)
        }
    }

    /// The word id held by the suffix.
    pub closed spec fn spec_word_idx(self) -> u32 {
        self.0 & WORD_IDX_MASK
    }

    /// The terminal flag held by the suffix.
    pub closed spec fn spec_is_terminal(self) -> bool {
        self.0 & TERMINAL_BIT != 0
    }

    /// A terminal suffix for `word_idx`, of which only the low 31 bits are kept.
    pub fn terminal(word_idx: u32) -> (s: ChainSuffix)
        ensures
            s == ChainSuffix::pack(word_idx, true),
            s.spec_is_terminal(),
            s.spec_word_idx() == word_idx % 0x8000_0000,
    {
        proof {
            lemma_pack_fields(word_idx, true);
        }
        let word_idx_31: u32 = word_idx & WORD_IDX_MASK;
        ChainSuffix(word_idx_31 | TERMINAL_BIT)
    }

    /// A non-terminal suffix for `word_idx`, of which only the low 31 bits are kept.
    pub fn nonterminal(word_idx: u32) -> (s: ChainSuffix)
        ensures
            s == ChainSuffix::pack(word_idx, false),
            !s.spec_is_terminal(),
            s.spec_word_idx() == word_idx % 0x8000_0000,
    {
        proof {
            lemma_pack_fields(word_idx, false);
        }
        let word_idx_31: u32 = word_idx & WORD_IDX_MASK;
        ChainSuffix(word_idx_31)
    }

    /// The word id, below 2^31.
    pub fn word_idx(&self) -> (w: u32)
        ensures
            w == self.spec_word_idx(),
            w < 0x8000_0000,
    {
        let bits: u32 = self.0;
        assert(bits & 0x7fff_ffff < 0x8000_0000) by (bit_vector);
        self.0 & WORD_IDX_MASK
    }

    /// The terminal flag.
    pub fn is_terminal(&self) -> (t: bool)
        ensures
            t == self.spec_is_terminal(),
    {
        (self.0 & TERMINAL_BIT) > 0
    }
}

/// The character of a decimal digit.
pub open spec fn digit(d: nat) -> char {
    (48 + d) as char
}

/// The decimal digits of a number, without leading zeros.
pub open spec fn decimal(n: nat) -> Seq<char>
    decreases n,
{
    if n < 10 {
        seq![digit(n)]
    } else {
        decimal(n / 10).push(digit(n % 10))
    }
}

/// Appends the decimal digits of `n` to `text`.
pub fn push_decimal(text: &mut String, n: u32)
    ensures
        final(text)@ == old(text)@ + decimal(n as nat),
    decreases n,
{
    if n >= 10 {
        push_decimal(text, n / 10);
    }
    let d: u8 = (n % 10) as u8;
    text.push((48 + d) as char);
}

impl ChainSuffix {
    /// The suffix as text: `Terminal(id)` or `NonTerminal(id)`.
    pub open spec fn spec_describe(self) -> Seq<char> {
        if self.spec_is_terminal() {
            "Terminal("@ + decimal(self.spec_word_idx() as nat) + ")"@
        } else {
            "NonTerminal("@ + decimal(self.spec_word_idx() as nat) + ")"@
        }
    }

    /// Writes the suffix as `Terminal(id)` or `NonTerminal(id)`.
    pub fn describe(&self) -> (text: String)
        ensures
            text@ == self.spec_describe(),
    {
        let mut text = if self.is_terminal() {
            String::from_str("Terminal(")
        } else {
            String::from_str("NonTerminal(")
        };
        push_decimal(&mut text, self.word_idx());
        text.append(")");
        text
    }
}

/// The words that condition a transition, with a flag that tells whether the
/// record opens a sentence.
#[derive(Debug, Clone, Copy, PartialEq)]
pub struct ChainPrefix {
    pub words: [u32; NGRAM_CNT],
    pub starting: bool,
}

impl ChainPrefix {
    /// A prefix that opens a sentence.
    pub fn starting(words: [u32; NGRAM_CNT]) -> (p: ChainPrefix)
        ensures
            p == (ChainPrefix { words, starting: true }),
    {
        ChainPrefix { words, starting: true }
    }

    /// A prefix inside a sentence.
    pub fn nonstarting(words: [u32; NGRAM_CNT]) -> (p: ChainPrefix)
        ensures
            p == (ChainPrefix { words, starting: false }),
    {
        ChainPrefix { words, starting: false }
    }
}

/// One observed transition: the prefix words, the word that followed them,
/// and the date of the text it was seen in.
#[derive(Debug, Clone, Copy, PartialEq)]
pub struct ChainEntry {
    pub prefix: ChainPrefix,
    pub suffix: ChainSuffix,
    pub datestamp: Datestamp,
}

/// The transitions of one author or corpus, known under one or more names.
#[derive(Debug)]
pub struct TextSource {
    pub names: IndexSet<String>,
    pub entries: Vec<ChainEntry>,
}

/// What a source holds: its names in insertion order and its records.
pub struct SourceView {
    pub names: Seq<Seq<char>>,
    pub entries: Seq<ChainEntry>,
}

impl View for TextSource {
    type V = SourceView;

    open spec fn view(&self) -> SourceView {
        SourceView { names: set_items(self.names), entries: self.entries@ }
    }
}

impl Default for TextSource {
    fn default() -> (source: TextSource)
        ensures
            source@ == (SourceView { names: Seq::empty(), entries: Seq::empty() }),
    {
        TextSource { names: set_new(), entries: Vec::new() }
    }
}

/// The model: the vocabulary and the sources whose records refer to it.
#[derive(Debug)]
pub struct MarkovChain {
    pub words: IndexSet<String>,
    pub sources: Vec<TextSource>,
}

/// What a model holds: the vocabulary, in which a word's id is its position,
/// and the sources in order.
pub struct ChainView {
    pub words: Seq<Seq<char>>,
    pub sources: Seq<SourceView>,
}

impl ChainView {
    /// The model without words or sources.
    pub open spec fn empty() -> ChainView {
        ChainView { words: Seq::empty(), sources: Seq::empty() }
    }

    /// The vocabulary holds no word twice.
    pub open spec fn distinct(self) -> bool {
        self.words.no_duplicates()
    }

    /// The vocabulary does not hold the empty word.
    pub open spec fn no_empty_word(self) -> bool {
        forall|i: int| 0 <= i < self.words.len() ==> (#[trigger] self.words[i]).len() > 0
    }
}

/// What a sequence of sources holds.
pub open spec fn source_views(sources: Seq<TextSource>) -> Seq<SourceView> {
    sources.map_values(|s: TextSource| s@)
}

impl View for MarkovChain {
    type V = ChainView;

    open spec fn view(&self) -> ChainView {
        ChainView { words: set_items(self.words), sources: source_views(self.sources@) }
    }
}

impl MarkovChain {
    /// An empty model.
    pub fn new() -> (chain: MarkovChain)
        ensures
            chain@ == ChainView::empty(),
    {
        let chain = MarkovChain { words: set_new(), sources: Vec::new() };
        assert(chain@.sources =~= Seq::empty());
        chain
    }
}

impl Default for MarkovChain {
    fn default() -> (chain: MarkovChain)
        ensures
            chain@ == ChainView::empty(),
    {
        MarkovChain::new()
    }
}

/// Packing keeps the flag and the word id modulo 2^31.
pub proof fn lemma_pack_fields(word_idx: u32, terminal: bool)
    ensures
        ChainSuffix::pack(word_idx, terminal).spec_is_terminal() == terminal,
        ChainSuffix::pack(word_idx, terminal).spec_word_idx() == word_idx % 0x8000_0000,
        ChainSuffix::pack(word_idx, terminal).spec_word_idx() < 0x8000_0000,
        word_idx < 0x8000_0000 ==> ChainSuffix::pack(word_idx, terminal).spec_word_idx()
            == word_idx,
{
    assert(((word_idx & 0x7fff_ffff) | 0x8000_0000) & 0x8000_0000 != 0) by (bit_vector);
    assert((word_idx & 0x7fff_ffff) & 0x8000_0000 == 0) by (bit_vector);
    assert(((word_idx & 0x7fff_ffff) | 0x8000_0000) & 0x7fff_ffff == word_idx % 0x8000_0000)
        by (bit_vector);
    assert((word_idx & 0x7fff_ffff) & 0x7fff_ffff == word_idx % 0x8000_0000) by (bit_vector);
}

/// A suffix is determined by its word id and its flag.
pub proof fn lemma_suffix_is_its_fields(s: ChainSuffix)
    ensures
        s == ChainSuffix::pack(s.spec_word_idx(), s.spec_is_terminal()),
{
    let bits: u32 = s.0;
    assert(bits & 0x8000_0000 != 0 ==> ((bits & 0x7fff_ffff) & 0x7fff_ffff) | 0x8000_0000 == bits)
        by (bit_vector);
    assert(!(bits & 0x8000_0000 != 0) ==> (bits & 0x7fff_ffff) & 0x7fff_ffff == bits)
        by (bit_vector);
}

} // verus!
