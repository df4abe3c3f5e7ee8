//! Core data model: datestamps and bit-packed bigram transition entries.
//!
//! A word is identified by a dense index into the owning chain's vocabulary.
//! Indices fit in 31 bits; the top bit of a packed field carries a sentence
//! flag (sentence-start for a prefix, sentence-terminal for a suffix).

use vstd::prelude::*;
use crate::vocab::Vocabulary;

verus! {

/// Number of words in a prefix context: this is a bigram model.
pub const NGRAM_CNT: usize = 2;

/// Word indices are confined to 31 bits so a flag can share their field.
pub const WORD_IDX_LIMIT: u32 = 0x7FFF_FFFF;

/// A calendar day: (year, day-of-year), ordered lexicographically.
#[derive(Default, Debug, Clone, Copy, PartialEq, Eq, Structural)]
pub struct Datestamp {
    pub year: i16,
    pub day: u16,
}

impl Datestamp {
    /// Lexicographic order: by year, then by day of year.
    pub open spec fn spec_le(self, other: Datestamp) -> bool {
        self.year < other.year || (self.year == other.year && self.day <= other.day)
    }

    pub open spec fn spec_lt(self, other: Datestamp) -> bool {
        self.year < other.year || (self.year == other.year && self.day < other.day)
    }

    pub fn le(self, other: Datestamp) -> (r: bool)
        ensures
            r == self.spec_le(other),
    {
        self.year < other.year || (self.year == other.year && self.day <= other.day)
    }

    pub fn lt(self, other: Datestamp) -> (r: bool)
        ensures
            r == self.spec_lt(other),
    {
        self.year < other.year || (self.year == other.year && self.day < other.day)
    }
}

/// The low 31 bits of a packed field: the word index.
pub open spec fn packed_idx(x: u32) -> u32 {
    x & 0x7FFF_FFFFu32
}

/// The top bit of a packed field: the sentence flag.
pub open spec fn packed_flag(x: u32) -> bool {
    x & 0x8000_0000u32 != 0
}

/// Packs a word index and a flag into one 32-bit field.
pub open spec fn pack(idx: u32, flag: bool) -> u32 {
    (idx & 0x7FFF_FFFFu32) | if flag { 0x8000_0000u32 } else { 0u32 }
}

/// Packing is lossless for indices below `WORD_IDX_LIMIT + 1` (31 bits).
pub proof fn lemma_pack_unpack(idx: u32, flag: bool)
    ensures
        packed_flag(pack(idx, flag)) == flag,
        packed_idx(pack(idx, flag)) == idx & 0x7FFF_FFFFu32,
        idx <= WORD_IDX_LIMIT ==> packed_idx(pack(idx, flag)) == idx,
        packed_idx(pack(idx, flag)) <= WORD_IDX_LIMIT,
{
    assert((((idx & 0x7FFF_FFFFu32) | 0x8000_0000u32) & 0x8000_0000u32) != 0) by (bit_vector);
    assert((((idx & 0x7FFF_FFFFu32) | 0u32) & 0x8000_0000u32) == 0) by (bit_vector);
    assert((((idx & 0x7FFF_FFFFu32) | 0x8000_0000u32) & 0x7FFF_FFFFu32) == (idx
        & 0x7FFF_FFFFu32)) by (bit_vector);
    assert((((idx & 0x7FFF_FFFFu32) | 0u32) & 0x7FFF_FFFFu32) == (idx & 0x7FFF_FFFFu32))
        by (bit_vector);
    assert(idx <= 0x7FFF_FFFFu32 ==> (idx & 0x7FFF_FFFFu32) == idx) by (bit_vector);
    assert((idx & 0x7FFF_FFFFu32) <= 0x7FFF_FFFFu32) by (bit_vector);
}

/// A bigram context: two word indices, the first sharing its field with the
/// sentence-start flag.
#[derive(Debug, Clone, Copy, PartialEq, Eq)]
pub struct ChainPrefix([u32; NGRAM_CNT]);

impl ChainPrefix {
    /// First word index of the context.
    pub closed spec fn spec_idx0(self) -> u32 {
        packed_idx(self.0[0])
    }

    /// Second word index of the context.
    pub closed spec fn spec_idx1(self) -> u32 {
        self.0[1]
    }

    /// Whether this context begins a sentence.
    pub closed spec fn spec_starting(self) -> bool {
        packed_flag(self.0[0])
    }

    pub fn new(word_idxs: [u32; NGRAM_CNT], starting: bool) -> (r: Self)
        ensures
            r == Self::spec_make(word_idxs[0], word_idxs[1], starting),
            r.spec_idx0() == word_idxs[0] & 0x7FFF_FFFFu32,
            word_idxs[0] <= WORD_IDX_LIMIT ==> r.spec_idx0() == word_idxs[0],
            r.spec_idx1() == word_idxs[1],
            r.spec_starting() == starting,
            r.spec_idx0() <= WORD_IDX_LIMIT,
    {
        proof {
            lemma_pack_unpack(word_idxs[0], starting);
        }
        let word_idx0_31 = word_idxs[0] & 0x7FFF_FFFF;
        let flag_bit: u32 = if starting {
            0x8000_0000
        } else {
            0
        };
        ChainPrefix([word_idx0_31 | flag_bit, word_idxs[1]])
    }

    pub fn starting(word_idxs: [u32; NGRAM_CNT]) -> (r: Self)
        ensures
            r == Self::spec_make(word_idxs[0], word_idxs[1], true),
            r.spec_starting(),
            word_idxs[0] <= WORD_IDX_LIMIT ==> r.spec_idx0() == word_idxs[0],
            r.spec_idx1() == word_idxs[1],
    {
        Self::new(word_idxs, true)
    }

    pub fn nonstarting(word_idxs: [u32; NGRAM_CNT]) -> (r: Self)
        ensures
            r == Self::spec_make(word_idxs[0], word_idxs[1], false),
            !r.spec_starting(),
            word_idxs[0] <= WORD_IDX_LIMIT ==> r.spec_idx0() == word_idxs[0],
            r.spec_idx1() == word_idxs[1],
    {
        Self::new(word_idxs, false)
    }

    /// The packed value a call of `new` builds, as a spec-level constructor.
    pub closed spec fn spec_make(idx0: u32, idx1: u32, starting: bool) -> Self {
        ChainPrefix([pack(idx0, starting), idx1])
    }

    pub fn word_idxs(&self) -> (r: [u32; NGRAM_CNT])
        ensures
            r[0] == self.spec_idx0(),
            r[1] == self.spec_idx1(),
    {
        [self.0[0] & 0x7FFF_FFFF, self.0[1]]
    }

    pub fn is_starting(&self) -> (r: bool)
        ensures
            r == self.spec_starting(),
    {
        (self.0[0] & 0x8000_0000) != 0
    }
}

/// What the spec-level prefix constructor packs, read back through the
/// accessors.
pub proof fn lemma_prefix_make(idx0: u32, idx1: u32, starting: bool)
    ensures
        ChainPrefix::spec_make(idx0, idx1, starting).spec_idx0() == idx0 & 0x7FFF_FFFFu32,
        idx0 <= WORD_IDX_LIMIT ==> ChainPrefix::spec_make(idx0, idx1, starting).spec_idx0()
            == idx0,
        ChainPrefix::spec_make(idx0, idx1, starting).spec_idx1() == idx1,
        ChainPrefix::spec_make(idx0, idx1, starting).spec_starting() == starting,
{
    lemma_pack_unpack(idx0, starting);
}

/// A transition target: one word index sharing its field with the
/// sentence-terminal flag.
#[derive(Debug, Clone, Copy, PartialEq, Eq)]
pub struct ChainSuffix(u32);

impl ChainSuffix {
    /// The suffix word index.
    pub closed spec fn spec_idx(self) -> u32 {
        packed_idx(self.0)
    }

    /// Whether the suffix word ends a sentence.
    pub closed spec fn spec_terminal(self) -> bool {
        packed_flag(self.0)
    }

    /// The packed value a call of `new` builds, as a spec-level constructor.
    pub closed spec fn spec_make(idx: u32, terminal: bool) -> Self {
        ChainSuffix(pack(idx, terminal))
    }

    pub fn new(word_idx: u32, terminal: bool) -> (r: Self)
        ensures
            r == Self::spec_make(word_idx, terminal),
            r.spec_idx() == word_idx & 0x7FFF_FFFFu32,
            word_idx <= WORD_IDX_LIMIT ==> r.spec_idx() == word_idx,
            r.spec_terminal() == terminal,
            r.spec_idx() <= WORD_IDX_LIMIT,
    {
        proof {
            lemma_pack_unpack(word_idx, terminal);
        }
        let word_idx_31 = word_idx & 0x7FFF_FFFF;
        let flag_bit: u32 = if terminal {
            0x8000_0000
        } else {
            0
        };
        ChainSuffix(word_idx_31 | flag_bit)
    }

    pub fn terminal(word_idx: u32) -> (r: Self)
        ensures
            r == Self::spec_make(word_idx, true),
    {
        Self::new(word_idx, true)
    }

    pub fn nonterminal(word_idx: u32) -> (r: Self)
        ensures
            r == Self::spec_make(word_idx, false),
    {
        Self::new(word_idx, false)
    }

    pub fn word_idx(&self) -> (r: u32)
        ensures
            r == self.spec_idx(),
    {
        self.0 & 0x7FFF_FFFF
    }

    pub fn is_terminal(&self) -> (r: bool)
        ensures
            r == self.spec_terminal(),
    {
        (self.0 & 0x8000_0000) != 0
    }
}

/// A prefix is determined by what its accessors read: repacking them yields
/// the same value.
pub proof fn lemma_prefix_repack(p: ChainPrefix)
    ensures
        ChainPrefix::spec_make(p.spec_idx0(), p.spec_idx1(), p.spec_starting()) == p,
{
    let x = p.0[0];
    assert(((x & 0x7FFF_FFFFu32) & 0x7FFF_FFFFu32) | (if x & 0x8000_0000u32 != 0 {
        0x8000_0000u32
    } else {
        0u32
    }) == x) by (bit_vector);
    assert(p.0 =~= ChainPrefix::spec_make(p.spec_idx0(), p.spec_idx1(), p.spec_starting()).0);
}

/// What the spec-level suffix constructor packs, read back through the
/// accessors.
pub proof fn lemma_suffix_make(idx: u32, terminal: bool)
    ensures
        ChainSuffix::spec_make(idx, terminal).spec_idx() == idx & 0x7FFF_FFFFu32,
        idx <= WORD_IDX_LIMIT ==> ChainSuffix::spec_make(idx, terminal).spec_idx() == idx,
        ChainSuffix::spec_make(idx, terminal).spec_terminal() == terminal,
{
    lemma_pack_unpack(idx, terminal);
}

/// A suffix is determined by what its accessors read.
pub proof fn lemma_suffix_repack(s: ChainSuffix)
    ensures
        ChainSuffix::spec_make(s.spec_idx(), s.spec_terminal()) == s,
{
    let x = s.0;
    assert(((x & 0x7FFF_FFFFu32) & 0x7FFF_FFFFu32) | (if x & 0x8000_0000u32 != 0 {
        0x8000_0000u32
    } else {
        0u32
    }) == x) by (bit_vector);
}

/// One observed transition: a bigram context, the word that followed it, and
/// the date the text carrying it was written.
#[derive(Debug, Clone, Copy, PartialEq, Eq)]
pub struct ChainEntry {
    pub prefix: ChainPrefix,
    pub suffix: ChainSuffix,
    pub datestamp: Datestamp,
}

impl ChainEntry {
    /// All word indices of the entry lie inside a vocabulary of `vocab_len` words.
    pub open spec fn valid_for(self, vocab_len: nat) -> bool {
        self.prefix.spec_idx0() < vocab_len && self.prefix.spec_idx1() < vocab_len
            && self.suffix.spec_idx() < vocab_len
    }
}

/// A text source: an attribution pattern literal and the ordered transition
/// entries observed under it. Two sources stand for the same attribution
/// exactly when their pattern literals match.
#[derive(Debug, Clone, PartialEq)]
pub struct TextSource {
    pub name: String,
    pub entries: Vec<ChainEntry>,
}

impl TextSource {
    /// Every entry's word indices lie inside a vocabulary of `vocab_len` words.
    pub open spec fn wf_for(self, vocab_len: nat) -> bool {
        forall|i: int|
            0 <= i < self.entries@.len() ==> (#[trigger] self.entries@[i]).valid_for(vocab_len)
    }
}

/// The whole chain: the vocabulary plus the ordered source list. Built by
/// ingestion, persisted whole, and read-only for selection and generation.
pub struct MarkovChain {
    pub words: Vocabulary,
    pub sources: Vec<TextSource>,
}

impl MarkovChain {
    /// The vocabulary is well formed and every entry of every source indexes
    /// into it.
    pub open spec fn wf(self) -> bool {
        &&& self.words.wf()
        &&& forall|s: int|
            0 <= s < self.sources@.len() ==> (#[trigger] self.sources@[s]).wf_for(
                self.words@.len(),
            )
    }

    pub fn new() -> (r: Self)
        ensures
            r.words@ == Seq::<Seq<char>>::empty(),
            r.sources@ == Seq::<TextSource>::empty(),
            r.wf(),
    {
        MarkovChain { words: Vocabulary::new(), sources: Vec::new() }
    }

    /// The known source pattern literals, in source order.
    pub fn source_names(&self) -> (r: Vec<String>)
        ensures
            r@.len() == self.sources@.len(),
            forall|k: int| 0 <= k < r@.len() ==> (#[trigger] r@[k])@ == self.sources@[k].name@,
    {
        let mut out: Vec<String> = Vec::new();
        let mut i: usize = 0;
        while i < self.sources.len()
            invariant
                i <= self.sources@.len(),
                out@.len() == i,
                forall|k: int| 0 <= k < i ==> (#[trigger] out@[k])@ == self.sources@[k].name@,
            decreases self.sources@.len() - i,
        {
            out.push(self.sources[i].name.clone());
            i = i + 1;
        }
        out
    }
}

} // verus!
