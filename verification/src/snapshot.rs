//! The snapshot codec: the whole chain as one byte string, and back.
//!
//! Every primitive is a little-endian 64-bit word: lengths, word indices,
//! flags (0 or 1), characters (their code points), and datestamp fields (the
//! year shifted by 32768 so it is non-negative). The encoder's output is
//! exactly the spec-level encoding of the chain's view; the decoder accepts a
//! byte string exactly when it is such an encoding of a well-formed,
//! machine-sized chain, and then returns that chain, validating every index
//! against the decoded vocabulary. Together with the injectivity of the
//! encoding this makes the snapshot round trip lossless.

use vstd::prelude::*;
use crate::chain::{ChainEntry, ChainPrefix, ChainSuffix, Datestamp, MarkovChain, TextSource,
    WORD_IDX_LIMIT};
use crate::vocab::Vocabulary;
use vstd::string::StrSliceExecFns;

verus! {

/// A 64-bit value as eight little-endian bytes.
pub open spec fn enc_u64(x: u64) -> Seq<u8> {
    seq![
        (x & 0xFF) as u8,
        ((x >> 8) & 0xFF) as u8,
        ((x >> 16) & 0xFF) as u8,
        ((x >> 24) & 0xFF) as u8,
        ((x >> 32) & 0xFF) as u8,
        ((x >> 40) & 0xFF) as u8,
        ((x >> 48) & 0xFF) as u8,
        ((x >> 56) & 0xFF) as u8,
    ]
}

pub open spec fn enc_flag(b: bool) -> Seq<u8> {
    enc_u64(
        if b {
            1u64
        } else {
            0u64
        },
    )
}

pub open spec fn enc_char(c: char) -> Seq<u8> {
    enc_u64((c as u32) as u64)
}

pub open spec fn enc_chars(w: Seq<char>, i: int) -> Seq<u8>
    decreases w.len() - i,
{
    if i < 0 || i >= w.len() {
        Seq::empty()
    } else {
        enc_char(w[i]) + enc_chars(w, i + 1)
    }
}

/// A word: its character count, then its characters.
pub open spec fn enc_word(w: Seq<char>) -> Seq<u8> {
    enc_u64(w.len() as u64) + enc_chars(w, 0)
}

pub open spec fn enc_words(v: Seq<Seq<char>>, i: int) -> Seq<u8>
    decreases v.len() - i,
{
    if i < 0 || i >= v.len() {
        Seq::empty()
    } else {
        enc_word(v[i]) + enc_words(v, i + 1)
    }
}

/// One transition entry: both prefix indices, the start flag, the suffix
/// index, the terminal flag, the shifted year, the day.
pub open spec fn enc_entry(e: ChainEntry) -> Seq<u8> {
    enc_u64(e.prefix.spec_idx0() as u64) + enc_u64(e.prefix.spec_idx1() as u64) + enc_flag(
        e.prefix.spec_starting(),
    ) + enc_u64(e.suffix.spec_idx() as u64) + enc_flag(e.suffix.spec_terminal()) + enc_u64(
        ((e.datestamp.year as int) + 32768) as u64,
    ) + enc_u64(e.datestamp.day as u64)
}

pub open spec fn enc_entries(es: Seq<ChainEntry>, i: int) -> Seq<u8>
    decreases es.len() - i,
{
    if i < 0 || i >= es.len() {
        Seq::empty()
    } else {
        enc_entry(es[i]) + enc_entries(es, i + 1)
    }
}

/// One source: its pattern literal, its entry count, its entries.
pub open spec fn enc_source(s: TextSource) -> Seq<u8> {
    enc_word(s.name@) + enc_u64(s.entries@.len() as u64) + enc_entries(s.entries@, 0)
}

pub open spec fn enc_sources(ss: Seq<TextSource>, i: int) -> Seq<u8>
    decreases ss.len() - i,
{
    if i < 0 || i >= ss.len() {
        Seq::empty()
    } else {
        enc_source(ss[i]) + enc_sources(ss, i + 1)
    }
}

/// The whole chain: the vocabulary size and words, then the source count and
/// sources.
pub open spec fn enc_chain(vocab: Seq<Seq<char>>, ss: Seq<TextSource>) -> Seq<u8> {
    enc_u64(vocab.len() as u64) + enc_words(vocab, 0) + enc_u64(ss.len() as u64) + enc_sources(
        ss,
        0,
    )
}

fn push_u64(out: &mut Vec<u8>, x: u64)
    ensures
        final(out)@ == old(out)@ + enc_u64(x),
{
    out.push((x & 0xFF) as u8);
    out.push(((x >> 8) & 0xFF) as u8);
    out.push(((x >> 16) & 0xFF) as u8);
    out.push(((x >> 24) & 0xFF) as u8);
    out.push(((x >> 32) & 0xFF) as u8);
    out.push(((x >> 40) & 0xFF) as u8);
    out.push(((x >> 48) & 0xFF) as u8);
    out.push(((x >> 56) & 0xFF) as u8);
    proof {
        assert(out@ =~= old(out)@ + enc_u64(x));
    }
}

proof fn lemma_enc_chars_snoc(w: Seq<char>, c: char, i: int)
    requires
        0 <= i <= w.len(),
    ensures
        enc_chars(w.push(c), i) == enc_chars(w, i) + enc_char(c),
    decreases w.len() - i,
{
    let wp = w.push(c);
    if i == w.len() {
        assert(enc_chars(wp, i) == enc_char(wp[i]) + enc_chars(wp, i + 1));
        assert(enc_chars(wp, i + 1) =~= Seq::<u8>::empty());
        assert(enc_chars(wp, i) =~= enc_chars(w, i) + enc_char(c));
    } else {
        lemma_enc_chars_snoc(w, c, i + 1);
        assert(wp[i] == w[i]);
        assert(enc_chars(wp, i) =~= enc_chars(w, i) + enc_char(c));
    }
}

fn push_word(out: &mut Vec<u8>, w: &str)
    ensures
        final(out)@ == old(out)@ + enc_word(w@),
        w@.len() <= usize::MAX,
{
    let n = w.unicode_len();
    push_u64(out, n as u64);
    let ghost base = out@;
    let mut i: usize = 0;
    while i < n
        invariant
            i <= n,
            n == w@.len(),
            out@ == base + enc_chars(w@.take(i as int), 0),
        decreases n - i,
    {
        let c = w.get_char(i);
        push_u64(out, (c as u32) as u64);
        proof {
            let pre = w@.take(i as int);
            let cur = w@.take(i + 1);
            assert(cur =~= pre.push(c));
            lemma_enc_chars_snoc(pre, c, 0);
            assert(out@ =~= base + enc_chars(cur, 0));
        }
        i = i + 1;
    }
    proof {
        assert(w@.take(n as int) =~= w@);
        assert(out@ =~= old(out)@ + enc_word(w@));
    }
}

fn push_flag(out: &mut Vec<u8>, b: bool)
    ensures
        final(out)@ == old(out)@ + enc_flag(b),
{
    if b {
        push_u64(out, 1);
    } else {
        push_u64(out, 0);
    }
}

fn push_entry(out: &mut Vec<u8>, e: &ChainEntry)
    ensures
        final(out)@ == old(out)@ + enc_entry(*e),
{
    let idxs = e.prefix.word_idxs();
    push_u64(out, idxs[0] as u64);
    push_u64(out, idxs[1] as u64);
    push_flag(out, e.prefix.is_starting());
    push_u64(out, e.suffix.word_idx() as u64);
    push_flag(out, e.suffix.is_terminal());
    let yoff: u32 = (e.datestamp.year as i32 + 32768) as u32;
    push_u64(out, yoff as u64);
    push_u64(out, e.datestamp.day as u64);
    proof {
        assert(yoff as u64 == ((e.datestamp.year as int) + 32768) as u64);
        assert(out@ =~= old(out)@ + enc_entry(*e));
    }
}

proof fn lemma_enc_entries_snoc(es: Seq<ChainEntry>, e: ChainEntry, i: int)
    requires
        0 <= i <= es.len(),
    ensures
        enc_entries(es.push(e), i) == enc_entries(es, i) + enc_entry(e),
    decreases es.len() - i,
{
    let ep = es.push(e);
    if i == es.len() {
        assert(enc_entries(ep, i + 1) =~= Seq::<u8>::empty());
        assert(enc_entries(ep, i) =~= enc_entries(es, i) + enc_entry(e));
    } else {
        lemma_enc_entries_snoc(es, e, i + 1);
        assert(ep[i] == es[i]);
        assert(enc_entries(ep, i) =~= enc_entries(es, i) + enc_entry(e));
    }
}

impl MarkovChain {
    /// The whole chain as one snapshot byte string: exactly the spec-level
    /// encoding of its vocabulary and sources.
    #[verifier::rlimit(100)]
    pub fn to_snapshot(&self) -> (r: Vec<u8>)
        ensures
            r@ == enc_chain(self.words@, self.sources@),
            snapshot_bounded(self.words@, self.sources@),
    {
        let mut out: Vec<u8> = Vec::new();
        let words = self.words.words_vec();
        push_u64(&mut out, words.len() as u64);
        let ghost base0 = out@;
        let mut i: usize = 0;
        while i < words.len()
            invariant
                i <= words@.len(),
                words@.len() == self.words@.len(),
                forall|k: int|
                    0 <= k < words@.len() ==> (#[trigger] words@[k])@ == self.words@[k],
                base0 == enc_u64(self.words@.len() as u64),
                out@ == base0 + enc_words(self.words@.take(i as int), 0),
                forall|k: int| 0 <= k < i ==> (#[trigger] self.words@[k]).len() <= usize::MAX,
            decreases words@.len() - i,
        {
            push_word(&mut out, words[i].as_str());
            proof {
                let pre = self.words@.take(i as int);
                let cur = self.words@.take(i + 1);
                assert(cur =~= pre.push(self.words@[i as int]));
                lemma_enc_words_snoc(pre, self.words@[i as int], 0);
                assert(out@ =~= base0 + enc_words(cur, 0));
            }
            i = i + 1;
        }
        proof {
            assert(self.words@.take(self.words@.len() as int) =~= self.words@);
        }
        push_u64(&mut out, self.sources.len() as u64);
        let ghost base1 = out@;
        let mut s: usize = 0;
        while s < self.sources.len()
            invariant
                s <= self.sources@.len(),
                base1 == enc_u64(self.words@.len() as u64) + enc_words(self.words@, 0) + enc_u64(
                    self.sources@.len() as u64,
                ),
                out@ == base1 + enc_sources(self.sources@.take(s as int), 0),
                forall|k: int|
                    0 <= k < s ==> (#[trigger] self.sources@[k]).name@.len() <= usize::MAX,
            decreases self.sources@.len() - s,
        {
            let src = &self.sources[s];
            push_word(&mut out, src.name.as_str());
            push_u64(&mut out, src.entries.len() as u64);
            let ghost base2 = out@;
            let mut t: usize = 0;
            while t < src.entries.len()
                invariant
                    t <= src.entries@.len(),
                    out@ == base2 + enc_entries(src.entries@.take(t as int), 0),
                decreases src.entries@.len() - t,
            {
                push_entry(&mut out, &src.entries[t]);
                proof {
                    let pre = src.entries@.take(t as int);
                    let cur = src.entries@.take(t + 1);
                    assert(cur =~= pre.push(src.entries@[t as int]));
                    lemma_enc_entries_snoc(pre, src.entries@[t as int], 0);
                    assert(out@ =~= base2 + enc_entries(cur, 0));
                }
                t = t + 1;
            }
            proof {
                assert(src.entries@.take(src.entries@.len() as int) =~= src.entries@);
                let pre = self.sources@.take(s as int);
                let cur = self.sources@.take(s + 1);
                assert(cur =~= pre.push(self.sources@[s as int]));
                lemma_enc_sources_snoc(pre, self.sources@[s as int], 0);
                assert(out@ =~= base2 + enc_entries(src.entries@, 0));
                assert(out@ =~= base1 + enc_sources(cur, 0));
            }
            s = s + 1;
        }
        proof {
            assert(self.sources@.take(self.sources@.len() as int) =~= self.sources@);
            assert(out@ =~= enc_chain(self.words@, self.sources@));
            assert forall|k: int|
                0 <= k < self.sources@.len() implies (#[trigger] self.sources@[k]).name@.len()
                <= usize::MAX && self.sources@[k].entries@.len() <= usize::MAX by {
                let v = &self.sources[k as int].entries;
                vstd::std_specs::vec::axiom_spec_len(v);
            }
            assert(snapshot_bounded(self.words@, self.sources@));
        }
        out
    }
}

proof fn lemma_enc_words_snoc(v: Seq<Seq<char>>, w: Seq<char>, i: int)
    requires
        0 <= i <= v.len(),
    ensures
        enc_words(v.push(w), i) == enc_words(v, i) + enc_word(w),
    decreases v.len() - i,
{
    let vp = v.push(w);
    if i == v.len() {
        assert(enc_words(vp, i + 1) =~= Seq::<u8>::empty());
        assert(enc_words(vp, i) =~= enc_words(v, i) + enc_word(w));
    } else {
        lemma_enc_words_snoc(v, w, i + 1);
        assert(vp[i] == v[i]);
        assert(enc_words(vp, i) =~= enc_words(v, i) + enc_word(w));
    }
}

proof fn lemma_enc_u64_inj(a: u64, b: u64)
    requires
        enc_u64(a) == enc_u64(b),
    ensures
        a == b,
{
    assert(enc_u64(a)[0] == enc_u64(b)[0]);
    assert(enc_u64(a)[1] == enc_u64(b)[1]);
    assert(enc_u64(a)[2] == enc_u64(b)[2]);
    assert(enc_u64(a)[3] == enc_u64(b)[3]);
    assert(enc_u64(a)[4] == enc_u64(b)[4]);
    assert(enc_u64(a)[5] == enc_u64(b)[5]);
    assert(enc_u64(a)[6] == enc_u64(b)[6]);
    assert(enc_u64(a)[7] == enc_u64(b)[7]);
    assert(a == b) by (bit_vector)
        requires
            (a & 0xFF) as u8 == (b & 0xFF) as u8 && ((a >> 8) & 0xFF) as u8 == ((b >> 8)
                & 0xFF) as u8 && ((a >> 16) & 0xFF) as u8 == ((b >> 16) & 0xFF) as u8 && ((a >> 24)
                & 0xFF) as u8 == ((b >> 24) & 0xFF) as u8 && ((a >> 32) & 0xFF) as u8 == ((b >> 32)
                & 0xFF) as u8 && ((a >> 40) & 0xFF) as u8 == ((b >> 40) & 0xFF) as u8 && ((a >> 48)
                & 0xFF) as u8 == ((b >> 48) & 0xFF) as u8 && ((a >> 56) & 0xFF) as u8 == ((b >> 56)
                & 0xFF) as u8,
    ;
}

/// Splits an equality of concatenations whose leading parts have one length.
proof fn lemma_split_concat(x: Seq<u8>, y: Seq<u8>, r1: Seq<u8>, r2: Seq<u8>)
    requires
        x.len() == y.len(),
        x + r1 == y + r2,
    ensures
        x == y,
        r1 == r2,
{
    assert forall|k: int| 0 <= k < x.len() implies x[k] == y[k] by {
        assert((x + r1)[k] == x[k]);
        assert((y + r2)[k] == y[k]);
    }
    assert(x =~= y);
    assert((x + r1).len() == x.len() + r1.len());
    assert((y + r2).len() == y.len() + r2.len());
    assert(r1.len() == r2.len());
    assert forall|k: int| 0 <= k < r1.len() implies r1[k] == r2[k] by {
        assert((x + r1)[x.len() + k] == r1[k]);
        assert((y + r2)[y.len() + k] == r2[k]);
    }
    assert(r1 =~= r2);
}

proof fn lemma_enc_chars_len(w: Seq<char>, i: int)
    requires
        0 <= i <= w.len(),
    ensures
        enc_chars(w, i).len() == 8 * (w.len() - i),
    decreases w.len() - i,
{
    if i < w.len() {
        lemma_enc_chars_len(w, i + 1);
    }
}

proof fn lemma_enc_chars_inj(w1: Seq<char>, w2: Seq<char>, i: int, r1: Seq<u8>, r2: Seq<u8>)
    requires
        w1.len() == w2.len(),
        0 <= i <= w1.len(),
        enc_chars(w1, i) + r1 == enc_chars(w2, i) + r2,
    ensures
        forall|k: int| i <= k < w1.len() ==> w1[k] == w2[k],
        r1 == r2,
    decreases w1.len() - i,
{
    if i == w1.len() {
        assert(Seq::<u8>::empty() + r1 =~= r1);
        assert(Seq::<u8>::empty() + r2 =~= r2);
    } else {
        assert(enc_char(w1[i]) + (enc_chars(w1, i + 1) + r1) =~= enc_chars(w1, i) + r1);
        assert(enc_char(w2[i]) + (enc_chars(w2, i + 1) + r2) =~= enc_chars(w2, i) + r2);
        lemma_split_concat(
            enc_char(w1[i]),
            enc_char(w2[i]),
            enc_chars(w1, i + 1) + r1,
            enc_chars(w2, i + 1) + r2,
        );
        lemma_enc_u64_inj((w1[i] as u32) as u64, (w2[i] as u32) as u64);
        assert(w1[i] as u32 == w2[i] as u32);
        vstd::utf8::char_u32_cast(w1[i], w1[i] as u32);
        vstd::utf8::char_u32_cast(w2[i], w2[i] as u32);
        assert(w1[i] == w2[i]);
        lemma_enc_chars_inj(w1, w2, i + 1, r1, r2);
    }
}

proof fn lemma_enc_word_inj(w1: Seq<char>, w2: Seq<char>, r1: Seq<u8>, r2: Seq<u8>)
    requires
        w1.len() <= u64::MAX,
        w2.len() <= u64::MAX,
        enc_word(w1) + r1 == enc_word(w2) + r2,
    ensures
        w1 == w2,
        r1 == r2,
{
    assert(enc_u64(w1.len() as u64) + (enc_chars(w1, 0) + r1) =~= enc_word(w1) + r1);
    assert(enc_u64(w2.len() as u64) + (enc_chars(w2, 0) + r2) =~= enc_word(w2) + r2);
    lemma_split_concat(
        enc_u64(w1.len() as u64),
        enc_u64(w2.len() as u64),
        enc_chars(w1, 0) + r1,
        enc_chars(w2, 0) + r2,
    );
    lemma_enc_u64_inj(w1.len() as u64, w2.len() as u64);
    assert(w1.len() == w2.len());
    lemma_enc_chars_inj(w1, w2, 0, r1, r2);
    assert(w1 =~= w2);
}

#[verifier::rlimit(100)]
proof fn lemma_enc_entry_inj(e1: ChainEntry, e2: ChainEntry, r1: Seq<u8>, r2: Seq<u8>)
    requires
        enc_entry(e1) + r1 == enc_entry(e2) + r2,
    ensures
        e1 == e2,
        r1 == r2,
{
    let a1 = enc_u64(e1.prefix.spec_idx0() as u64);
    let a2 = enc_u64(e2.prefix.spec_idx0() as u64);
    let b1 = enc_u64(e1.prefix.spec_idx1() as u64);
    let b2 = enc_u64(e2.prefix.spec_idx1() as u64);
    let c1 = enc_flag(e1.prefix.spec_starting());
    let c2 = enc_flag(e2.prefix.spec_starting());
    let d1 = enc_u64(e1.suffix.spec_idx() as u64);
    let d2 = enc_u64(e2.suffix.spec_idx() as u64);
    let f1 = enc_flag(e1.suffix.spec_terminal());
    let f2 = enc_flag(e2.suffix.spec_terminal());
    let g1 = enc_u64(((e1.datestamp.year as int) + 32768) as u64);
    let g2 = enc_u64(((e2.datestamp.year as int) + 32768) as u64);
    let h1 = enc_u64(e1.datestamp.day as u64);
    let h2 = enc_u64(e2.datestamp.day as u64);
    assert(a1 + (b1 + (c1 + (d1 + (f1 + (g1 + (h1 + r1)))))) =~= enc_entry(e1) + r1);
    assert(a2 + (b2 + (c2 + (d2 + (f2 + (g2 + (h2 + r2)))))) =~= enc_entry(e2) + r2);
    lemma_split_concat(a1, a2, b1 + (c1 + (d1 + (f1 + (g1 + (h1 + r1))))), b2 + (c2 + (d2 + (f2 + (
    g2 + (h2 + r2))))));
    lemma_enc_u64_inj(e1.prefix.spec_idx0() as u64, e2.prefix.spec_idx0() as u64);
    lemma_split_concat(b1, b2, c1 + (d1 + (f1 + (g1 + (h1 + r1)))), c2 + (d2 + (f2 + (g2 + (h2
        + r2)))));
    lemma_enc_u64_inj(e1.prefix.spec_idx1() as u64, e2.prefix.spec_idx1() as u64);
    lemma_split_concat(c1, c2, d1 + (f1 + (g1 + (h1 + r1))), d2 + (f2 + (g2 + (h2 + r2))));
    if e1.prefix.spec_starting() != e2.prefix.spec_starting() {
        lemma_enc_u64_inj(0, 1);
        assert(false);
    }
    lemma_split_concat(d1, d2, f1 + (g1 + (h1 + r1)), f2 + (g2 + (h2 + r2)));
    lemma_enc_u64_inj(e1.suffix.spec_idx() as u64, e2.suffix.spec_idx() as u64);
    lemma_split_concat(f1, f2, g1 + (h1 + r1), g2 + (h2 + r2));
    if e1.suffix.spec_terminal() != e2.suffix.spec_terminal() {
        lemma_enc_u64_inj(0, 1);
        assert(false);
    }
    lemma_split_concat(g1, g2, h1 + r1, h2 + r2);
    lemma_enc_u64_inj(
        ((e1.datestamp.year as int) + 32768) as u64,
        ((e2.datestamp.year as int) + 32768) as u64,
    );
    lemma_split_concat(h1, h2, r1, r2);
    lemma_enc_u64_inj(e1.datestamp.day as u64, e2.datestamp.day as u64);
    crate::chain::lemma_prefix_repack(e1.prefix);
    crate::chain::lemma_prefix_repack(e2.prefix);
    crate::chain::lemma_suffix_repack(e1.suffix);
    crate::chain::lemma_suffix_repack(e2.suffix);
}

#[verifier::rlimit(100)]
proof fn lemma_enc_entries_inj(
    es1: Seq<ChainEntry>,
    es2: Seq<ChainEntry>,
    i: int,
    r1: Seq<u8>,
    r2: Seq<u8>,
)
    requires
        es1.len() == es2.len(),
        0 <= i <= es1.len(),
        enc_entries(es1, i) + r1 == enc_entries(es2, i) + r2,
    ensures
        forall|k: int| i <= k < es1.len() ==> es1[k] == es2[k],
        r1 == r2,
    decreases es1.len() - i,
{
    if i == es1.len() {
        assert(Seq::<u8>::empty() + r1 =~= r1);
        assert(Seq::<u8>::empty() + r2 =~= r2);
    } else {
        assert(enc_entry(es1[i]) + (enc_entries(es1, i + 1) + r1) =~= enc_entries(es1, i) + r1);
        assert(enc_entry(es2[i]) + (enc_entries(es2, i + 1) + r2) =~= enc_entries(es2, i) + r2);
        lemma_enc_entry_inj(
            es1[i],
            es2[i],
            enc_entries(es1, i + 1) + r1,
            enc_entries(es2, i + 1) + r2,
        );
        lemma_enc_entries_inj(es1, es2, i + 1, r1, r2);
    }
}

proof fn lemma_enc_words_inj(
    v1: Seq<Seq<char>>,
    v2: Seq<Seq<char>>,
    i: int,
    r1: Seq<u8>,
    r2: Seq<u8>,
)
    requires
        v1.len() == v2.len(),
        0 <= i <= v1.len(),
        forall|k: int| 0 <= k < v1.len() ==> (#[trigger] v1[k]).len() <= u64::MAX,
        forall|k: int| 0 <= k < v2.len() ==> (#[trigger] v2[k]).len() <= u64::MAX,
        enc_words(v1, i) + r1 == enc_words(v2, i) + r2,
    ensures
        forall|k: int| i <= k < v1.len() ==> v1[k] == v2[k],
        r1 == r2,
    decreases v1.len() - i,
{
    if i == v1.len() {
        assert(Seq::<u8>::empty() + r1 =~= r1);
        assert(Seq::<u8>::empty() + r2 =~= r2);
    } else {
        assert(enc_word(v1[i]) + (enc_words(v1, i + 1) + r1) =~= enc_words(v1, i) + r1);
        assert(enc_word(v2[i]) + (enc_words(v2, i + 1) + r2) =~= enc_words(v2, i) + r2);
        lemma_enc_word_inj(v1[i], v2[i], enc_words(v1, i + 1) + r1, enc_words(v2, i + 1) + r2);
        lemma_enc_words_inj(v1, v2, i + 1, r1, r2);
    }
}

#[verifier::rlimit(100)]
proof fn lemma_enc_source_inj(s1: TextSource, s2: TextSource, r1: Seq<u8>, r2: Seq<u8>)
    requires
        s1.name@.len() <= u64::MAX,
        s2.name@.len() <= u64::MAX,
        s1.entries@.len() <= u64::MAX,
        s2.entries@.len() <= u64::MAX,
        enc_source(s1) + r1 == enc_source(s2) + r2,
    ensures
        s1.name@ == s2.name@,
        s1.entries@ == s2.entries@,
        r1 == r2,
{
    let t1 = enc_entries(s1.entries@, 0) + r1;
    let t2 = enc_entries(s2.entries@, 0) + r2;
    assert(enc_word(s1.name@) + (enc_u64(s1.entries@.len() as u64) + t1) =~= enc_source(s1) + r1);
    assert(enc_word(s2.name@) + (enc_u64(s2.entries@.len() as u64) + t2) =~= enc_source(s2) + r2);
    lemma_enc_word_inj(
        s1.name@,
        s2.name@,
        enc_u64(s1.entries@.len() as u64) + t1,
        enc_u64(s2.entries@.len() as u64) + t2,
    );
    lemma_split_concat(
        enc_u64(s1.entries@.len() as u64),
        enc_u64(s2.entries@.len() as u64),
        t1,
        t2,
    );
    lemma_enc_u64_inj(s1.entries@.len() as u64, s2.entries@.len() as u64);
    assert(s1.entries@.len() == s2.entries@.len());
    lemma_enc_entries_inj(s1.entries@, s2.entries@, 0, r1, r2);
    assert(s1.entries@ =~= s2.entries@);
}

#[verifier::rlimit(100)]
proof fn lemma_enc_sources_inj(
    ss1: Seq<TextSource>,
    ss2: Seq<TextSource>,
    i: int,
    r1: Seq<u8>,
    r2: Seq<u8>,
)
    requires
        ss1.len() == ss2.len(),
        0 <= i <= ss1.len(),
        forall|k: int|
            0 <= k < ss1.len() ==> (#[trigger] ss1[k]).name@.len() <= u64::MAX
                && ss1[k].entries@.len() <= u64::MAX,
        forall|k: int|
            0 <= k < ss2.len() ==> (#[trigger] ss2[k]).name@.len() <= u64::MAX
                && ss2[k].entries@.len() <= u64::MAX,
        enc_sources(ss1, i) + r1 == enc_sources(ss2, i) + r2,
    ensures
        forall|k: int|
            i <= k < ss1.len() ==> (#[trigger] ss1[k]).name@ == ss2[k].name@ && ss1[k].entries@
                == ss2[k].entries@,
        r1 == r2,
    decreases ss1.len() - i,
{
    if i == ss1.len() {
        assert(Seq::<u8>::empty() + r1 =~= r1);
        assert(Seq::<u8>::empty() + r2 =~= r2);
    } else {
        assert(enc_source(ss1[i]) + (enc_sources(ss1, i + 1) + r1) =~= enc_sources(ss1, i) + r1);
        assert(enc_source(ss2[i]) + (enc_sources(ss2, i + 1) + r2) =~= enc_sources(ss2, i) + r2);
        lemma_enc_source_inj(
            ss1[i],
            ss2[i],
            enc_sources(ss1, i + 1) + r1,
            enc_sources(ss2, i + 1) + r2,
        );
        lemma_enc_sources_inj(ss1, ss2, i + 1, r1, r2);
    }
}

/// All the counts and lengths a snapshot writes fit in one machine word;
/// true of every chain an executable program can hold, and established by
/// the encoder for its own output.
pub open spec fn snapshot_bounded(vocab: Seq<Seq<char>>, ss: Seq<TextSource>) -> bool {
    &&& vocab.len() <= usize::MAX
    &&& ss.len() <= usize::MAX
    &&& forall|k: int| 0 <= k < vocab.len() ==> (#[trigger] vocab[k]).len() <= usize::MAX
    &&& forall|k: int|
        0 <= k < ss.len() ==> (#[trigger] ss[k]).name@.len() <= usize::MAX && ss[k].entries@.len()
            <= usize::MAX
}

/// `e` appears in `b` at position `pos`, with room to spare after it.
pub open spec fn starts_with(b: Seq<u8>, pos: int, e: Seq<u8>) -> bool {
    0 <= pos && pos + e.len() <= b.len() && b.subrange(pos, pos + e.len()) == e
}

/// A chain view the decoder is bound to accept: distinct words below the
/// 31-bit cap, every entry indexing into them, and sizes a program can hold.
pub open spec fn valid_snapshot_view(vocab: Seq<Seq<char>>, ss: Seq<TextSource>) -> bool {
    &&& vocab.no_duplicates()
    &&& vocab.len() <= WORD_IDX_LIMIT
    &&& forall|k: int| 0 <= k < ss.len() ==> (#[trigger] ss[k]).wf_for(vocab.len() as nat)
    &&& snapshot_bounded(vocab, ss)
}

/// An encoded snapshot determines the chain: two chains with the same
/// encoding hold the same vocabulary words and, source by source, the same
/// pattern literals and the same entry lists. Together with the encoder's
/// and decoder's contracts this makes the snapshot round trip lossless.
pub proof fn lemma_snapshot_determines_chain(
    w1: Seq<Seq<char>>,
    ss1: Seq<TextSource>,
    w2: Seq<Seq<char>>,
    ss2: Seq<TextSource>,
)
    requires
        snapshot_bounded(w1, ss1),
        snapshot_bounded(w2, ss2),
        enc_chain(w1, ss1) == enc_chain(w2, ss2),
    ensures
        w1 == w2,
        ss1.len() == ss2.len(),
        forall|k: int|
            0 <= k < ss1.len() ==> (#[trigger] ss1[k]).name@ == ss2[k].name@ && ss1[k].entries@
                == ss2[k].entries@,
{
    let t1 = enc_u64(ss1.len() as u64) + (enc_sources(ss1, 0) + Seq::<u8>::empty());
    let t2 = enc_u64(ss2.len() as u64) + (enc_sources(ss2, 0) + Seq::<u8>::empty());
    assert(enc_u64(w1.len() as u64) + (enc_words(w1, 0) + t1) =~= enc_chain(w1, ss1));
    assert(enc_u64(w2.len() as u64) + (enc_words(w2, 0) + t2) =~= enc_chain(w2, ss2));
    lemma_split_concat(
        enc_u64(w1.len() as u64),
        enc_u64(w2.len() as u64),
        enc_words(w1, 0) + t1,
        enc_words(w2, 0) + t2,
    );
    lemma_enc_u64_inj(w1.len() as u64, w2.len() as u64);
    assert(w1.len() == w2.len());
    lemma_enc_words_inj(w1, w2, 0, t1, t2);
    assert(w1 =~= w2);
    lemma_split_concat(
        enc_u64(ss1.len() as u64),
        enc_u64(ss2.len() as u64),
        enc_sources(ss1, 0) + Seq::<u8>::empty(),
        enc_sources(ss2, 0) + Seq::<u8>::empty(),
    );
    lemma_enc_u64_inj(ss1.len() as u64, ss2.len() as u64);
    lemma_enc_sources_inj(ss1, ss2, 0, Seq::<u8>::empty(), Seq::<u8>::empty());
}

/// Relies on std's `char::from_u32`: `Some` exactly on valid code points
/// (below the surrogate range or between it and the Unicode maximum), and the
/// returned character has exactly that code point.
pub assume_specification[ char::from_u32 ](i: u32) -> (r: Option<char>)
    ensures
        r is Some <==> (i < 0xD800 || (0xE000 <= i && i <= 0x10FFFF)),
        r matches Some(c) ==> c as u32 == i,
;

/// Relies on std's `String::push`: appends one character.
#[verifier::external_body]
fn push_char(s: &mut String, c: char)
    ensures
        final(s)@ == old(s)@.push(c),
{
    s.push(c);
}

fn read_u64(bytes: &Vec<u8>, pos: usize) -> (r: Option<(u64, usize)>)
    ensures
        match r {
            Some(p) => pos + 8 <= bytes@.len() && p.1 == pos + 8 && bytes@.subrange(
                pos as int,
                p.1 as int,
            ) == enc_u64(p.0),
            None => pos + 8 > bytes@.len(),
        },
{
    if bytes.len() < 8 || pos > bytes.len() - 8 {
        return None;
    }
    let b0 = bytes[pos] as u64;
    let b1 = bytes[pos + 1] as u64;
    let b2 = bytes[pos + 2] as u64;
    let b3 = bytes[pos + 3] as u64;
    let b4 = bytes[pos + 4] as u64;
    let b5 = bytes[pos + 5] as u64;
    let b6 = bytes[pos + 6] as u64;
    let b7 = bytes[pos + 7] as u64;
    let x: u64 = b0 | (b1 << 8) | (b2 << 16) | (b3 << 24) | (b4 << 32) | (b5 << 40) | (b6 << 48)
        | (b7 << 56);
    proof {
        assert({
            let v = (b0 | (b1 << 8) | (b2 << 16) | (b3 << 24) | (b4 << 32) | (b5 << 40) | (b6
                << 48) | (b7 << 56));
            &&& v & 0xFF == b0
            &&& (v >> 8) & 0xFF == b1
            &&& (v >> 16) & 0xFF == b2
            &&& (v >> 24) & 0xFF == b3
            &&& (v >> 32) & 0xFF == b4
            &&& (v >> 40) & 0xFF == b5
            &&& (v >> 48) & 0xFF == b6
            &&& (v >> 56) & 0xFF == b7
        }) by (bit_vector)
            requires
                b0 < 256 && b1 < 256 && b2 < 256 && b3 < 256 && b4 < 256 && b5 < 256 && b6 < 256
                    && b7 < 256,
        ;
        assert(bytes@.subrange(pos as int, pos + 8) =~= enc_u64(x));
    }
    Some((x, pos + 8))
}

/// Reads one length-prefixed word. `Some` comes with exactly its encoding
/// consumed; `None` only when no word bounded by the machine's word size is
/// encoded at `pos`.
#[verifier::rlimit(100)]
fn read_word(bytes: &Vec<u8>, pos: usize) -> (r: Option<(String, usize)>)
    ensures
        match r {
            Some(p) => pos <= p.1 <= bytes@.len() && bytes@.subrange(pos as int, p.1 as int)
                == enc_word(p.0@) && p.0@.len() <= usize::MAX,
            None => !(exists|w: Seq<char>|
                w.len() <= usize::MAX && starts_with(bytes@, pos as int, enc_word(w))),
        },
{
    let ghost ex = exists|w: Seq<char>|
        w.len() <= usize::MAX && starts_with(bytes@, pos as int, enc_word(w));
    let ghost gw: Seq<char> = if ex {
        choose|w: Seq<char>| w.len() <= usize::MAX && starts_with(bytes@, pos as int, enc_word(w))
    } else {
        Seq::empty()
    };
    proof {
        if ex {
            lemma_enc_chars_len(gw, 0);
        }
    }
    let (n64, c0) = match read_u64(bytes, pos) {
        Some(p) => p,
        None => {
            proof {
                if ex {
                    assert(pos + enc_word(gw).len() <= bytes@.len());
                    assert(false);
                }
            }
            return None;
        },
    };
    let ghost wend = pos + 8 + 8 * gw.len();
    proof {
        if ex {
            assert(wend == pos + enc_word(gw).len());
            assert(bytes@.subrange(pos as int, wend) == enc_word(gw));
            assert(bytes@.subrange(pos as int, wend) =~= bytes@.subrange(pos as int, pos + 8)
                + bytes@.subrange(pos + 8, wend));
            lemma_split_concat(
                enc_u64(gw.len() as u64),
                bytes@.subrange(pos as int, pos + 8),
                enc_chars(gw, 0),
                bytes@.subrange(pos + 8, wend),
            );
            lemma_enc_u64_inj(gw.len() as u64, n64);
            assert(n64 == gw.len() as u64);
            assert(bytes@.subrange(pos + 8, wend) == enc_chars(gw, 0));
        }
    }
    if n64 > usize::MAX as u64 {
        proof {
            if ex {
                assert(gw.len() <= usize::MAX);
                assert(false);
            }
        }
        return None;
    }
    let count = n64 as usize;
    let mut w = String::new();
    let mut cur = c0;
    let mut i: usize = 0;
    while i < count
        invariant
            i <= count,
            count == n64 as usize,
            n64 <= usize::MAX as u64,
            pos <= cur <= bytes@.len(),
            pos + 8 <= bytes@.len(),
            w@.len() == i,
            bytes@.subrange(pos as int, cur as int) == enc_u64(n64) + enc_chars(w@, 0),
            ex == (exists|ww: Seq<char>|
                ww.len() <= usize::MAX && starts_with(bytes@, pos as int, enc_word(ww))),
            wend == pos + 8 + 8 * gw.len(),
            ex ==> gw.len() == count && w@ == gw.take(i as int) && starts_with(
                bytes@,
                pos as int,
                enc_word(gw),
            ) && cur <= wend <= bytes@.len() && bytes@.subrange(cur as int, wend) == enc_chars(
                gw,
                i as int,
            ),
        decreases count - i,
    {
        proof {
            if ex {
                lemma_enc_chars_len(gw, i as int);
                lemma_enc_chars_len(gw, 0);
                assert(wend <= bytes@.len());
                assert(wend - cur == 8 * (count - i));
            }
        }
        let (v, cur2) = match read_u64(bytes, cur) {
            Some(p) => p,
            None => {
                proof {
                    if ex {
                        assert(cur + 8 <= wend);
                        assert(false);
                    }
                }
                return None;
            },
        };
        proof {
            if ex {
                assert(enc_chars(gw, i as int) == enc_char(gw[i as int]) + enc_chars(
                    gw,
                    i + 1,
                ));
                assert(bytes@.subrange(cur as int, wend) =~= bytes@.subrange(
                    cur as int,
                    cur2 as int,
                ) + bytes@.subrange(cur2 as int, wend));
                lemma_split_concat(
                    enc_char(gw[i as int]),
                    bytes@.subrange(cur as int, cur2 as int),
                    enc_chars(gw, i + 1),
                    bytes@.subrange(cur2 as int, wend),
                );
                lemma_enc_u64_inj((gw[i as int] as u32) as u64, v);
                assert(v == (gw[i as int] as u32) as u64);
                assert(bytes@.subrange(cur2 as int, wend) == enc_chars(gw, i + 1));
            }
        }
        if v > u32::MAX as u64 {
            proof {
                if ex {
                    assert(false);
                }
            }
            return None;
        }
        let c = match char::from_u32(v as u32) {
            Some(c) => c,
            None => {
                proof {
                    if ex {
                        vstd::utf8::char_is_scalar(gw[i as int]);
                        assert(v as u32 == gw[i as int] as u32);
                        assert(false);
                    }
                }
                return None;
            },
        };
        proof {
            assert((c as u32) as u64 == v);
            assert(enc_char(c) == enc_u64(v));
            assert(bytes@.subrange(pos as int, cur2 as int) =~= bytes@.subrange(
                pos as int,
                cur as int,
            ) + bytes@.subrange(cur as int, cur2 as int));
            lemma_enc_chars_snoc(w@, c, 0);
            assert((enc_u64(n64) + enc_chars(w@, 0)) + enc_char(c) =~= enc_u64(n64) + enc_chars(
                w@.push(c),
                0,
            ));
            if ex {
                vstd::utf8::char_u32_cast(gw[i as int], gw[i as int] as u32);
                vstd::utf8::char_u32_cast(c, c as u32);
                assert(c as u32 == gw[i as int] as u32);
                assert(c == gw[i as int]);
                assert(w@.push(c) =~= gw.take(i + 1));
            }
        }
        push_char(&mut w, c);
        cur = cur2;
        i = i + 1;
    }
    proof {
        assert(w@.len() as u64 == n64);
        assert(bytes@.subrange(pos as int, cur as int) == enc_word(w@));
    }
    Some((w, cur))
}

/// The seven eight-byte windows of an encoded entry, read back field by
/// field.
proof fn lemma_enc_entry_split(e: ChainEntry, b: Seq<u8>, pos: int)
    requires
        starts_with(b, pos, enc_entry(e)),
    ensures
        pos + 56 <= b.len(),
        b.subrange(pos, pos + 8) == enc_u64(e.prefix.spec_idx0() as u64),
        b.subrange(pos + 8, pos + 16) == enc_u64(e.prefix.spec_idx1() as u64),
        b.subrange(pos + 16, pos + 24) == enc_flag(e.prefix.spec_starting()),
        b.subrange(pos + 24, pos + 32) == enc_u64(e.suffix.spec_idx() as u64),
        b.subrange(pos + 32, pos + 40) == enc_flag(e.suffix.spec_terminal()),
        b.subrange(pos + 40, pos + 48) == enc_u64(((e.datestamp.year as int) + 32768) as u64),
        b.subrange(pos + 48, pos + 56) == enc_u64(e.datestamp.day as u64),
{
    let a = enc_u64(e.prefix.spec_idx0() as u64);
    let bb = enc_u64(e.prefix.spec_idx1() as u64);
    let c = enc_flag(e.prefix.spec_starting());
    let d = enc_u64(e.suffix.spec_idx() as u64);
    let f = enc_flag(e.suffix.spec_terminal());
    let g = enc_u64(((e.datestamp.year as int) + 32768) as u64);
    let h = enc_u64(e.datestamp.day as u64);
    let s1 = b.subrange(pos, pos + 8);
    let s2 = b.subrange(pos + 8, pos + 16);
    let s3 = b.subrange(pos + 16, pos + 24);
    let s4 = b.subrange(pos + 24, pos + 32);
    let s5 = b.subrange(pos + 32, pos + 40);
    let s6 = b.subrange(pos + 40, pos + 48);
    let s7 = b.subrange(pos + 48, pos + 56);
    assert(enc_entry(e).len() == 56);
    assert(a + (bb + (c + (d + (f + (g + h))))) =~= enc_entry(e));
    assert(s1 + (s2 + (s3 + (s4 + (s5 + (s6 + s7))))) =~= b.subrange(pos, pos + 56));
    assert(b.subrange(pos, pos + 56) == enc_entry(e));
    lemma_split_concat(a, s1, bb + (c + (d + (f + (g + h)))), s2 + (s3 + (s4 + (s5 + (s6 + s7)))));
    lemma_split_concat(bb, s2, c + (d + (f + (g + h))), s3 + (s4 + (s5 + (s6 + s7))));
    lemma_split_concat(c, s3, d + (f + (g + h)), s4 + (s5 + (s6 + s7)));
    lemma_split_concat(d, s4, f + (g + h), s5 + (s6 + s7));
    lemma_split_concat(f, s5, g + h, s6 + s7);
    lemma_split_concat(g, s6, h, s7);
}

/// Reads one transition entry, validating every word index against the
/// vocabulary size. `Some` comes with exactly its encoding consumed; `None`
/// only when no entry valid for that vocabulary is encoded at `pos`.
#[verifier::rlimit(100)]
fn read_entry(bytes: &Vec<u8>, pos: usize, vocab_len: usize) -> (r: Option<(ChainEntry, usize)>)
    requires
        vocab_len <= WORD_IDX_LIMIT as usize,
    ensures
        match r {
            Some(p) => pos <= p.1 <= bytes@.len() && bytes@.subrange(pos as int, p.1 as int)
                == enc_entry(p.0) && p.0.valid_for(vocab_len as nat),
            None => !(exists|e: ChainEntry|
                e.valid_for(vocab_len as nat) && starts_with(bytes@, pos as int, enc_entry(e))),
        },
{
    let ghost ex = exists|e: ChainEntry|
        e.valid_for(vocab_len as nat) && starts_with(bytes@, pos as int, enc_entry(e));
    let ghost ge: ChainEntry = if ex {
        choose|e: ChainEntry|
            e.valid_for(vocab_len as nat) && starts_with(bytes@, pos as int, enc_entry(e))
    } else {
        arbitrary()
    };
    proof {
        if ex {
            lemma_enc_entry_split(ge, bytes@, pos as int);
        }
    }
    let (i0, p1) = match read_u64(bytes, pos) {
        Some(p) => p,
        None => {
            proof {
                if ex {
                    assert(false);
                }
            }
            return None;
        },
    };
    let (i1, p2) = match read_u64(bytes, p1) {
        Some(p) => p,
        None => {
            proof {
                if ex {
                    assert(false);
                }
            }
            return None;
        },
    };
    let (f0, p3) = match read_u64(bytes, p2) {
        Some(p) => p,
        None => {
            proof {
                if ex {
                    assert(false);
                }
            }
            return None;
        },
    };
    let (si, p4) = match read_u64(bytes, p3) {
        Some(p) => p,
        None => {
            proof {
                if ex {
                    assert(false);
                }
            }
            return None;
        },
    };
    let (f1, p5) = match read_u64(bytes, p4) {
        Some(p) => p,
        None => {
            proof {
                if ex {
                    assert(false);
                }
            }
            return None;
        },
    };
    let (yo, p6) = match read_u64(bytes, p5) {
        Some(p) => p,
        None => {
            proof {
                if ex {
                    assert(false);
                }
            }
            return None;
        },
    };
    let (dy, p7) = match read_u64(bytes, p6) {
        Some(p) => p,
        None => {
            proof {
                if ex {
                    assert(false);
                }
            }
            return None;
        },
    };
    proof {
        if ex {
            lemma_enc_u64_inj(i0, ge.prefix.spec_idx0() as u64);
            lemma_enc_u64_inj(i1, ge.prefix.spec_idx1() as u64);
            lemma_enc_u64_inj(
                f0,
                if ge.prefix.spec_starting() {
                    1u64
                } else {
                    0u64
                },
            );
            lemma_enc_u64_inj(si, ge.suffix.spec_idx() as u64);
            lemma_enc_u64_inj(
                f1,
                if ge.suffix.spec_terminal() {
                    1u64
                } else {
                    0u64
                },
            );
            lemma_enc_u64_inj(yo, ((ge.datestamp.year as int) + 32768) as u64);
            lemma_enc_u64_inj(dy, ge.datestamp.day as u64);
        }
    }
    if i0 >= vocab_len as u64 || i1 >= vocab_len as u64 || si >= vocab_len as u64 {
        proof {
            if ex {
                assert(false);
            }
        }
        return None;
    }
    if f0 > 1 || f1 > 1 {
        proof {
            if ex {
                assert(false);
            }
        }
        return None;
    }
    if yo > 65535 || dy > 65535 {
        proof {
            if ex {
                assert(false);
            }
        }
        return None;
    }
    let prefix = ChainPrefix::new([i0 as u32, i1 as u32], f0 == 1);
    let suffix = ChainSuffix::new(si as u32, f1 == 1);
    let year: i16 = (yo as i32 - 32768) as i16;
    let day: u16 = dy as u16;
    let e = ChainEntry { prefix, suffix, datestamp: Datestamp { year, day } };
    proof {
        assert(e.prefix.spec_idx0() as u64 == i0);
        assert(e.prefix.spec_idx1() as u64 == i1);
        assert(e.suffix.spec_idx() as u64 == si);
        assert(enc_flag(e.prefix.spec_starting()) == enc_u64(f0));
        assert(enc_flag(e.suffix.spec_terminal()) == enc_u64(f1));
        assert(((e.datestamp.year as int) + 32768) as u64 == yo);
        assert(e.datestamp.day as u64 == dy);
        assert(bytes@.subrange(pos as int, p7 as int) =~= bytes@.subrange(pos as int, p1 as int)
            + bytes@.subrange(p1 as int, p2 as int) + bytes@.subrange(p2 as int, p3 as int)
            + bytes@.subrange(p3 as int, p4 as int) + bytes@.subrange(p4 as int, p5 as int)
            + bytes@.subrange(p5 as int, p6 as int) + bytes@.subrange(p6 as int, p7 as int));
        assert(bytes@.subrange(pos as int, p7 as int) == enc_entry(e));
    }
    Some((e, p7))
}

/// Peels a known leading piece off a suffix equation: the piece appears at
/// `cur`, and the bytes after it are the remainder.
proof fn lemma_peel(b: Seq<u8>, cur: int, x: Seq<u8>, rest: Seq<u8>)
    requires
        0 <= cur <= b.len(),
        b.subrange(cur, b.len() as int) == x + rest,
    ensures
        starts_with(b, cur, x),
        b.subrange(cur + x.len(), b.len() as int) == rest,
{
    assert(b.subrange(cur, b.len() as int).len() == b.len() - cur);
    assert(cur + x.len() <= b.len());
    let mid = cur + x.len() as int;
    assert(b.subrange(cur, b.len() as int) =~= b.subrange(cur, mid) + b.subrange(
        mid,
        b.len() as int,
    ));
    lemma_split_concat(x, b.subrange(cur, mid), rest, b.subrange(mid, b.len() as int));
}

/// The head of an encoded chain: the vocabulary count, then everything else.
proof fn lemma_chain_premise_head(w: Seq<Seq<char>>, ss: Seq<TextSource>, b: Seq<u8>)
    requires
        b == enc_chain(w, ss),
    ensures
        b.len() >= 8,
        b.subrange(0, b.len() as int) == enc_u64(w.len() as u64) + (enc_words(w, 0) + (enc_u64(
            ss.len() as u64,
        ) + enc_sources(ss, 0))),
{
    assert(enc_u64(w.len() as u64) + (enc_words(w, 0) + (enc_u64(ss.len() as u64) + enc_sources(
        ss,
        0,
    ))) =~= b);
    assert(b.subrange(0, b.len() as int) =~= b);
}

/// The head of one encoded source within a suffix equation: its name starts
/// at `cur`, followed by its entry count, entries, and the later sources.
proof fn lemma_sources_head(gss: Seq<TextSource>, s: int, b: Seq<u8>, cur: int)
    requires
        0 <= s < gss.len(),
        0 <= cur <= b.len(),
        b.subrange(cur, b.len() as int) == enc_sources(gss, s),
    ensures
        starts_with(b, cur, enc_word(gss[s].name@)),
{
    let nm = enc_word(gss[s].name@);
    let ec = enc_u64(gss[s].entries@.len() as u64);
    let ee = enc_entries(gss[s].entries@, 0);
    assert(enc_sources(gss, s) == enc_source(gss[s]) + enc_sources(gss, s + 1));
    assert((nm + ec + ee) + enc_sources(gss, s + 1) =~= nm + (ec + (ee + enc_sources(gss, s + 1))));
    lemma_peel(b, cur, nm, ec + (ee + enc_sources(gss, s + 1)));
}

/// Aligns a read word with the source name the suffix equation demands, and
/// hands back the equation for the bytes after it.
proof fn lemma_source_name_align(
    gss: Seq<TextSource>,
    s: int,
    b: Seq<u8>,
    cur: int,
    pn: int,
    namev: Seq<char>,
)
    requires
        0 <= s < gss.len(),
        0 <= cur <= pn <= b.len(),
        gss[s].name@.len() <= u64::MAX,
        namev.len() <= u64::MAX,
        b.subrange(cur, b.len() as int) == enc_sources(gss, s),
        b.subrange(cur, pn) == enc_word(namev),
    ensures
        namev == gss[s].name@,
        b.subrange(pn, b.len() as int) == enc_u64(gss[s].entries@.len() as u64) + (enc_entries(
            gss[s].entries@,
            0,
        ) + enc_sources(gss, s + 1)),
{
    let nm = enc_word(gss[s].name@);
    let ec = enc_u64(gss[s].entries@.len() as u64);
    let ee = enc_entries(gss[s].entries@, 0);
    assert(enc_sources(gss, s) == enc_source(gss[s]) + enc_sources(gss, s + 1));
    assert((nm + ec + ee) + enc_sources(gss, s + 1) =~= nm + (ec + (ee + enc_sources(gss, s + 1))));
    assert(b.subrange(cur, b.len() as int) =~= b.subrange(cur, pn) + b.subrange(
        pn,
        b.len() as int,
    ));
    lemma_enc_word_inj(
        namev,
        gss[s].name@,
        b.subrange(pn, b.len() as int),
        ec + (ee + enc_sources(gss, s + 1)),
    );
}

impl MarkovChain {
    /// Rebuilds a chain from a snapshot byte string. `Some` exactly when the
    /// bytes are an encoding of some well-formed, machine-sized chain — and
    /// then of the returned one, every decoded word index validated against
    /// the decoded vocabulary; any malformed, short, oversized or trailing
    /// input yields `None`.
    #[verifier::rlimit(100)]
    pub fn from_snapshot(bytes: &Vec<u8>) -> (r: Option<MarkovChain>)
        ensures
            match r {
                Some(c) => c.wf() && bytes@ == enc_chain(c.words@, c.sources@)
                    && snapshot_bounded(c.words@, c.sources@),
                None => !(exists|w: Seq<Seq<char>>, ss: Seq<TextSource>|
                    valid_snapshot_view(w, ss) && bytes@ == enc_chain(w, ss)),
            },
    {
        let ghost ex = exists|w: Seq<Seq<char>>, ss: Seq<TextSource>|
            valid_snapshot_view(w, ss) && bytes@ == enc_chain(w, ss);
        let ghost gp: (Seq<Seq<char>>, Seq<TextSource>) = if ex {
            choose|w: Seq<Seq<char>>, ss: Seq<TextSource>|
                valid_snapshot_view(w, ss) && bytes@ == enc_chain(w, ss)
        } else {
            (Seq::empty(), Seq::empty())
        };
        let ghost gw = gp.0;
        let ghost gss = gp.1;
        let ghost blen = bytes@.len() as int;
        proof {
            if ex {
                lemma_chain_premise_head(gw, gss, bytes@);
                lemma_peel(
                    bytes@,
                    0,
                    enc_u64(gw.len() as u64),
                    enc_words(gw, 0) + (enc_u64(gss.len() as u64) + enc_sources(gss, 0)),
                );
            }
        }
        let (n64, mut cur) = match read_u64(bytes, 0) {
            Some(p) => p,
            None => {
                proof {
                    if ex {
                        assert(false);
                    }
                }
                return None;
            },
        };
        proof {
            if ex {
                lemma_enc_u64_inj(n64, gw.len() as u64);
                assert(n64 == gw.len() as u64);
                assert(bytes@.subrange(cur as int, blen) == enc_words(gw, 0) + (enc_u64(
                    gss.len() as u64,
                ) + enc_sources(gss, 0)));
            }
        }
        if n64 > WORD_IDX_LIMIT as u64 {
            proof {
                if ex {
                    assert(gw.len() <= WORD_IDX_LIMIT);
                    assert(false);
                }
            }
            return None;
        }
        let count = n64 as usize;
        let mut vocab = Vocabulary::new();
        let mut i: usize = 0;
        while i < count
            invariant
                i <= count,
                count == n64 as usize,
                n64 <= WORD_IDX_LIMIT as u64,
                cur <= bytes@.len(),
                blen == bytes@.len() as int,
                vocab.wf(),
                vocab@.len() == i,
                bytes@.subrange(0, cur as int) == enc_u64(n64) + enc_words(vocab@, 0),
                forall|k: int|
                    0 <= k < vocab@.len() ==> (#[trigger] vocab@[k]).len() <= usize::MAX,
                ex == (exists|w: Seq<Seq<char>>, ss: Seq<TextSource>|
                    valid_snapshot_view(w, ss) && bytes@ == enc_chain(w, ss)),
                gw == gp.0 && gss == gp.1,
                ex ==> valid_snapshot_view(gw, gss) && bytes@ == enc_chain(gw, gss) && gw.len()
                    == count && vocab@ == gw.take(i as int) && bytes@.subrange(cur as int, blen)
                    == enc_words(gw, i as int) + (enc_u64(gss.len() as u64) + enc_sources(gss, 0)),
            decreases count - i,
        {
            let ghost v0 = vocab@;
            proof {
                if ex {
                    assert(enc_words(gw, i as int) == enc_word(gw[i as int]) + enc_words(
                        gw,
                        i + 1,
                    ));
                    assert((enc_word(gw[i as int]) + enc_words(gw, i + 1)) + (enc_u64(
                        gss.len() as u64,
                    ) + enc_sources(gss, 0)) =~= enc_word(gw[i as int]) + (enc_words(gw, i + 1) + (
                    enc_u64(gss.len() as u64) + enc_sources(gss, 0))));
                    lemma_peel(
                        bytes@,
                        cur as int,
                        enc_word(gw[i as int]),
                        enc_words(gw, i + 1) + (enc_u64(gss.len() as u64) + enc_sources(gss, 0)),
                    );
                    assert(gw[i as int].len() <= usize::MAX);
                }
            }
            let (w, cur2) = match read_word(bytes, cur) {
                Some(p) => p,
                None => {
                    proof {
                        if ex {
                            assert(false);
                        }
                    }
                    return None;
                },
            };
            let ghost wv = w@;
            proof {
                if ex {
                    assert(bytes@.subrange(cur as int, blen) =~= bytes@.subrange(
                        cur as int,
                        cur2 as int,
                    ) + bytes@.subrange(cur2 as int, blen));
                    assert(usize::MAX <= u64::MAX);
                    lemma_enc_word_inj(
                        wv,
                        gw[i as int],
                        bytes@.subrange(cur2 as int, blen),
                        enc_words(gw, i + 1) + (enc_u64(gss.len() as u64) + enc_sources(gss, 0)),
                    );
                    assert(wv == gw[i as int]);
                    // a fresh word: the premise vocabulary has no duplicates
                    assert(!v0.contains(wv)) by {
                        if v0.contains(wv) {
                            let k = choose|k: int| 0 <= k < v0.len() && v0[k] == wv;
                            assert(gw[k] == gw[i as int]);
                            assert(false);
                        }
                    }
                }
            }
            let idx = match vocab.intern(w) {
                Some(idx) => idx,
                None => {
                    proof {
                        if ex {
                            assert(false);
                        }
                    }
                    return None;
                },
            };
            if idx as usize != i {
                proof {
                    if ex {
                        assert(idx == i);
                        assert(false);
                    }
                }
                return None;
            }
            proof {
                assert(vocab@ == v0.push(wv));
                assert(bytes@.subrange(0, cur2 as int) =~= bytes@.subrange(0, cur as int)
                    + bytes@.subrange(cur as int, cur2 as int));
                lemma_enc_words_snoc(v0, wv, 0);
                assert((enc_u64(n64) + enc_words(v0, 0)) + enc_word(wv) =~= enc_u64(n64)
                    + enc_words(vocab@, 0));
                if ex {
                    assert(vocab@ =~= gw.take(i + 1));
                }
            }
            cur = cur2;
            i = i + 1;
        }
        proof {
            if ex {
                assert(gw.take(count as int) =~= gw);
                assert(vocab@ == gw);
                assert(enc_words(gw, count as int) =~= Seq::<u8>::empty());
                assert(Seq::<u8>::empty() + (enc_u64(gss.len() as u64) + enc_sources(gss, 0))
                    =~= enc_u64(gss.len() as u64) + enc_sources(gss, 0));
                lemma_peel(bytes@, cur as int, enc_u64(gss.len() as u64), enc_sources(gss, 0));
            }
        }
        let (s64, cur2) = match read_u64(bytes, cur) {
            Some(p) => p,
            None => {
                proof {
                    if ex {
                        assert(false);
                    }
                }
                return None;
            },
        };
        proof {
            if ex {
                lemma_enc_u64_inj(s64, gss.len() as u64);
                assert(s64 == gss.len() as u64);
                assert(bytes@.subrange(cur2 as int, blen) == enc_sources(gss, 0));
            }
        }
        if s64 > usize::MAX as u64 {
            proof {
                if ex {
                    assert(gss.len() <= usize::MAX);
                    assert(false);
                }
            }
            return None;
        }
        let scount = s64 as usize;
        let ghost base1 = bytes@.subrange(0, cur2 as int);
        cur = cur2;
        let mut sources: Vec<TextSource> = Vec::new();
        let mut s: usize = 0;
        while s < scount
            invariant
                s <= scount,
                scount == s64 as usize,
                s64 <= usize::MAX as u64,
                cur <= bytes@.len(),
                blen == bytes@.len() as int,
                vocab.wf(),
                vocab@.len() == n64 as usize,
                n64 <= WORD_IDX_LIMIT as u64,
                base1 == enc_u64(n64) + enc_words(vocab@, 0) + enc_u64(s64),
                sources@.len() == s,
                bytes@.subrange(0, cur as int) == base1 + enc_sources(sources@, 0),
                forall|k: int|
                    0 <= k < sources@.len() ==> (#[trigger] sources@[k]).wf_for(vocab@.len()),
                forall|k: int|
                    0 <= k < sources@.len() ==> (#[trigger] sources@[k]).name@.len()
                        <= usize::MAX,
                ex == (exists|w: Seq<Seq<char>>, ss: Seq<TextSource>|
                    valid_snapshot_view(w, ss) && bytes@ == enc_chain(w, ss)),
                gw == gp.0 && gss == gp.1,
                ex ==> valid_snapshot_view(gw, gss) && vocab@ == gw && gss.len() == scount
                    && bytes@.subrange(cur as int, blen) == enc_sources(gss, s as int),
            decreases scount - s,
        {
            let ghost ss0 = sources@;
            proof {
                if ex {
                    lemma_sources_head(gss, s as int, bytes@, cur as int);
                    assert(gss[s as int].name@.len() <= usize::MAX);
                }
            }
            let (name, pn) = match read_word(bytes, cur) {
                Some(p) => p,
                None => {
                    proof {
                        if ex {
                            assert(false);
                        }
                    }
                    return None;
                },
            };
            proof {
                if ex {
                    assert(usize::MAX <= u64::MAX);
                    lemma_source_name_align(
                        gss,
                        s as int,
                        bytes@,
                        cur as int,
                        pn as int,
                        name@,
                    );
                    lemma_peel(
                        bytes@,
                        pn as int,
                        enc_u64(gss[s as int].entries@.len() as u64),
                        enc_entries(gss[s as int].entries@, 0) + enc_sources(gss, s + 1),
                    );
                }
            }
            let (e64, pe) = match read_u64(bytes, pn) {
                Some(p) => p,
                None => {
                    proof {
                        if ex {
                            assert(false);
                        }
                    }
                    return None;
                },
            };
            proof {
                if ex {
                    lemma_enc_u64_inj(e64, gss[s as int].entries@.len() as u64);
                    assert(e64 == gss[s as int].entries@.len() as u64);
                    assert(bytes@.subrange(pe as int, blen) == enc_entries(
                        gss[s as int].entries@,
                        0,
                    ) + enc_sources(gss, s + 1));
                    assert(gss[s as int].entries@.len() <= usize::MAX);
                }
            }
            if e64 > usize::MAX as u64 {
                proof {
                    if ex {
                        assert(false);
                    }
                }
                return None;
            }
            let ecount = e64 as usize;
            let mut entries: Vec<ChainEntry> = Vec::new();
            let mut ecur = pe;
            let mut t: usize = 0;
            while t < ecount
                invariant
                    t <= ecount,
                    ecount == e64 as usize,
                    e64 <= usize::MAX as u64,
                    pe <= ecur <= bytes@.len(),
                    blen == bytes@.len() as int,
                    vocab.wf(),
                    vocab@.len() <= WORD_IDX_LIMIT,
                    entries@.len() == t,
                    bytes@.subrange(pe as int, ecur as int) == enc_entries(entries@, 0),
                    forall|k: int|
                        0 <= k < entries@.len() ==> (#[trigger] entries@[k]).valid_for(
                            vocab@.len(),
                        ),
                    ex == (exists|w: Seq<Seq<char>>, ss: Seq<TextSource>|
                        valid_snapshot_view(w, ss) && bytes@ == enc_chain(w, ss)),
                    gw == gp.0 && gss == gp.1,
                    s < scount,
                    ex ==> valid_snapshot_view(gw, gss) && vocab@ == gw && s < gss.len()
                        && gss[s as int].entries@.len() == ecount && bytes@.subrange(
                        ecur as int,
                        blen,
                    ) == enc_entries(gss[s as int].entries@, t as int) + enc_sources(gss, s + 1),
                decreases ecount - t,
            {
                let ghost es0 = entries@;
                let vl = vocab.len();
                proof {
                    if ex {
                        let ge = gss[s as int].entries@[t as int];
                        assert(enc_entries(gss[s as int].entries@, t as int) == enc_entry(ge)
                            + enc_entries(gss[s as int].entries@, t + 1));
                        assert((enc_entry(ge) + enc_entries(gss[s as int].entries@, t + 1))
                            + enc_sources(gss, s + 1) =~= enc_entry(ge) + (enc_entries(
                            gss[s as int].entries@,
                            t + 1,
                        ) + enc_sources(gss, s + 1)));
                        lemma_peel(
                            bytes@,
                            ecur as int,
                            enc_entry(ge),
                            enc_entries(gss[s as int].entries@, t + 1) + enc_sources(gss, s + 1),
                        );
                        assert(gss[s as int].wf_for(gw.len() as nat));
                        assert(ge.valid_for(vl as nat));
                    }
                }
                let (e, pnext) = match read_entry(bytes, ecur, vl) {
                    Some(p) => p,
                    None => {
                        proof {
                            if ex {
                                assert(false);
                            }
                        }
                        return None;
                    },
                };
                proof {
                    assert(bytes@.subrange(pe as int, pnext as int) =~= bytes@.subrange(
                        pe as int,
                        ecur as int,
                    ) + bytes@.subrange(ecur as int, pnext as int));
                    lemma_enc_entries_snoc(es0, e, 0);
                    assert(enc_entries(es0, 0) + enc_entry(e) =~= enc_entries(es0.push(e), 0));
                    if ex {
                        let ge = gss[s as int].entries@[t as int];
                        assert(bytes@.subrange(ecur as int, blen) =~= bytes@.subrange(
                            ecur as int,
                            pnext as int,
                        ) + bytes@.subrange(pnext as int, blen));
                        lemma_enc_entry_inj(
                            e,
                            ge,
                            bytes@.subrange(pnext as int, blen),
                            enc_entries(gss[s as int].entries@, t + 1) + enc_sources(gss, s + 1),
                        );
                    }
                }
                entries.push(e);
                ecur = pnext;
                t = t + 1;
            }
            let src = TextSource { name, entries };
            proof {
                assert(src.entries@.len() as u64 == e64);
                assert(bytes@.subrange(cur as int, ecur as int) =~= bytes@.subrange(
                    cur as int,
                    pn as int,
                ) + bytes@.subrange(pn as int, pe as int) + bytes@.subrange(
                    pe as int,
                    ecur as int,
                ));
                assert(bytes@.subrange(cur as int, ecur as int) == enc_source(src));
                assert(bytes@.subrange(0, ecur as int) =~= bytes@.subrange(0, cur as int)
                    + bytes@.subrange(cur as int, ecur as int));
                lemma_enc_sources_snoc(ss0, src, 0);
                assert((base1 + enc_sources(ss0, 0)) + enc_source(src) =~= base1 + enc_sources(
                    ss0.push(src),
                    0,
                ));
                if ex {
                    assert(enc_entries(gss[s as int].entries@, ecount as int) =~= Seq::<
                        u8,
                    >::empty());
                    assert(Seq::<u8>::empty() + enc_sources(gss, s + 1) =~= enc_sources(
                        gss,
                        s + 1,
                    ));
                    assert(bytes@.subrange(ecur as int, blen) == enc_sources(gss, s + 1));
                }
            }
            sources.push(src);
            cur = ecur;
            s = s + 1;
        }
        if cur != bytes.len() {
            proof {
                if ex {
                    assert(enc_sources(gss, scount as int) =~= Seq::<u8>::empty());
                    assert(bytes@.subrange(cur as int, blen).len() == 0);
                    assert(false);
                }
            }
            return None;
        }
        let c = MarkovChain { words: vocab, sources };
        proof {
            assert(c.words@.len() as u64 == n64);
            assert(c.sources@.len() as u64 == s64);
            assert(bytes@.subrange(0, bytes@.len() as int) =~= bytes@);
            assert(bytes@ == enc_chain(c.words@, c.sources@));
            assert forall|k: int|
                0 <= k < c.sources@.len() implies (#[trigger] c.sources@[k]).entries@.len()
                <= usize::MAX by {
                let v = &c.sources[k as int].entries;
                vstd::std_specs::vec::axiom_spec_len(v);
            }
            assert(snapshot_bounded(c.words@, c.sources@));
        }
        Some(c)
    }
}

proof fn lemma_enc_sources_snoc(ss: Seq<TextSource>, s: TextSource, i: int)
    requires
        0 <= i <= ss.len(),
    ensures
        enc_sources(ss.push(s), i) == enc_sources(ss, i) + enc_source(s),
    decreases ss.len() - i,
{
    let sp = ss.push(s);
    if i == ss.len() {
        assert(enc_sources(sp, i + 1) =~= Seq::<u8>::empty());
        assert(enc_sources(sp, i) =~= enc_sources(ss, i) + enc_source(s));
    } else {
        lemma_enc_sources_snoc(ss, s, i + 1);
        assert(sp[i] == ss[i]);
        assert(enc_sources(sp, i) =~= enc_sources(ss, i) + enc_source(s));
    }
}


impl MarkovChain {
    /// The snapshot round trip is lossless: decoding a well-formed chain's
    /// own snapshot always succeeds and reproduces an equal vocabulary and,
    /// source by source, an equal pattern literal and an equal entry list.
    pub fn snapshot_round_trip(&self) -> (r: MarkovChain)
        requires
            self.wf(),
        ensures
            r.wf(),
            r.words@ == self.words@,
            r.sources@.len() == self.sources@.len(),
            forall|k: int|
                0 <= k < r.sources@.len() ==> (#[trigger] r.sources@[k]).name@
                    == self.sources@[k].name@ && r.sources@[k].entries@
                    == self.sources@[k].entries@,
    {
        let bytes = self.to_snapshot();
        proof {
            assert(valid_snapshot_view(self.words@, self.sources@));
        }
        match MarkovChain::from_snapshot(&bytes) {
            Some(c) => {
                proof {
                    lemma_snapshot_determines_chain(
                        c.words@,
                        c.sources@,
                        self.words@,
                        self.sources@,
                    );
                }
                c
            },
            None => {
                proof {
                    assert(false);
                }
                MarkovChain::new()
            },
        }
    }
}

} // verus!
