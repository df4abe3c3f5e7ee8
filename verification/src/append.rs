//! Ingestion: tokenizing raw text into words with sentence flags, interning
//! them, and sliding a three-word window over the result to build transition
//! entries.
//!
//! Words are maximal runs of non-separator characters (separators are the
//! space and the newline). A word is sentence-terminal when the separator
//! right after it is a newline and the input treats newlines as terminators,
//! when it ends with `.`, `?` or `!`, or when it is the last word of the
//! input. Fewer than three words yield no entries; otherwise each window of
//! three consecutive words yields one entry, the first window marked
//! sentence-starting and every later one starting exactly when the previous
//! window's suffix was terminal.

use vstd::prelude::*;
use crate::chain::{ChainEntry, ChainPrefix, ChainSuffix, Datestamp, MarkovChain, TextSource,
    WORD_IDX_LIMIT};
use crate::vocab::{vocab_index, vocab_insert, Vocabulary};
use vstd::string::StrSliceExecFns;

verus! {

/// The two characters that separate words.
pub open spec fn is_word_sep(c: char) -> bool {
    c == ' ' || c == '\n'
}

/// Whitespace stripped from the outside of an input before tokenizing.
pub open spec fn is_outer_ws(c: char) -> bool {
    c == ' ' || c == '\n' || c == '\t' || c == '\r'
}

pub open spec fn drop_leading_ws(s: Seq<char>) -> Seq<char>
    decreases s.len(),
{
    if s.len() > 0 && is_outer_ws(s[0]) {
        drop_leading_ws(s.drop_first())
    } else {
        s
    }
}

pub open spec fn drop_trailing_ws(s: Seq<char>) -> Seq<char>
    decreases s.len(),
{
    if s.len() > 0 && is_outer_ws(s.last()) {
        drop_trailing_ws(s.drop_last())
    } else {
        s
    }
}

/// The input with outer whitespace removed.
pub open spec fn spec_trim(s: Seq<char>) -> Seq<char> {
    drop_trailing_ws(drop_leading_ws(s))
}

/// A word ends a sentence when its last character is closing punctuation.
pub open spec fn ends_sentence(w: Seq<char>) -> bool {
    w.len() > 0 && (w.last() == '.' || w.last() == '?' || w.last() == '!')
}

/// Position of the first separator at or after `i`, or the end.
pub open spec fn next_sep(s: Seq<char>, i: int) -> int
    decreases s.len() - i,
{
    if i < 0 || i >= s.len() {
        s.len() as int
    } else if is_word_sep(s[i]) {
        i
    } else {
        next_sep(s, i + 1)
    }
}

pub proof fn lemma_next_sep(s: Seq<char>, i: int)
    requires
        0 <= i <= s.len(),
    ensures
        i <= next_sep(s, i) <= s.len(),
        next_sep(s, i) < s.len() ==> is_word_sep(s[next_sep(s, i)]),
        forall|k: int| i <= k < next_sep(s, i) ==> !is_word_sep(s[k]),
        i < s.len() && !is_word_sep(s[i]) ==> next_sep(s, i) > i,
    decreases s.len() - i,
{
    if i < s.len() && !is_word_sep(s[i]) {
        lemma_next_sep(s, i + 1);
    }
}

/// The tokens of `s` from position `i` on: each maximal run of non-separator
/// characters, paired with its sentence-terminal flag.
pub open spec fn spec_tokens_from(s: Seq<char>, nl_term: bool, i: int) -> Seq<(Seq<char>, bool)>
    decreases s.len() - i,
    via spec_tokens_from_dec
{
    if i < 0 || i >= s.len() {
        Seq::empty()
    } else if is_word_sep(s[i]) {
        spec_tokens_from(s, nl_term, i + 1)
    } else {
        let j = next_sep(s, i);
        let w = s.subrange(i, j);
        if j >= s.len() {
            seq![(w, true)]
        } else {
            seq![(w, (nl_term && s[j] == '\n') || ends_sentence(w))] + spec_tokens_from(
                s,
                nl_term,
                j + 1,
            )
        }
    }
}

#[via_fn]
proof fn spec_tokens_from_dec(s: Seq<char>, nl_term: bool, i: int) {
    if 0 <= i < s.len() && !is_word_sep(s[i]) {
        lemma_next_sep(s, i);
    }
}

/// The tokens of a whole (already trimmed) input.
pub open spec fn spec_tokens(s: Seq<char>, nl_term: bool) -> Seq<(Seq<char>, bool)> {
    spec_tokens_from(s, nl_term, 0)
}

fn is_word_sep_exec(c: char) -> (r: bool)
    ensures
        r == is_word_sep(c),
{
    c == ' ' || c == '\n'
}

fn is_outer_ws_exec(c: char) -> (r: bool)
    ensures
        r == is_outer_ws(c),
{
    c == ' ' || c == '\n' || c == '\t' || c == '\r'
}

proof fn lemma_drop_leading_ws_at(s: Seq<char>, k: int)
    requires
        0 <= k <= s.len(),
        forall|j: int| 0 <= j < k ==> is_outer_ws(s[j]),
        k < s.len() ==> !is_outer_ws(s[k]),
    ensures
        drop_leading_ws(s) == s.subrange(k, s.len() as int),
    decreases k,
{
    if k == 0 {
        assert(s.subrange(0, s.len() as int) =~= s);
    } else {
        let t = s.drop_first();
        assert(is_outer_ws(s[0]));
        lemma_drop_leading_ws_at(t, k - 1);
        assert(t.subrange(k - 1, t.len() as int) =~= s.subrange(k, s.len() as int));
    }
}

proof fn lemma_drop_trailing_ws_at(s: Seq<char>, k: int)
    requires
        0 <= k <= s.len(),
        forall|j: int| k <= j < s.len() ==> is_outer_ws(s[j]),
        k > 0 ==> !is_outer_ws(s[k - 1]),
    ensures
        drop_trailing_ws(s) == s.subrange(0, k),
    decreases s.len(),
{
    if k == s.len() {
        if s.len() > 0 && is_outer_ws(s.last()) {
            assert(false);
        }
        assert(s.subrange(0, s.len() as int) =~= s);
    } else {
        assert(is_outer_ws(s.last()));
        let t = s.drop_last();
        lemma_drop_trailing_ws_at(t, k);
        assert(t.subrange(0, k) =~= s.subrange(0, k));
    }
}

/// The input with outer whitespace removed.
pub fn trim_outer(text: &str) -> (r: &str)
    ensures
        r@ == spec_trim(text@),
{
    let n = text.unicode_len();
    let mut start: usize = 0;
    while start < n && is_outer_ws_exec(text.get_char(start))
        invariant
            start <= n,
            n == text@.len(),
            forall|j: int| 0 <= j < start ==> is_outer_ws(text@[j]),
        decreases n - start,
    {
        start = start + 1;
    }
    let mut end: usize = n;
    while end > start && is_outer_ws_exec(text.get_char(end - 1))
        invariant
            start <= end <= n,
            n == text@.len(),
            forall|j: int| end <= j < n ==> is_outer_ws(text@[j]),
        decreases end,
    {
        end = end - 1;
    }
    let r = text.substring_char(start, end);
    proof {
        let s = text@;
        lemma_drop_leading_ws_at(s, start as int);
        let t = s.subrange(start as int, n as int);
        if start == n {
            lemma_drop_trailing_ws_at(t, 0);
            assert(r@ =~= spec_trim(s));
        } else {
            lemma_drop_trailing_ws_at(t, end - start);
            assert(t.subrange(0, end - start) =~= s.subrange(start as int, end as int));
            assert(r@ =~= spec_trim(s));
        }
    }
    r
}

/// Tokenizes an input: trims it, splits it on spaces and newlines discarding
/// empty fragments, and flags each word that ends a sentence.
pub fn tokenize(text: &str, newlines_terminal: bool) -> (r: Vec<(String, bool)>)
    ensures
        ({
            let ts = spec_tokens(spec_trim(text@), newlines_terminal);
            &&& r@.len() == ts.len()
            &&& forall|k: int|
                0 <= k < r@.len() ==> ((#[trigger] r@[k]).0@, r@[k].1) == ts[k]
        }),
{
    let t = trim_outer(text);
    let n = t.unicode_len();
    let ghost ts = spec_tokens(t@, newlines_terminal);
    let mut toks: Vec<(String, bool)> = Vec::new();
    let mut i: usize = 0;
    while i < n
        invariant
            i <= n,
            n == t@.len(),
            ts == spec_tokens(t@, newlines_terminal),
            toks@.len() <= ts.len(),
            spec_tokens_from(t@, newlines_terminal, i as int) == ts.skip(toks@.len() as int),
            forall|k: int|
                0 <= k < toks@.len() ==> ((#[trigger] toks@[k]).0@, toks@[k].1) == ts[k],
        decreases n - i,
    {
        let ghost m = toks@.len() as int;
        let c = t.get_char(i);
        if is_word_sep_exec(c) {
            i = i + 1;
        } else {
            let mut j = i + 1;
            while j < n && !is_word_sep_exec(t.get_char(j))
                invariant
                    i < j <= n,
                    n == t@.len(),
                    forall|k: int| i <= k < j ==> !is_word_sep(t@[k]),
                decreases n - j,
            {
                j = j + 1;
            }
            proof {
                lemma_next_sep(t@, i as int);
                let ns = next_sep(t@, i as int);
                if ns < j {
                    assert(!is_word_sep(t@[ns]));
                    assert(false);
                }
                if j < ns {
                    assert(!is_word_sep(t@[j as int]));
                    assert(false);
                }
                assert(ns == j as int);
            }
            let word = t.substring_char(i, j).to_owned();
            let terminal: bool = if j >= n {
                true
            } else {
                let sep = t.get_char(j);
                let lastc = t.get_char(j - 1);
                (newlines_terminal && sep == '\n') || lastc == '.' || lastc == '?' || lastc == '!'
            };
            proof {
                let w = t@.subrange(i as int, j as int);
                assert(w.len() > 0);
                assert(w.last() == t@[j - 1]);
                if j < n {
                    assert(terminal == ((newlines_terminal && t@[j as int] == '\n')
                        || ends_sentence(w)));
                    assert(spec_tokens_from(t@, newlines_terminal, i as int) == seq![(w, terminal)]
                        + spec_tokens_from(t@, newlines_terminal, j + 1));
                } else {
                    assert(spec_tokens_from(t@, newlines_terminal, i as int) == seq![(w, true)]);
                }
                assert(ts.skip(m).len() == ts.len() - m);
                assert(ts.skip(m).len() >= 1);
                assert(ts.skip(m)[0] == (w, terminal));
                assert(ts[m] == ts.skip(m)[0]);
            }
            toks.push((word, terminal));
            proof {
                let w = t@.subrange(i as int, j as int);
                if j < n {
                    let rest = spec_tokens_from(t@, newlines_terminal, j + 1);
                    assert(seq![(w, terminal)] + rest == ts.skip(m));
                    assert(rest.len() == ts.len() - m - 1);
                    assert forall|k: int| 0 <= k < rest.len() implies rest[k] == ts.skip(m + 1)[k]
                    by {
                        assert((seq![(w, terminal)] + rest)[k + 1] == rest[k]);
                        assert(ts.skip(m)[k + 1] == ts[m + 1 + k]);
                        assert(ts.skip(m + 1)[k] == ts[m + 1 + k]);
                    }
                    assert(rest =~= ts.skip(m + 1));
                } else {
                    assert(ts.skip(m).len() == 1);
                    assert(ts.len() == m + 1);
                    assert(spec_tokens_from(t@, newlines_terminal, n as int) =~= ts.skip(m + 1));
                }
            }
            i = if j < n {
                j + 1
            } else {
                n
            };
        }
    }
    proof {
        assert(spec_tokens_from(t@, newlines_terminal, n as int) =~= Seq::<(Seq<char>,
            bool)>::empty());
        assert(ts.skip(toks@.len() as int).len() == 0);
    }
    toks
}

/// The token views of an executable token list.
pub open spec fn token_views(ts: Seq<(String, bool)>) -> Seq<(Seq<char>, bool)> {
    Seq::new(ts.len(), |k: int| (ts[k].0@, ts[k].1))
}

/// The vocabulary after the tokens from position `i` on are interned in order.
pub open spec fn vocab_after(v: Seq<Seq<char>>, toks: Seq<(Seq<char>, bool)>, i: int) -> Seq<
    Seq<char>,
>
    decreases toks.len() - i,
{
    if i < 0 || i >= toks.len() {
        v
    } else {
        vocab_after(vocab_insert(v, toks[i].0), toks, i + 1)
    }
}

/// The (word index, terminal flag) stream the tokens from position `i` on
/// intern to.
pub open spec fn spec_indexed(v: Seq<Seq<char>>, toks: Seq<(Seq<char>, bool)>, i: int) -> Seq<
    (u32, bool),
>
    decreases toks.len() - i,
{
    if i < 0 || i >= toks.len() {
        Seq::empty()
    } else {
        seq![(vocab_index(v, toks[i].0) as u32, toks[i].1)] + spec_indexed(
            vocab_insert(v, toks[i].0),
            toks,
            i + 1,
        )
    }
}

pub proof fn lemma_vocab_after_len(v: Seq<Seq<char>>, toks: Seq<(Seq<char>, bool)>, i: int)
    ensures
        vocab_after(v, toks, i).len() >= v.len(),
    decreases toks.len() - i,
{
    if 0 <= i < toks.len() {
        lemma_vocab_after_len(vocab_insert(v, toks[i].0), toks, i + 1);
    }
}

pub proof fn lemma_spec_indexed_len(v: Seq<Seq<char>>, toks: Seq<(Seq<char>, bool)>, i: int)
    requires
        0 <= i <= toks.len(),
    ensures
        spec_indexed(v, toks, i).len() == toks.len() - i,
    decreases toks.len() - i,
{
    if i < toks.len() {
        lemma_spec_indexed_len(vocab_insert(v, toks[i].0), toks, i + 1);
    }
}

/// Interns every token in order, growing the vocabulary as new words appear.
/// Fails only when a new word would push the vocabulary past its 31-bit
/// capacity; the index stream otherwise pairs each token's index with its
/// terminal flag.
pub fn intern_tokens(vocab: &mut Vocabulary, toks: &Vec<(String, bool)>) -> (r: Option<
    Vec<(u32, bool)>,
>)
    requires
        old(vocab).wf(),
    ensures
        final(vocab).wf(),
        match r {
            Some(ix) => {
                &&& final(vocab)@ == vocab_after(old(vocab)@, token_views(toks@), 0)
                &&& ix@ == spec_indexed(old(vocab)@, token_views(toks@), 0)
                &&& ix@.len() == toks@.len()
                &&& forall|k: int|
                    0 <= k < ix@.len() ==> (#[trigger] ix@[k]).0 < final(vocab)@.len()
            },
            None => vocab_after(old(vocab)@, token_views(toks@), 0).len() > WORD_IDX_LIMIT
                && final(vocab)@.len() >= old(vocab)@.len(),
        },
{
    let ghost tv = token_views(toks@);
    let ghost v0 = vocab@;
    let ghost full = spec_indexed(v0, tv, 0);
    proof {
        lemma_spec_indexed_len(v0, tv, 0);
    }
    let mut out: Vec<(u32, bool)> = Vec::new();
    let mut m: usize = 0;
    while m < toks.len()
        invariant
            m <= toks@.len(),
            v0 == old(vocab)@,
            tv == token_views(toks@),
            tv.len() == toks@.len(),
            full == spec_indexed(v0, tv, 0),
            full.len() == toks@.len(),
            vocab.wf(),
            vocab@.len() >= v0.len(),
            out@.len() == m,
            vocab_after(v0, tv, 0) == vocab_after(vocab@, tv, m as int),
            spec_indexed(vocab@, tv, m as int) == full.skip(m as int),
            forall|k: int| 0 <= k < m ==> #[trigger] out@[k] == full[k],
            forall|k: int| 0 <= k < m ==> (#[trigger] out@[k]).0 < vocab@.len(),
        decreases toks@.len() - m,
    {
        let ghost v_cur = vocab@;
        let w = toks[m].0.clone();
        let flag = toks[m].1;
        proof {
            assert(tv[m as int] == (toks@[m as int].0@, toks@[m as int].1));
            lemma_spec_indexed_len(vocab_insert(v_cur, tv[m as int].0), tv, m + 1);
        }
        match vocab.intern(w) {
            Some(idx) => {
                out.push((idx, flag));
                proof {
                    let rest = spec_indexed(vocab@, tv, m + 1);
                    assert(spec_indexed(v_cur, tv, m as int) == seq![
                        (vocab_index(v_cur, tv[m as int].0) as u32, tv[m as int].1),
                    ] + rest);
                    assert(full.skip(m as int)[0] == full[m as int]);
                    assert(out@[m as int] == full[m as int]);
                    assert(rest.len() == full.len() - m - 1);
                    assert forall|k: int| 0 <= k < rest.len() implies rest[k] == full.skip(
                        m + 1,
                    )[k] by {
                        assert((seq![
                            (vocab_index(v_cur, tv[m as int].0) as u32, tv[m as int].1),
                        ] + rest)[k + 1] == rest[k]);
                        assert(full.skip(m as int)[k + 1] == full[k + m + 1]);
                        assert(full.skip(m + 1)[k] == full[k + m + 1]);
                    }
                    assert(rest =~= full.skip(m + 1));
                    // older indices stay valid: the vocabulary only grows
                    assert(vocab@ == vocab_insert(v_cur, tv[m as int].0));
                    assert(vocab@.len() >= v_cur.len());
                }
                m = m + 1;
            },
            None => {
                proof {
                    assert(vocab_after(vocab@, tv, m as int) == vocab_after(
                        vocab_insert(vocab@, tv[m as int].0),
                        tv,
                        m + 1,
                    ));
                    assert(vocab_insert(vocab@, tv[m as int].0).len() == WORD_IDX_LIMIT + 1);
                    lemma_vocab_after_len(vocab_insert(vocab@, tv[m as int].0), tv, m + 1);
                }
                return None;
            },
        }
    }
    proof {
        assert(spec_indexed(vocab@, tv, m as int) =~= Seq::<(u32, bool)>::empty());
        assert(full.skip(m as int).len() == 0);
        assert(out@ =~= full);
        assert(vocab_after(vocab@, tv, m as int) == vocab@);
        // every emitted index lies below the final vocabulary size
        assert forall|k: int| 0 <= k < out@.len() implies (#[trigger] out@[k]).0 < vocab@.len()
        by {}
    }
    Some(out)
}

/// The entry the three-word window starting at token `i` yields.
pub open spec fn spec_entry_at(ix: Seq<(u32, bool)>, ds: Datestamp, i: int) -> ChainEntry {
    ChainEntry {
        prefix: ChainPrefix::spec_make(ix[i].0, ix[i + 1].0, i == 0 || ix[i + 1].1),
        suffix: ChainSuffix::spec_make(ix[i + 2].0, ix[i + 2].1),
        datestamp: ds,
    }
}

/// The entries an indexed token stream yields: none for fewer than three
/// tokens, else one per three-token window, in order.
pub open spec fn spec_entries(ix: Seq<(u32, bool)>, ds: Datestamp) -> Seq<ChainEntry> {
    if ix.len() < 3 {
        Seq::empty()
    } else {
        Seq::new((ix.len() - 2) as nat, |i: int| spec_entry_at(ix, ds, i))
    }
}

/// Slides the three-word window over the indexed tokens. For `N` tokens,
/// `N < 3` yields no entries and `N >= 3` yields exactly `N - 2`, in order;
/// the first entry is sentence-starting, and each later entry is starting
/// exactly when the entry before it had a terminal suffix.
pub fn build_entries(indexed: &Vec<(u32, bool)>, datestamp: Datestamp) -> (r: Vec<ChainEntry>)
    requires
        forall|k: int| 0 <= k < indexed@.len() ==> (#[trigger] indexed@[k]).0 <= WORD_IDX_LIMIT,
    ensures
        r@ == spec_entries(indexed@, datestamp),
        indexed@.len() < 3 ==> r@.len() == 0,
        indexed@.len() >= 3 ==> r@.len() == indexed@.len() - 2,
        r@.len() > 0 ==> r@[0].prefix.spec_starting(),
        forall|i: int|
            1 <= i < r@.len() ==> (#[trigger] r@[i]).prefix.spec_starting() == r@[i
                - 1].suffix.spec_terminal(),
        forall|i: int|
            0 <= i < r@.len() ==> {
                let e = #[trigger] r@[i];
                &&& e.prefix.spec_idx0() == indexed@[i].0
                &&& e.prefix.spec_idx1() == indexed@[i + 1].0
                &&& e.prefix.spec_starting() == (i == 0 || indexed@[i + 1].1)
                &&& e.suffix.spec_idx() == indexed@[i + 2].0
                &&& e.suffix.spec_terminal() == indexed@[i + 2].1
                &&& e.datestamp == datestamp
            },
{
    let mut out: Vec<ChainEntry> = Vec::new();
    if indexed.len() < 3 {
        proof {
            assert(out@ =~= spec_entries(indexed@, datestamp));
        }
        return out;
    }
    let n = indexed.len();
    let count = n - 2;
    let mut i: usize = 0;
    let mut is_prefix_starting = true;
    while i < count
        invariant
            n == indexed@.len(),
            count == n - 2,
            n >= 3,
            i <= count,
            out@.len() == i,
            forall|k: int|
                0 <= k < indexed@.len() ==> (#[trigger] indexed@[k]).0 <= WORD_IDX_LIMIT,
            is_prefix_starting == (i == 0 || indexed@[i as int + 1].1),
            forall|k: int| 0 <= k < i ==> #[trigger] out@[k] == spec_entry_at(
                indexed@,
                datestamp,
                k,
            ),
        decreases count - i,
    {
        let (idx0, _f0) = indexed[i];
        let (idx1, _f1) = indexed[i + 1];
        let (idx2, f2) = indexed[i + 2];
        let prefix = ChainPrefix::new([idx0, idx1], is_prefix_starting);
        let suffix = ChainSuffix::new(idx2, f2);
        out.push(ChainEntry { prefix, suffix, datestamp });
        is_prefix_starting = f2;
        i = i + 1;
    }
    proof {
        assert(out@ =~= spec_entries(indexed@, datestamp));
        assert forall|i: int| 0 <= i < out@.len() implies {
            let e = #[trigger] out@[i];
            &&& e.prefix.spec_idx0() == indexed@[i].0
            &&& e.prefix.spec_idx1() == indexed@[i + 1].0
            &&& e.prefix.spec_starting() == (i == 0 || indexed@[i + 1].1)
            &&& e.suffix.spec_idx() == indexed@[i + 2].0
            &&& e.suffix.spec_terminal() == indexed@[i + 2].1
            &&& e.datestamp == datestamp
        } by {
            crate::chain::lemma_prefix_make(
                indexed@[i].0,
                indexed@[i + 1].0,
                i == 0 || indexed@[i + 1].1,
            );
            crate::chain::lemma_suffix_make(indexed@[i + 2].0, indexed@[i + 2].1);
        }
    }
    out
}

/// The first source whose pattern literal equals `name`, or -1 when none
/// matches.
pub open spec fn find_source(ss: Seq<TextSource>, name: Seq<char>) -> int
    decreases ss.len(),
{
    if ss.len() == 0 {
        -1
    } else if ss[0].name@ == name {
        0
    } else {
        let r = find_source(ss.drop_first(), name);
        if r < 0 {
            -1
        } else {
            r + 1
        }
    }
}

pub proof fn lemma_find_source_at(ss: Seq<TextSource>, name: Seq<char>, i: int)
    requires
        0 <= i <= ss.len(),
        forall|k: int| 0 <= k < i ==> (#[trigger] ss[k]).name@ != name,
        i < ss.len() ==> ss[i].name@ == name,
    ensures
        i < ss.len() ==> find_source(ss, name) == i,
        i == ss.len() ==> find_source(ss, name) == -1,
    decreases ss.len(),
{
    if ss.len() == 0 {
    } else if ss[0].name@ == name {
        assert(i == 0);
    } else {
        let tail = ss.drop_first();
        assert(forall|k: int| 0 <= k < i - 1 ==> (#[trigger] tail[k]).name@ != name);
        lemma_find_source_at(tail, name, i - 1);
    }
}

pub proof fn lemma_find_source_props(ss: Seq<TextSource>, name: Seq<char>)
    ensures
        -1 <= find_source(ss, name) < ss.len(),
        find_source(ss, name) >= 0 ==> ss[find_source(ss, name)].name@ == name,
        find_source(ss, name) < 0 ==> forall|k: int|
            0 <= k < ss.len() ==> (#[trigger] ss[k]).name@ != name,
    decreases ss.len(),
{
    if ss.len() > 0 && ss[0].name@ != name {
        let tail = ss.drop_first();
        lemma_find_source_props(tail, name);
        if find_source(ss, name) < 0 {
            assert forall|k: int| 0 <= k < ss.len() implies (#[trigger] ss[k]).name@ != name by {
                if k >= 1 {
                    assert(ss[k] == tail[k - 1]);
                }
            }
        }
    }
}

/// Finds the source holding entries for `name`, creating an empty one at the
/// end of the list on first sight of a new pattern literal.
fn source_index_for(sources: &mut Vec<TextSource>, name: &String) -> (idx: usize)
    ensures
        ({
            let f = find_source(old(sources)@, name@);
            &&& idx < final(sources)@.len()
            &&& final(sources)@[idx as int].name@ == name@
            &&& f >= 0 ==> final(sources)@ == old(sources)@ && idx == f
            &&& f < 0 ==> {
                &&& final(sources)@.len() == old(sources)@.len() + 1
                &&& idx == old(sources)@.len()
                &&& forall|k: int|
                    0 <= k < old(sources)@.len() ==> final(sources)@[k] == old(sources)@[k]
                &&& final(sources)@[idx as int].entries@ == Seq::<ChainEntry>::empty()
            }
        }),
{
    let n = sources.len();
    let mut i: usize = 0;
    while i < n
        invariant
            i <= n,
            n == sources@.len(),
            forall|k: int| 0 <= k < i ==> (#[trigger] sources@[k]).name@ != name@,
        decreases n - i,
    {
        if sources[i].name == *name {
            proof {
                lemma_find_source_at(sources@, name@, i as int);
            }
            return i;
        }
        i = i + 1;
    }
    proof {
        lemma_find_source_at(sources@, name@, n as int);
    }
    sources.push(TextSource { name: name.clone(), entries: Vec::new() });
    n
}

/// How a source list changes when entries are appended under a pattern
/// literal: an existing source of that literal gains them at its end, else a
/// new source holding exactly them is appended.
pub open spec fn source_appended(
    old_ss: Seq<TextSource>,
    new_ss: Seq<TextSource>,
    name: Seq<char>,
    es: Seq<ChainEntry>,
) -> bool {
    let f = find_source(old_ss, name);
    if f >= 0 {
        &&& new_ss.len() == old_ss.len()
        &&& forall|k: int| 0 <= k < old_ss.len() && k != f ==> new_ss[k] == old_ss[k]
        &&& new_ss[f].name@ == old_ss[f].name@
        &&& new_ss[f].entries@ == old_ss[f].entries@ + es
    } else {
        &&& new_ss.len() == old_ss.len() + 1
        &&& forall|k: int| 0 <= k < old_ss.len() ==> new_ss[k] == old_ss[k]
        &&& new_ss[old_ss.len() as int].name@ == name
        &&& new_ss[old_ss.len() as int].entries@ == es
    }
}

/// One event of a structured message stream, in the order the stream yields
/// them. A `Start` at depth 0 closes the message being assembled.
#[derive(Debug, Clone, PartialEq)]
pub enum MessageEvent {
    Start(usize),
    ShortNameExtracted(String),
    DateExtracted(String),
    BodyPartExtracted(String),
    Other,
}

/// A message assembled from the stream: attribution short name, timestamp,
/// and concatenated body.
#[derive(Debug, Clone, PartialEq)]
pub struct ExtractedMessage {
    pub short_name: String,
    pub datestamp: Datestamp,
    pub body: String,
}

/// A fatal ingestion fault: a timestamp that does not parse, or growth past
/// the vocabulary's 31-bit capacity.
#[derive(Debug, Clone, Copy, PartialEq, Eq, Structural)]
pub enum AppendError {
    MalformedTimestamp,
    VocabularyFull,
}

/// What a timestamp string of the form `YYYY.MM.DD HH:MM:SS` parses to: the
/// calendar year and the ordinal day of that year, or nothing when malformed.
pub uninterp spec fn datestamp_of(s: Seq<char>) -> Option<Datestamp>;

/// Relies on chrono's `NaiveDateTime::parse_from_str` with the fixed format
/// `%Y.%m.%d %H:%M:%S`, and on `Datelike::year` and `Datelike::ordinal`: the
/// result depends on the characters alone.
#[verifier::external_body]
fn parse_datestamp(s: &str) -> (r: Option<Datestamp>)
    ensures
        r == datestamp_of(s@),
{
    chrono::NaiveDateTime::parse_from_str(s, "%Y.%m.%d %H:%M:%S").ok().map(
        |t| Datestamp {
            year: chrono::Datelike::year(&t) as i16,
            day: chrono::Datelike::ordinal(&t) as u16,
        },
    )
}

/// Every date event in the stream carries a parseable timestamp.
pub open spec fn event_dates_ok(events: Seq<MessageEvent>) -> bool {
    forall|i: int|
        0 <= i < events.len() ==> ((#[trigger] events[i]) matches MessageEvent::DateExtracted(d)
            ==> datestamp_of(d@) is Some)
}

/// The fresh assembly state a stream starts from.
pub open spec fn fresh_msg() -> (Seq<char>, Datestamp, Seq<char>) {
    (Seq::<char>::empty(), Datestamp { year: 0, day: 0 }, Seq::<char>::empty())
}

/// The messages an event stream completes from position `i` on, given the
/// message under assembly; only messages with a non-empty body count.
pub open spec fn spec_messages(
    events: Seq<MessageEvent>,
    i: int,
    cur: (Seq<char>, Datestamp, Seq<char>),
) -> Seq<(Seq<char>, Datestamp, Seq<char>)>
    decreases events.len() - i,
{
    if i < 0 || i >= events.len() {
        if cur.2.len() > 0 {
            seq![cur]
        } else {
            Seq::empty()
        }
    } else {
        match events[i] {
            MessageEvent::Start(depth) => {
                if depth == 0 {
                    let rest = spec_messages(events, i + 1, fresh_msg());
                    if cur.2.len() > 0 {
                        seq![cur] + rest
                    } else {
                        rest
                    }
                } else {
                    spec_messages(events, i + 1, cur)
                }
            },
            MessageEvent::ShortNameExtracted(s) => spec_messages(events, i + 1, (s@, cur.1, cur.2)),
            MessageEvent::DateExtracted(d) => {
                let ds = if datestamp_of(d@) is Some {
                    datestamp_of(d@)->0
                } else {
                    cur.1
                };
                spec_messages(events, i + 1, (cur.0, ds, cur.2))
            },
            MessageEvent::BodyPartExtracted(b) => spec_messages(
                events,
                i + 1,
                (cur.0, cur.1, cur.2 + b@),
            ),
            MessageEvent::Other => spec_messages(events, i + 1, cur),
        }
    }
}

/// The views of an executable message list.
pub open spec fn msg_views(ms: Seq<ExtractedMessage>) -> Seq<(Seq<char>, Datestamp, Seq<char>)> {
    Seq::new(ms.len(), |k: int| (ms[k].short_name@, ms[k].datestamp, ms[k].body@))
}

/// Folds an event stream into its completed messages. Fails exactly when
/// some date event carries a timestamp that does not parse.
pub fn extract_messages(events: &Vec<MessageEvent>) -> (r: Result<
    Vec<ExtractedMessage>,
    AppendError,
>)
    ensures
        match r {
            Ok(ms) => event_dates_ok(events@) && msg_views(ms@) == spec_messages(
                events@,
                0,
                fresh_msg(),
            ),
            Err(e) => e == AppendError::MalformedTimestamp && !event_dates_ok(events@),
        },
{
    let mut out: Vec<ExtractedMessage> = Vec::new();
    let mut cur = ExtractedMessage {
        short_name: String::new(),
        datestamp: Datestamp { year: 0, day: 0 },
        body: String::new(),
    };
    let n = events.len();
    let mut i: usize = 0;
    while i < n
        invariant
            i <= n,
            n == events@.len(),
            forall|j: int|
                0 <= j < i ==> ((#[trigger] events@[j]) matches MessageEvent::DateExtracted(d)
                    ==> datestamp_of(d@) is Some),
            spec_messages(events@, 0, fresh_msg()) == msg_views(out@) + spec_messages(
                events@,
                i as int,
                (cur.short_name@, cur.datestamp, cur.body@),
            ),
        decreases n - i,
    {
        let ghost cur0 = (cur.short_name@, cur.datestamp, cur.body@);
        let ghost out0 = out@;
        match &events[i] {
            MessageEvent::Start(depth) => {
                if *depth == 0 {
                    if cur.body.as_str().unicode_len() > 0 {
                        out.push(cur);
                        proof {
                            assert(msg_views(out@) =~= msg_views(out0).push(cur0));
                            assert(msg_views(out0).push(cur0) + spec_messages(
                                events@,
                                i + 1,
                                fresh_msg(),
                            ) =~= msg_views(out0) + (seq![cur0] + spec_messages(
                                events@,
                                i + 1,
                                fresh_msg(),
                            )));
                        }
                    }
                    cur = ExtractedMessage {
                        short_name: String::new(),
                        datestamp: Datestamp { year: 0, day: 0 },
                        body: String::new(),
                    };
                }
            },
            MessageEvent::ShortNameExtracted(s) => {
                cur.short_name = s.clone();
            },
            MessageEvent::DateExtracted(d) => {
                match parse_datestamp(d.as_str()) {
                    Some(ds) => {
                        cur.datestamp = ds;
                    },
                    None => {
                        return Err(AppendError::MalformedTimestamp);
                    },
                }
            },
            MessageEvent::BodyPartExtracted(b) => {
                cur.body.append(b.as_str());
            },
            MessageEvent::Other => {},
        }
        i = i + 1;
    }
    let ghost cur0 = (cur.short_name@, cur.datestamp, cur.body@);
    let ghost out0 = out@;
    if cur.body.as_str().unicode_len() > 0 {
        out.push(cur);
        proof {
            assert(msg_views(out@) =~= msg_views(out0).push(cur0));
            assert(msg_views(out0) + seq![cur0] =~= msg_views(out0).push(cur0));
        }
    } else {
        proof {
            assert(msg_views(out@) + Seq::<(Seq<char>, Datestamp, Seq<char>)>::empty() =~= msg_views(
                out@,
            ));
        }
    }
    Ok(out)
}

/// The first map pair whose short name equals `name`, or -1: unmapped names
/// are silently dropped.
pub open spec fn find_pattern(map: Seq<(Seq<char>, Seq<char>)>, name: Seq<char>) -> int
    decreases map.len(),
{
    if map.len() == 0 {
        -1
    } else if map[0].0 == name {
        0
    } else {
        let r = find_pattern(map.drop_first(), name);
        if r < 0 {
            -1
        } else {
            r + 1
        }
    }
}

proof fn lemma_find_pattern_at(map: Seq<(Seq<char>, Seq<char>)>, name: Seq<char>, i: int)
    requires
        0 <= i <= map.len(),
        forall|k: int| 0 <= k < i ==> (#[trigger] map[k]).0 != name,
        i < map.len() ==> map[i].0 == name,
    ensures
        i < map.len() ==> find_pattern(map, name) == i,
        i == map.len() ==> find_pattern(map, name) == -1,
    decreases map.len(),
{
    if map.len() == 0 {
    } else if map[0].0 == name {
        assert(i == 0);
    } else {
        let tail = map.drop_first();
        assert(forall|k: int| 0 <= k < i - 1 ==> (#[trigger] tail[k]).0 != name);
        lemma_find_pattern_at(tail, name, i - 1);
    }
}

/// The views of an executable short-name→pattern map.
pub open spec fn map_views(map: Seq<(String, String)>) -> Seq<(Seq<char>, Seq<char>)> {
    Seq::new(map.len(), |k: int| (map[k].0@, map[k].1@))
}

impl MarkovChain {
    /// Ingests one raw text under the source pattern `source_name`, with a
    /// caller-supplied constant datestamp; embedded newlines do not terminate
    /// sentences. Fails (changing no source) only when the new words would
    /// push the vocabulary past its 31-bit capacity.
    pub fn append_text(&mut self, text: &str, source_name: &String, datestamp: Datestamp) -> (ok:
        bool)
        requires
            old(self).wf(),
        ensures
            final(self).wf(),
            ({
                let toks = spec_tokens(spec_trim(text@), false);
                let v0 = old(self).words@;
                let es = spec_entries(spec_indexed(v0, toks, 0), datestamp);
                &&& ok ==> final(self).words@ == vocab_after(v0, toks, 0) && source_appended(
                    old(self).sources@,
                    final(self).sources@,
                    source_name@,
                    es,
                )
                &&& !ok ==> final(self).sources@ == old(self).sources@ && vocab_after(
                    v0,
                    toks,
                    0,
                ).len() > WORD_IDX_LIMIT
            }),
    {
        let toks = tokenize(text, false);
        proof {
            assert(token_views(toks@) =~= spec_tokens(spec_trim(text@), false));
        }
        self.append_tokens(&toks, source_name, datestamp)
    }

    /// Interns a token list and appends the entries its windows yield to the
    /// source named by `source_name`.
    fn append_tokens(&mut self, toks: &Vec<(String, bool)>, source_name: &String,
        datestamp: Datestamp) -> (ok: bool)
        requires
            old(self).wf(),
        ensures
            final(self).wf(),
            ({
                let tv = token_views(toks@);
                let v0 = old(self).words@;
                let es = spec_entries(spec_indexed(v0, tv, 0), datestamp);
                &&& ok ==> final(self).words@ == vocab_after(v0, tv, 0) && source_appended(
                    old(self).sources@,
                    final(self).sources@,
                    source_name@,
                    es,
                )
                &&& !ok ==> final(self).sources@ == old(self).sources@ && vocab_after(
                    v0,
                    tv,
                    0,
                ).len() > WORD_IDX_LIMIT
            }),
    {
        let ghost v0 = self.words@;
        let ghost ss0 = self.sources@;
        match intern_tokens(&mut self.words, toks) {
            None => {
                proof {
                    assert forall|s: int| 0 <= s < self.sources@.len() implies (
                    #[trigger] self.sources@[s]).wf_for(self.words@.len()) by {
                        assert(ss0[s].wf_for(v0.len()));
                    }
                }
                false
            },
            Some(indexed) => {
                proof {
                    assert(self.words@.len() <= WORD_IDX_LIMIT);
                    assert forall|k: int| 0 <= k < indexed@.len() implies (
                    #[trigger] indexed@[k]).0 <= WORD_IDX_LIMIT by {
                        assert(indexed@[k].0 < self.words@.len());
                    }
                }
                let mut entries = build_entries(&indexed, datestamp);
                let ghost es = entries@;
                let idx = source_index_for(&mut self.sources, source_name);
                let ghost ss1 = self.sources@;
                self.sources[idx].entries.append(&mut entries);
                proof {
                    let tv = token_views(toks@);
                    let f = find_source(ss0, source_name@);
                    lemma_find_source_props(ss0, source_name@);
                    assert(self.sources@ == ss1.update(
                        idx as int,
                        self.sources@[idx as int],
                    ));
                    assert(self.sources@[idx as int].name@ == source_name@);
                    assert(self.sources@[idx as int].entries@ == ss1[idx as int].entries@ + es);
                    // the new entries index into the grown vocabulary
                    assert forall|k: int| 0 <= k < es.len() implies (#[trigger] es[k]).valid_for(
                        self.words@.len(),
                    ) by {
                        assert(es[k].prefix.spec_idx0() == indexed@[k].0);
                        assert(es[k].prefix.spec_idx1() == indexed@[k + 1].0);
                        assert(es[k].suffix.spec_idx() == indexed@[k + 2].0);
                    }
                    // old sources stay valid: the vocabulary only grew
                    lemma_vocab_after_len(v0, tv, 0);
                    assert forall|s: int| 0 <= s < self.sources@.len() implies (
                    #[trigger] self.sources@[s]).wf_for(self.words@.len()) by {
                        if s != idx as int {
                            assert(self.sources@[s] == ss1[s]);
                            if f >= 0 || s < ss0.len() {
                                assert(ss1[s] == ss0[s]);
                                assert(ss0[s].wf_for(v0.len()));
                            }
                        } else {
                            let src = self.sources@[s];
                            assert forall|e: int| 0 <= e < src.entries@.len() implies (
                            #[trigger] src.entries@[e]).valid_for(self.words@.len()) by {
                                if e < ss1[idx as int].entries@.len() {
                                    assert(src.entries@[e] == ss1[idx as int].entries@[e]);
                                    if f >= 0 {
                                        assert(ss1[idx as int] == ss0[f]);
                                        assert(ss0[f].wf_for(v0.len()));
                                    } else {
                                        assert(ss1[idx as int].entries@.len() == 0);
                                    }
                                } else {
                                    let base = ss1[idx as int].entries@.len();
                                    assert(src.entries@[e] == es[e - base]);
                                }
                            }
                        }
                    }
                    assert(source_appended(ss0, self.sources@, source_name@, es));
                }
                true
            },
        }
    }
}

/// The views of a source list: each pattern literal with its entries.
pub open spec fn sviews(ss: Seq<TextSource>) -> Seq<(Seq<char>, Seq<ChainEntry>)> {
    Seq::new(ss.len(), |i: int| (ss[i].name@, ss[i].entries@))
}

/// `find_source`, over source views.
pub open spec fn find_sv(svs: Seq<(Seq<char>, Seq<ChainEntry>)>, name: Seq<char>) -> int
    decreases svs.len(),
{
    if svs.len() == 0 {
        -1
    } else if svs[0].0 == name {
        0
    } else {
        let r = find_sv(svs.drop_first(), name);
        if r < 0 {
            -1
        } else {
            r + 1
        }
    }
}

proof fn lemma_find_source_views(ss: Seq<TextSource>, name: Seq<char>)
    ensures
        find_sv(sviews(ss), name) == find_source(ss, name),
    decreases ss.len(),
{
    if ss.len() > 0 {
        assert(sviews(ss)[0] == (ss[0].name@, ss[0].entries@));
        if ss[0].name@ != name {
            lemma_find_source_views(ss.drop_first(), name);
            assert(sviews(ss).drop_first() =~= sviews(ss.drop_first()));
        }
    }
}

/// How source views change when entries are appended under a literal: the
/// first matching source gains them at its end, else a new source appears.
pub open spec fn sv_appended(
    svs: Seq<(Seq<char>, Seq<ChainEntry>)>,
    name: Seq<char>,
    es: Seq<ChainEntry>,
) -> Seq<(Seq<char>, Seq<ChainEntry>)> {
    let f = find_sv(svs, name);
    if f >= 0 {
        svs.update(f, (svs[f].0, svs[f].1 + es))
    } else {
        svs.push((name, es))
    }
}

proof fn lemma_source_appended_views(
    old_ss: Seq<TextSource>,
    new_ss: Seq<TextSource>,
    name: Seq<char>,
    es: Seq<ChainEntry>,
)
    requires
        source_appended(old_ss, new_ss, name, es),
    ensures
        sviews(new_ss) == sv_appended(sviews(old_ss), name, es),
{
    lemma_find_source_views(old_ss, name);
    lemma_find_source_props(old_ss, name);
    assert(sviews(new_ss) =~= sv_appended(sviews(old_ss), name, es));
}

/// One message ingested into the view-level chain state: an unmapped short
/// name changes nothing; a mapped one has its body tokenized with newlines
/// terminal and its entries appended under the mapped pattern literal.
pub open spec fn ingest_message_v(
    vocab: Seq<Seq<char>>,
    svs: Seq<(Seq<char>, Seq<ChainEntry>)>,
    m: (Seq<char>, Datestamp, Seq<char>),
    map: Seq<(Seq<char>, Seq<char>)>,
) -> (Seq<Seq<char>>, Seq<(Seq<char>, Seq<ChainEntry>)>) {
    let f = find_pattern(map, m.0);
    if f < 0 {
        (vocab, svs)
    } else {
        let toks = spec_tokens(spec_trim(m.2), true);
        (
            vocab_after(vocab, toks, 0),
            sv_appended(svs, map[f].1, spec_entries(spec_indexed(vocab, toks, 0), m.1)),
        )
    }
}

/// The chain state after the messages from position `i` on.
pub open spec fn ingest_messages_v(
    vocab: Seq<Seq<char>>,
    svs: Seq<(Seq<char>, Seq<ChainEntry>)>,
    msgs: Seq<(Seq<char>, Datestamp, Seq<char>)>,
    map: Seq<(Seq<char>, Seq<char>)>,
    i: int,
) -> (Seq<Seq<char>>, Seq<(Seq<char>, Seq<ChainEntry>)>)
    decreases msgs.len() - i,
{
    if i < 0 || i >= msgs.len() {
        (vocab, svs)
    } else {
        let st = ingest_message_v(vocab, svs, msgs[i], map);
        ingest_messages_v(st.0, st.1, msgs, map, i + 1)
    }
}

proof fn lemma_ingest_messages_vocab_len(
    vocab: Seq<Seq<char>>,
    svs: Seq<(Seq<char>, Seq<ChainEntry>)>,
    msgs: Seq<(Seq<char>, Datestamp, Seq<char>)>,
    map: Seq<(Seq<char>, Seq<char>)>,
    i: int,
)
    ensures
        ingest_messages_v(vocab, svs, msgs, map, i).0.len() >= vocab.len(),
    decreases msgs.len() - i,
{
    if 0 <= i < msgs.len() {
        let st = ingest_message_v(vocab, svs, msgs[i], map);
        let f = find_pattern(map, msgs[i].0);
        if f >= 0 {
            lemma_vocab_after_len(vocab, spec_tokens(spec_trim(msgs[i].2), true), 0);
        }
        lemma_ingest_messages_vocab_len(st.0, st.1, msgs, map, i + 1);
    }
}

impl MarkovChain {
    /// Ingests one extracted message. A short name the map does not carry is
    /// silently dropped; a mapped one is appended under its pattern literal,
    /// with embedded newlines terminating sentences. Fails only when the new
    /// words would overflow the vocabulary.
    fn append_message(&mut self, msg: &ExtractedMessage, map: &Vec<(String, String)>) -> (ok: bool)
        requires
            old(self).wf(),
        ensures
            final(self).wf(),
            ({
                let st = ingest_message_v(
                    old(self).words@,
                    sviews(old(self).sources@),
                    (msg.short_name@, msg.datestamp, msg.body@),
                    map_views(map@),
                );
                &&& ok ==> final(self).words@ == st.0 && sviews(final(self).sources@) == st.1
                &&& !ok ==> st.0.len() > WORD_IDX_LIMIT && final(self).sources@
                    == old(self).sources@
            }),
    {
        let ghost mapv = map_views(map@);
        let n = map.len();
        let mut i: usize = 0;
        while i < n
            invariant
                i <= n,
                n == map@.len(),
                mapv == map_views(map@),
                self.wf(),
                self.words@ == old(self).words@,
                self.sources@ == old(self).sources@,
                forall|k: int| 0 <= k < i ==> (#[trigger] mapv[k]).0 != msg.short_name@,
            decreases n - i,
        {
            if map[i].0 == msg.short_name {
                proof {
                    assert(mapv[i as int].0 == msg.short_name@);
                    lemma_find_pattern_at(mapv, msg.short_name@, i as int);
                }
                let toks = tokenize(msg.body.as_str(), true);
                proof {
                    assert(token_views(toks@) =~= spec_tokens(spec_trim(msg.body@), true));
                }
                let ghost ss0 = self.sources@;
                let ok = self.append_tokens(&toks, &map[i].1, msg.datestamp);
                proof {
                    assert(mapv[i as int].1 == map@[i as int].1@);
                    if ok {
                        lemma_source_appended_views(
                            ss0,
                            self.sources@,
                            map@[i as int].1@,
                            spec_entries(
                                spec_indexed(
                                    old(self).words@,
                                    spec_tokens(spec_trim(msg.body@), true),
                                    0,
                                ),
                                msg.datestamp,
                            ),
                        );
                    }
                }
                return ok;
            }
            proof {
                assert(mapv[i as int].0 == map@[i as int].0@);
            }
            i = i + 1;
        }
        proof {
            lemma_find_pattern_at(mapv, msg.short_name@, n as int);
        }
        true
    }

    /// Ingests a structured message stream: folds the events into messages,
    /// then appends each message in order. Fails before touching the chain
    /// when some timestamp does not parse, and mid-way (leaving a valid
    /// chain) when the vocabulary would overflow.
    pub fn append_message_dump(&mut self, events: &Vec<MessageEvent>, map: &Vec<(String, String)>)
        -> (r: Result<(), AppendError>)
        requires
            old(self).wf(),
        ensures
            final(self).wf(),
            ({
                let msgs = spec_messages(events@, 0, fresh_msg());
                let st = ingest_messages_v(
                    old(self).words@,
                    sviews(old(self).sources@),
                    msgs,
                    map_views(map@),
                    0,
                );
                match r {
                    Ok(u) => event_dates_ok(events@) && final(self).words@ == st.0
                        && sviews(final(self).sources@) == st.1,
                    Err(e) => match e {
                        AppendError::MalformedTimestamp => !event_dates_ok(events@)
                            && final(self).words@ == old(self).words@ && final(self).sources@
                            == old(self).sources@,
                        AppendError::VocabularyFull => event_dates_ok(events@) && st.0.len()
                            > WORD_IDX_LIMIT,
                    },
                }
            }),
    {
        let msgs = match extract_messages(events) {
            Ok(m) => m,
            Err(e) => {
                return Err(e);
            },
        };
        let ghost msgsv = msg_views(msgs@);
        let ghost mapv = map_views(map@);
        let ghost v0 = self.words@;
        let ghost sv0 = sviews(self.sources@);
        let n = msgs.len();
        let mut k: usize = 0;
        while k < n
            invariant
                k <= n,
                n == msgs@.len(),
                msgsv == msg_views(msgs@),
                msgsv == spec_messages(events@, 0, fresh_msg()),
                event_dates_ok(events@),
                mapv == map_views(map@),
                v0 == old(self).words@,
                sv0 == sviews(old(self).sources@),
                self.wf(),
                ingest_messages_v(v0, sv0, msgsv, mapv, 0) == ingest_messages_v(
                    self.words@,
                    sviews(self.sources@),
                    msgsv,
                    mapv,
                    k as int,
                ),
            decreases n - k,
        {
            let ghost vcur = self.words@;
            let ghost svcur = sviews(self.sources@);
            let ok = self.append_message(&msgs[k], map);
            proof {
                assert(msgsv[k as int] == (
                    msgs@[k as int].short_name@,
                    msgs@[k as int].datestamp,
                    msgs@[k as int].body@,
                ));
                let st = ingest_message_v(vcur, svcur, msgsv[k as int], mapv);
                if !ok {
                    lemma_ingest_messages_vocab_len(st.0, st.1, msgsv, mapv, k + 1);
                    assert(ingest_messages_v(vcur, svcur, msgsv, mapv, k as int)
                        == ingest_messages_v(st.0, st.1, msgsv, mapv, k + 1));
                    assert(ingest_messages_v(v0, sv0, msgsv, mapv, 0).0.len() > WORD_IDX_LIMIT);
                }
            }
            if !ok {
                return Err(AppendError::VocabularyFull);
            }
            k = k + 1;
        }
        Ok(())
    }
}

} // verus!
