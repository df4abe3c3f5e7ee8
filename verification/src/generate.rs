//! The generator: a weighted random walk over a selector's entry pool.
//!
//! A walk seeds at a uniformly chosen sentence-starting entry, emits its two
//! prefix words, and then repeatedly picks uniformly among the entries whose
//! context matches the last two emitted words, emitting each picked suffix.
//! It succeeds once at least `min_words` words came out and the latest suffix
//! was sentence-terminal; it dies on a dead end or on reaching `max_words`
//! unterminated, and the whole walk is retried from a fresh seed a bounded
//! number of times before giving up.

use vstd::prelude::*;
use rand::rngs::SmallRng;
use rand::Rng;
use crate::chain::{ChainEntry, MarkovChain};
use crate::selector::Selector;
use vstd::string::StringExecFns;

verus! {

/// How many whole walks are attempted before generation gives up.
pub const GENERATE_ATTEMPTS: usize = 32;

/// Declares rand's small PRNG for use in signatures; the generator draws
/// from it only through `rand_below`.
#[verifier::external_type_specification]
#[verifier::external_body]
pub struct ExSmallRng(SmallRng);

/// Relies on rand's `Rng::gen_range` over `0..n`: a uniformly distributed
/// value below `n`. It panics only on an empty range, which the precondition
/// rules out; nothing more is assumed of the drawn value.
#[verifier::external_body]
fn rand_below(rng: &mut SmallRng, n: usize) -> (r: usize)
    requires
        n > 0,
    ensures
        r < n,
{
    rng.gen_range(0..n)
}

/// Words joined by single spaces.
pub open spec fn spec_join(ws: Seq<Seq<char>>) -> Seq<char>
    decreases ws.len(),
{
    if ws.len() == 0 {
        Seq::empty()
    } else if ws.len() == 1 {
        ws[0]
    } else {
        spec_join(ws.drop_last()) + seq![' '] + ws.last()
    }
}

/// One bounded sequence of whole-walk attempts over the pool; every word of a
/// successful walk is a valid index below `vocab_len`, the length lies within
/// the requested bounds, and the last word came from a sentence-terminal
/// suffix of the pool.
fn random_walk(
    pool: &Vec<ChainEntry>,
    rng: &mut SmallRng,
    min_words: usize,
    max_words: usize,
    vocab_len: usize,
) -> (r: Option<Vec<u32>>)
    requires
        forall|k: int| 0 <= k < pool@.len() ==> (#[trigger] pool@[k]).valid_for(vocab_len as nat),
    ensures
        match r {
            Some(v) => {
                &&& min_words <= v@.len() <= max_words
                &&& v@.len() >= 3
                &&& forall|k: int| 0 <= k < v@.len() ==> (#[trigger] v@[k]) < vocab_len
                &&& exists|t: int|
                    0 <= t < pool@.len() && (#[trigger] pool@[t]).suffix.spec_terminal()
                        && pool@[t].suffix.spec_idx() == v@.last()
            },
            None => true,
        },
{
    if max_words < 3 {
        return None;
    }
    let mut starts: Vec<usize> = Vec::new();
    let n = pool.len();
    let mut i: usize = 0;
    while i < n
        invariant
            i <= n,
            n == pool@.len(),
            forall|k: int| 0 <= k < starts@.len() ==> (#[trigger] starts@[k]) < n,
        decreases n - i,
    {
        if pool[i].prefix.is_starting() {
            starts.push(i);
        }
        i = i + 1;
    }
    if starts.len() == 0 {
        return None;
    }
    let mut attempt: usize = 0;
    while attempt < GENERATE_ATTEMPTS
        invariant
            n == pool@.len(),
            max_words >= 3,
            starts@.len() > 0,
            forall|k: int| 0 <= k < starts@.len() ==> (#[trigger] starts@[k]) < n,
            forall|k: int|
                0 <= k < pool@.len() ==> (#[trigger] pool@[k]).valid_for(vocab_len as nat),
        decreases GENERATE_ATTEMPTS - attempt,
    {
        let seed = starts[rand_below(rng, starts.len())];
        let e0 = pool[seed];
        let idxs0 = e0.prefix.word_idxs();
        let mut words: Vec<u32> = Vec::new();
        words.push(idxs0[0]);
        words.push(idxs0[1]);
        let mut c0 = idxs0[0];
        let mut c1 = idxs0[1];
        let mut done = false;
        let ghost mut terminal_src: int = 0int;
        while !done && words.len() < max_words
            invariant
                n == pool@.len(),
                forall|k: int|
                    0 <= k < pool@.len() ==> (#[trigger] pool@[k]).valid_for(vocab_len as nat),
                words@.len() >= 2,
                words@.len() <= max_words,
                forall|k: int| 0 <= k < words@.len() ==> (#[trigger] words@[k]) < vocab_len,
                done ==> {
                    &&& words@.len() >= 3
                    &&& min_words <= words@.len()
                    &&& 0 <= terminal_src < pool@.len()
                    &&& pool@[terminal_src].suffix.spec_terminal()
                    &&& pool@[terminal_src].suffix.spec_idx() == words@.last()
                },
            decreases max_words - words@.len(),
        {
            let mut candidates: Vec<usize> = Vec::new();
            let mut j: usize = 0;
            while j < n
                invariant
                    j <= n,
                    n == pool@.len(),
                    forall|k: int| 0 <= k < candidates@.len() ==> (#[trigger] candidates@[k]) < n,
                decreases n - j,
            {
                let w = pool[j].prefix.word_idxs();
                if w[0] == c0 && w[1] == c1 {
                    candidates.push(j);
                }
                j = j + 1;
            }
            if candidates.len() == 0 {
                break ;
            }
            let pick = candidates[rand_below(rng, candidates.len())];
            let e = pool[pick];
            let widx = e.suffix.word_idx();
            proof {
                assert(pool@[pick as int].valid_for(vocab_len as nat));
            }
            words.push(widx);
            c0 = c1;
            c1 = widx;
            if words.len() >= min_words && e.suffix.is_terminal() {
                done = true;
                proof {
                    terminal_src = pick as int;
                }
            }
        }
        if done {
            return Some(words);
        }
        attempt = attempt + 1;
    }
    None
}

impl MarkovChain {
    /// One generated sentence from the selector's pool, or nothing once the
    /// bounded retries are exhausted. A successful output is `min_words` to
    /// `max_words` words joined by single spaces, each word taken unchanged
    /// from the vocabulary, and its final word was emitted from a
    /// sentence-terminal suffix of the pool.
    pub fn generate(
        &self,
        selector: &Selector,
        rng: &mut SmallRng,
        min_words: usize,
        max_words: usize,
    ) -> (r: Option<String>)
        requires
            self.wf(),
            selector.valid_for(self.words@.len()),
        ensures
            match r {
                Some(s) => exists|ws: Seq<Seq<char>>|
                    {
                        &&& s@ == #[trigger] spec_join(ws)
                        &&& min_words <= ws.len() <= max_words
                        &&& ws.len() > 0
                        &&& forall|k: int|
                            0 <= k < ws.len() ==> self.words@.contains(#[trigger] ws[k])
                        &&& exists|t: int|
                            0 <= t < selector@.len() && (
                            #[trigger] selector@[t]).suffix.spec_terminal()
                                && selector@[t].suffix.spec_idx() < self.words@.len()
                                && self.words@[selector@[t].suffix.spec_idx() as int] == ws.last()
                    },
                None => true,
            },
    {
        let pool = selector.entries();
        let walked = random_walk(pool, rng, min_words, max_words, self.words.len());
        match walked {
            None => None,
            Some(idxs) => {
                let s = self.render_words(&idxs);
                proof {
                    let ws = Seq::new(idxs@.len() as nat, |k: int| self.words@[idxs@[k] as int]);
                    assert(s@ == spec_join(ws));
                    assert(ws.len() == idxs@.len());
                    assert forall|k: int| 0 <= k < ws.len() implies self.words@.contains(
                        #[trigger] ws[k],
                    ) by {
                        assert(ws[k] == self.words@[idxs@[k] as int]);
                    }
                    let t = choose|t: int|
                        0 <= t < pool@.len() && (#[trigger] pool@[t]).suffix.spec_terminal()
                            && pool@[t].suffix.spec_idx() == idxs@.last();
                    assert(ws.last() == self.words@[idxs@[idxs@.len() - 1] as int]);
                    assert(selector@[t].suffix.spec_idx() < self.words@.len());
                }
                Some(s)
            },
        }
    }

    /// The vocabulary words at the given indices, joined by single spaces.
    fn render_words(&self, idxs: &Vec<u32>) -> (s: String)
        requires
            forall|k: int| 0 <= k < idxs@.len() ==> (#[trigger] idxs@[k]) < self.words@.len(),
        ensures
            s@ == spec_join(Seq::new(idxs@.len() as nat, |k: int| self.words@[idxs@[k] as int])),
    {
        let ghost full = Seq::new(idxs@.len() as nat, |k: int| self.words@[idxs@[k] as int]);
        let mut out = String::new();
        let mut i: usize = 0;
        while i < idxs.len()
            invariant
                i <= idxs@.len(),
                full == Seq::new(idxs@.len() as nat, |k: int| self.words@[idxs@[k] as int]),
                forall|k: int| 0 <= k < idxs@.len() ==> (#[trigger] idxs@[k]) < self.words@.len(),
                out@ == spec_join(full.take(i as int)),
            decreases idxs@.len() - i,
        {
            if i > 0 {
                out.append(" ");
            }
            match self.words.lookup(idxs[i]) {
                Some(w) => {
                    out.append(w.as_str());
                },
                None => {
                    proof {
                        assert(false);
                    }
                },
            }
            i = i + 1;
            proof {
                reveal_strlit(" ");
                assert(" "@ =~= seq![' ']);
                let pre = full.take(i - 1);
                let cur = full.take(i as int);
                assert(cur.drop_last() =~= pre);
                assert(cur.last() == full[i - 1]);
                if i == 1 {
                    assert(spec_join(cur) == cur[0]);
                    assert(out@ =~= full[0]);
                } else {
                    assert(spec_join(cur) == spec_join(pre) + seq![' '] + cur.last());
                }
            }
        }
        proof {
            assert(full.take(idxs@.len() as int) =~= full);
        }
        out
    }
}

} // verus!
