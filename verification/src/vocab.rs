//! The vocabulary: words interned to dense indices in first-seen order.
//!
//! Storage is an insertion-ordered set from the `indexmap` crate, reached
//! through trusted wrappers; the vocabulary's own invariant (distinct words,
//! size capped so indices fit in 31 bits) is proved from their contracts.

use vstd::prelude::*;
use indexmap::IndexSet;
use crate::chain::WORD_IDX_LIMIT;

verus! {

/// Declares indexmap's insertion-ordered set for use in signatures and
/// fields; its contents are visible only through `index_set_words`.
#[verifier::external_type_specification]
#[verifier::external_body]
#[verifier::reject_recursive_types(T)]
#[verifier::reject_recursive_types(S)]
pub struct ExIndexSet<T, S>(IndexSet<T, S>);

/// The words an interning set holds, in insertion order.
pub uninterp spec fn index_set_words(s: IndexSet<String>) -> Seq<Seq<char>>;

/// Relies on indexmap's `IndexSet::new`: an empty set.
#[verifier::external_body]
fn index_set_new() -> (r: IndexSet<String>)
    ensures
        index_set_words(r) == Seq::<Seq<char>>::empty(),
{
    IndexSet::new()
}

/// Relies on indexmap's `IndexSet::len`: the number of elements.
#[verifier::external_body]
fn index_set_len(s: &IndexSet<String>) -> (r: usize)
    ensures
        r == index_set_words(*s).len(),
{
    s.len()
}

/// Relies on indexmap's `IndexSet::insert_full`: an equivalent element keeps
/// the set unchanged and yields the existing index and `false`; a new element
/// is appended at the end and yields its index and `true`.
#[verifier::external_body]
fn index_set_insert_full(s: &mut IndexSet<String>, w: String) -> (r: (usize, bool))
    ensures
        r.1 == !index_set_words(*old(s)).contains(w@),
        r.1 ==> index_set_words(*final(s)) == index_set_words(*old(s)).push(w@) && r.0
            == index_set_words(*old(s)).len(),
        !r.1 ==> index_set_words(*final(s)) == index_set_words(*old(s)) && r.0 < index_set_words(
            *old(s),
        ).len() && index_set_words(*old(s))[r.0 as int] == w@,
{
    s.insert_full(w)
}

/// Relies on indexmap's `IndexSet::get_index_of`: the index of an equivalent
/// element if one is in the set, else `None`.
#[verifier::external_body]
fn index_set_get_index_of(s: &IndexSet<String>, w: &String) -> (r: Option<usize>)
    ensures
        match r {
            Some(i) => i < index_set_words(*s).len() && index_set_words(*s)[i as int] == w@,
            None => !index_set_words(*s).contains(w@),
        },
{
    s.get_index_of(w)
}

/// Relies on indexmap's `IndexSet::get_index`: the element at an index below
/// the length, else `None`.
#[verifier::external_body]
fn index_set_get_index(s: &IndexSet<String>, i: usize) -> (r: Option<&String>)
    ensures
        match r {
            Some(w) => i < index_set_words(*s).len() && w@ == index_set_words(*s)[i as int],
            None => i >= index_set_words(*s).len(),
        },
{
    s.get_index(i)
}

/// The vocabulary after one word is interned: unchanged if the word is known,
/// else extended by it.
pub open spec fn vocab_insert(v: Seq<Seq<char>>, w: Seq<char>) -> Seq<Seq<char>> {
    if v.contains(w) {
        v
    } else {
        v.push(w)
    }
}

/// The index interning a word yields: its first occurrence if known, else the
/// next fresh index.
pub open spec fn vocab_index(v: Seq<Seq<char>>, w: Seq<char>) -> int {
    if v.contains(w) {
        v.index_of_first(w)->0
    } else {
        v.len() as int
    }
}

/// Words interned to dense 0-based indices in first-seen order; append-only.
pub struct Vocabulary {
    set: IndexSet<String>,
}

impl View for Vocabulary {
    type V = Seq<Seq<char>>;

    closed spec fn view(&self) -> Seq<Seq<char>> {
        index_set_words(self.set)
    }
}

impl Vocabulary {
    /// All words distinct, and few enough that every index fits in 31 bits.
    pub open spec fn wf(self) -> bool {
        self@.no_duplicates() && self@.len() <= WORD_IDX_LIMIT
    }

    pub fn new() -> (r: Self)
        ensures
            r@ == Seq::<Seq<char>>::empty(),
            r.wf(),
    {
        let r = Vocabulary { set: index_set_new() };
        proof {
            assert(r@.no_duplicates());
        }
        r
    }

    pub fn len(&self) -> (r: usize)
        ensures
            r == self@.len(),
    {
        index_set_len(&self.set)
    }

    /// Interns a word: a known word yields its existing index and changes
    /// nothing; a new word is appended, unless the vocabulary is already at
    /// its 31-bit capacity, in which case nothing changes and `None` comes
    /// back.
    pub fn intern(&mut self, w: String) -> (r: Option<u32>)
        requires
            old(self).wf(),
        ensures
            final(self).wf(),
            match r {
                Some(idx) => {
                    &&& final(self)@ == vocab_insert(old(self)@, w@)
                    &&& idx == vocab_index(old(self)@, w@)
                    &&& idx < final(self)@.len()
                    &&& final(self)@[idx as int] == w@
                },
                None => {
                    &&& final(self)@ == old(self)@
                    &&& !old(self)@.contains(w@)
                    &&& old(self)@.len() == WORD_IDX_LIMIT
                },
            },
    {
        let ghost v0 = self@;
        match index_set_get_index_of(&self.set, &w) {
            Some(i) => {
                proof {
                    v0.index_of_first_ensures(w@);
                    assert(v0.contains(w@));
                    let f = v0.index_of_first(w@)->0;
                    assert(v0[f] == w@ && v0[i as int] == w@);
                    assert(f == i as int);
                }
                Some(i as u32)
            },
            None => {
                let len = index_set_len(&self.set);
                if len >= WORD_IDX_LIMIT as usize {
                    None
                } else {
                    let (idx, _inserted) = index_set_insert_full(&mut self.set, w);
                    proof {
                        assert(self@ == v0.push(w@));
                        assert forall|i: int, j: int|
                            0 <= i < self@.len() && 0 <= j < self@.len() && i != j implies self@[i]
                            != self@[j] by {
                            if i < v0.len() && j < v0.len() {
                            } else if j == v0.len() {
                                assert(self@[j] == w@);
                                assert(!v0.contains(w@));
                                assert(self@[i] == v0[i]);
                            } else {
                                assert(self@[i] == w@);
                                assert(self@[j] == v0[j]);
                            }
                        }
                    }
                    Some(idx as u32)
                }
            },
        }
    }

    /// Reverse lookup: total over valid indices, and refuses any index at or
    /// past the current size.
    pub fn lookup(&self, idx: u32) -> (r: Option<&String>)
        ensures
            match r {
                Some(w) => idx < self@.len() && w@ == self@[idx as int],
                None => idx >= self@.len(),
            },
    {
        index_set_get_index(&self.set, idx as usize)
    }

    /// All words, in index order.
    pub fn words_vec(&self) -> (r: Vec<String>)
        ensures
            r@.len() == self@.len(),
            forall|k: int| 0 <= k < r@.len() ==> (#[trigger] r@[k])@ == self@[k],
    {
        let n = index_set_len(&self.set);
        let mut out: Vec<String> = Vec::new();
        let mut i: usize = 0;
        while i < n
            invariant
                i <= n,
                n == self@.len(),
                out@.len() == i,
                forall|k: int| 0 <= k < i ==> (#[trigger] out@[k])@ == self@[k],
            decreases n - i,
        {
            match index_set_get_index(&self.set, i) {
                Some(w) => {
                    out.push(w.clone());
                },
                None => {
                    proof {
                        assert(false);
                    }
                },
            }
            i = i + 1;
        }
        out
    }
}

/// Interning is idempotent, and the vocabulary grows by at most one index per
/// distinct new word: a known word changes nothing, a new word appends
/// exactly one entry, and in either case the word is present afterwards at
/// the index interning reports.
pub proof fn lemma_intern_idempotent(v: Seq<Seq<char>>, w: Seq<char>)
    ensures
        vocab_insert(vocab_insert(v, w), w) == vocab_insert(v, w),
        vocab_index(vocab_insert(v, w), w) == vocab_index(v, w),
        v.contains(w) ==> vocab_insert(v, w) == v,
        !v.contains(w) ==> vocab_insert(v, w).len() == v.len() + 1,
        vocab_insert(v, w).contains(w),
        vocab_insert(v, w)[vocab_index(v, w)] == w,
{
    v.index_of_first_ensures(w);
    if !v.contains(w) {
        let v1 = v.push(w);
        assert(v1[v.len() as int] == w);
        assert(v1.contains(w));
        v1.index_of_first_ensures(w);
        let f = v1.index_of_first(w)->0;
        assert(v1[f] == w);
        assert(forall|j: int| 0 <= j < v.len() ==> v[j] == v1[j]);
        if f < v.len() {
            assert(v[f] == w);
            assert(v.contains(w));
            assert(false);
        }
        assert(f == v.len() as int);
    }
}

} // verus!
