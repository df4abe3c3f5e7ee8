//! The selector: a boolean query over source names with optional date
//! filtering.
//!
//! Grammar: `expr := term (('|' | '&') term)*`, `term := NAME | '(' expr ')'`,
//! where a NAME is a maximal run of characters other than `|`, `&`, `(`, `)`,
//! trimmed of whitespace. Both operators pool the named sources' entries into
//! one flat weighted pool (weight proportional to entry count), so parsing
//! reduces to checking the grammar left to right with a parenthesis depth and
//! collecting the names in order. Construction parses and resolves names
//! eagerly; parser errors take priority over unknown-term errors.

use vstd::prelude::*;
use crate::append::{find_source, lemma_find_source_props, spec_trim, trim_outer};
use crate::chain::{ChainEntry, Datestamp, MarkovChain, TextSource};
use vstd::string::StrSliceExecFns;

verus! {

/// A query error, carrying a 0-based character offset or the offending term.
#[derive(Debug, Clone, PartialEq, Eq)]
pub enum SelectorError {
    EmptyQuery,
    ParserExpectedTerm { location: usize },
    ParserUnbalancedParentheses { location: usize },
    UnknownTerm { term: String },
}

/// The characters the query grammar reserves.
pub open spec fn is_query_special(c: char) -> bool {
    c == '|' || c == '&' || c == '(' || c == ')'
}

/// Position of the first reserved character at or after `i`, or the end.
pub open spec fn name_end(s: Seq<char>, i: int) -> int
    decreases s.len() - i,
{
    if i < 0 || i >= s.len() {
        s.len() as int
    } else if is_query_special(s[i]) {
        i
    } else {
        name_end(s, i + 1)
    }
}

pub proof fn lemma_name_end(s: Seq<char>, i: int)
    requires
        0 <= i <= s.len(),
    ensures
        i <= name_end(s, i) <= s.len(),
        name_end(s, i) < s.len() ==> is_query_special(s[name_end(s, i)]),
        forall|k: int| i <= k < name_end(s, i) ==> !is_query_special(s[k]),
        i < s.len() && !is_query_special(s[i]) ==> name_end(s, i) > i,
    decreases s.len() - i,
{
    if i < s.len() && !is_query_special(s[i]) {
        lemma_name_end(s, i + 1);
    }
}

/// What parsing a query yields: the names in reading order, or the first
/// grammar fault and its character offset.
pub enum ParseOutcome {
    Names { names: Seq<Seq<char>> },
    ExpectedTerm { location: int },
    Unbalanced { location: int },
}

/// The grammar check, left to right. `expecting` is true where a term must
/// start; `depth` counts open parentheses; `acc` holds the names seen.
pub open spec fn run_parser(
    s: Seq<char>,
    i: int,
    depth: int,
    expecting: bool,
    acc: Seq<Seq<char>>,
) -> ParseOutcome
    decreases s.len() - i,
    via run_parser_dec
{
    if i < 0 || i >= s.len() {
        if expecting {
            ParseOutcome::ExpectedTerm { location: s.len() as int }
        } else if depth > 0 {
            ParseOutcome::Unbalanced { location: s.len() as int }
        } else {
            ParseOutcome::Names { names: acc }
        }
    } else {
        let c = s[i];
        if crate::append::is_outer_ws(c) {
            run_parser(s, i + 1, depth, expecting, acc)
        } else if expecting {
            if c == '(' {
                run_parser(s, i + 1, depth + 1, true, acc)
            } else if is_query_special(c) {
                ParseOutcome::ExpectedTerm { location: i }
            } else {
                let j = name_end(s, i);
                let nm = spec_trim(s.subrange(i, j));
                if nm.len() == 0 {
                    ParseOutcome::ExpectedTerm { location: i }
                } else {
                    run_parser(s, j, depth, false, acc.push(nm))
                }
            }
        } else {
            if c == '|' || c == '&' {
                run_parser(s, i + 1, depth, true, acc)
            } else if c == ')' && depth > 0 {
                run_parser(s, i + 1, depth - 1, false, acc)
            } else {
                ParseOutcome::Unbalanced { location: i }
            }
        }
    }
}

#[via_fn]
proof fn run_parser_dec(s: Seq<char>, i: int, depth: int, expecting: bool, acc: Seq<Seq<char>>) {
    if 0 <= i < s.len() && !is_query_special(s[i]) {
        lemma_name_end(s, i);
    }
}

/// Parsing a whole query.
pub open spec fn parse_query(s: Seq<char>) -> ParseOutcome {
    run_parser(s, 0, 0, true, Seq::empty())
}

/// The first name that matches no source, or -1 when all resolve.
pub open spec fn first_unknown(ss: Seq<TextSource>, names: Seq<Seq<char>>, k: int) -> int
    decreases names.len() - k,
{
    if k < 0 || k >= names.len() {
        -1
    } else if find_source(ss, names[k]) < 0 {
        k
    } else {
        first_unknown(ss, names, k + 1)
    }
}

/// Whether an entry's datestamp lies in the half-open range `[start, end)`.
pub open spec fn in_date_range(e: ChainEntry, range: Option<(Datestamp, Datestamp)>) -> bool {
    match range {
        None => true,
        Some(r) => r.0.spec_le(e.datestamp) && e.datestamp.spec_lt(r.1),
    }
}

/// A source's entries from position `i` on, restricted to the date range.
pub open spec fn date_filtered(
    es: Seq<ChainEntry>,
    range: Option<(Datestamp, Datestamp)>,
    i: int,
) -> Seq<ChainEntry>
    decreases es.len() - i,
{
    if i < 0 || i >= es.len() {
        Seq::empty()
    } else {
        let rest = date_filtered(es, range, i + 1);
        if in_date_range(es[i], range) {
            seq![es[i]] + rest
        } else {
            rest
        }
    }
}

/// The flat weighted pool: each name's source contributes its date-filtered
/// entries, concatenated in query order.
pub open spec fn spec_pool(
    ss: Seq<TextSource>,
    names: Seq<Seq<char>>,
    range: Option<(Datestamp, Datestamp)>,
    k: int,
) -> Seq<ChainEntry>
    decreases names.len() - k,
{
    if k < 0 || k >= names.len() {
        Seq::empty()
    } else {
        date_filtered(ss[find_source(ss, names[k])].entries@, range, 0) + spec_pool(
            ss,
            names,
            range,
            k + 1,
        )
    }
}

/// A ready selector: the resolved, date-filtered entry pool of a query.
pub struct Selector {
    entries: Vec<ChainEntry>,
}

impl View for Selector {
    type V = Seq<ChainEntry>;

    closed spec fn view(&self) -> Seq<ChainEntry> {
        self.entries@
    }
}

impl Selector {
    /// Every pooled entry indexes into the chain's vocabulary.
    pub open spec fn valid_for(self, vocab_len: nat) -> bool {
        forall|k: int| 0 <= k < self@.len() ==> (#[trigger] self@[k]).valid_for(vocab_len)
    }

    /// The pooled entries, in order.
    pub fn entries(&self) -> (r: &Vec<ChainEntry>)
        ensures
            r@ == self@,
    {
        &self.entries
    }

    /// Parses the query against the chain's sources and resolves every name
    /// eagerly, yielding the pooled entries or the first error: an empty
    /// trimmed query, the first grammar fault with its offset, or (only once
    /// the grammar holds) the first name no source carries.
    pub fn new(chain: &MarkovChain, query: &str, date_range: Option<(Datestamp, Datestamp)>) -> (r:
        Result<Selector, SelectorError>)
        requires
            chain.wf(),
        ensures
            match r {
                Ok(sel) => {
                    &&& spec_trim(query@).len() > 0
                    &&& parse_query(query@) matches ParseOutcome::Names { names }
                        && first_unknown(chain.sources@, names, 0) < 0 && sel@ == spec_pool(
                        chain.sources@,
                        names,
                        date_range,
                        0,
                    )
                    &&& sel.valid_for(chain.words@.len())
                },
                Err(e) => match e {
                    SelectorError::EmptyQuery => spec_trim(query@).len() == 0,
                    SelectorError::ParserExpectedTerm { location } => {
                        &&& spec_trim(query@).len() > 0
                        &&& parse_query(query@) == (ParseOutcome::ExpectedTerm {
                            location: location as int,
                        })
                    },
                    SelectorError::ParserUnbalancedParentheses { location } => {
                        &&& spec_trim(query@).len() > 0
                        &&& parse_query(query@) == (ParseOutcome::Unbalanced {
                            location: location as int,
                        })
                    },
                    SelectorError::UnknownTerm { term } => {
                        &&& spec_trim(query@).len() > 0
                        &&& parse_query(query@) matches ParseOutcome::Names { names } && {
                            let u = first_unknown(chain.sources@, names, 0);
                            u >= 0 && term@ == names[u]
                        }
                    },
                },
            },
    {
        let trimmed = trim_outer(query);
        if trimmed.unicode_len() == 0 {
            return Err(SelectorError::EmptyQuery);
        }
        let ns = match Self::parse_names(query) {
            Ok(ns) => ns,
            Err(e) => {
                return Err(e);
            },
        };
        proof {
            match parse_query(query@) {
                ParseOutcome::Names { names: pn } => {
                    assert(views(ns@) =~= pn);
                },
                _ => {
                    assert(false);
                },
            }
        }
        let pool = match Self::resolve_pool(chain, &ns, date_range) {
            Ok(p) => p,
            Err(e) => {
                return Err(e);
            },
        };
        Ok(Selector { entries: pool })
    }

    /// Runs the grammar check and collects the names.
    fn parse_names(query: &str) -> (r: Result<Vec<String>, SelectorError>)
        ensures
            match r {
                Ok(ns) => parse_query(query@) matches ParseOutcome::Names { names } && ns@.len()
                    == names.len() && (forall|k: int|
                    0 <= k < ns@.len() ==> (#[trigger] ns@[k])@ == names[k]),
                Err(e) => match e {
                    SelectorError::ParserExpectedTerm { location } => parse_query(query@) == (
                    ParseOutcome::ExpectedTerm { location: location as int }),
                    SelectorError::ParserUnbalancedParentheses { location } => parse_query(query@)
                        == (ParseOutcome::Unbalanced { location: location as int }),
                    _ => false,
                },
            },
    {
        let n = query.unicode_len();
        let ghost target = parse_query(query@);
        let mut names: Vec<String> = Vec::new();
        proof {
            assert(views(names@) =~= Seq::<Seq<char>>::empty());
        }
        let mut i: usize = 0;
        let mut depth: usize = 0;
        let mut expecting = true;
        while i < n
            invariant
                i <= n,
                n == query@.len(),
                target == parse_query(query@),
                target == run_parser(query@, i as int, depth as int, expecting, views(names@)),
                depth <= i,
            decreases n - i,
        {
            let ghost vs = views(names@);
            let c = query.get_char(i);
            if c == ' ' || c == '\n' || c == '\t' || c == '\r' {
                i = i + 1;
            } else if expecting {
                if c == '(' {
                    depth = depth + 1;
                    i = i + 1;
                } else if c == '|' || c == '&' || c == ')' {
                    return Err(SelectorError::ParserExpectedTerm { location: i });
                } else {
                    let mut j = i + 1;
                    while j < n && !is_query_special_exec(query.get_char(j))
                        invariant
                            i < j <= n,
                            n == query@.len(),
                            forall|k: int| i <= k < j ==> !is_query_special(query@[k]),
                        decreases n - j,
                    {
                        j = j + 1;
                    }
                    proof {
                        lemma_name_end(query@, i as int);
                        let ne = name_end(query@, i as int);
                        if ne < j {
                            assert(!is_query_special(query@[ne]));
                            assert(false);
                        }
                        if j < ne {
                            assert(!is_query_special(query@[j as int]));
                            assert(false);
                        }
                    }
                    let run = query.substring_char(i, j);
                    let nm = trim_outer(run);
                    if nm.unicode_len() == 0 {
                        return Err(SelectorError::ParserExpectedTerm { location: i });
                    }
                    names.push(nm.to_owned());
                    proof {
                        assert(views(names@) =~= vs.push(nm@));
                    }
                    expecting = false;
                    i = j;
                }
            } else {
                if c == '|' || c == '&' {
                    expecting = true;
                    i = i + 1;
                } else if c == ')' && depth > 0 {
                    depth = depth - 1;
                    i = i + 1;
                } else {
                    return Err(SelectorError::ParserUnbalancedParentheses { location: i });
                }
            }
        }
        if expecting {
            return Err(SelectorError::ParserExpectedTerm { location: n });
        }
        if depth > 0 {
            return Err(SelectorError::ParserUnbalancedParentheses { location: n });
        }
        Ok(names)
    }

    /// Resolves every name and concatenates the date-filtered entries.
    fn resolve_pool(chain: &MarkovChain, names: &Vec<String>, range: Option<
        (Datestamp, Datestamp),
    >) -> (r: Result<Vec<ChainEntry>, SelectorError>)
        requires
            chain.wf(),
        ensures
            match r {
                Ok(pool) => {
                    &&& first_unknown(chain.sources@, views(names@), 0) < 0
                    &&& pool@ == spec_pool(chain.sources@, views(names@), range, 0)
                    &&& forall|k: int|
                        0 <= k < pool@.len() ==> (#[trigger] pool@[k]).valid_for(
                            chain.words@.len(),
                        )
                },
                Err(e) => e matches SelectorError::UnknownTerm { term } && {
                    let u = first_unknown(chain.sources@, views(names@), 0);
                    u >= 0 && term@ == views(names@)[u]
                },
            },
    {
        let ghost vs = views(names@);
        let ghost ss = chain.sources@;
        let mut pool: Vec<ChainEntry> = Vec::new();
        let mut k: usize = 0;
        while k < names.len()
            invariant
                k <= names@.len(),
                vs == views(names@),
                ss == chain.sources@,
                chain.wf(),
                first_unknown(ss, vs, 0) == first_unknown(ss, vs, k as int),
                spec_pool(ss, vs, range, 0) == pool@ + spec_pool(ss, vs, range, k as int),
                forall|t: int|
                    0 <= t < pool@.len() ==> (#[trigger] pool@[t]).valid_for(chain.words@.len()),
            decreases names@.len() - k,
        {
            let name = &names[k];
            proof {
                assert(vs[k as int] == name@);
            }
            let src_idx = match find_source_idx(&chain.sources, name) {
                Some(i) => i,
                None => {
                    return Err(SelectorError::UnknownTerm { term: name.clone() });
                },
            };
            proof {
                lemma_find_source_props(ss, name@);
            }
            let src = &chain.sources[src_idx];
            let ghost es = src.entries@;
            let ghost pool_before = pool@;
            let ne = src.entries.len();
            let mut t: usize = 0;
            while t < ne
                invariant
                    t <= ne,
                    ne == es.len(),
                    src_idx < chain.sources@.len(),
                    es == chain.sources@[src_idx as int].entries@,
                    src.entries@ == es,
                    ss == chain.sources@,
                    chain.wf(),
                    pool@ + date_filtered(es, range, t as int) == pool_before + date_filtered(
                        es,
                        range,
                        0,
                    ),
                    forall|u: int|
                        0 <= u < pool@.len() ==> (#[trigger] pool@[u]).valid_for(
                            chain.words@.len(),
                        ),
                decreases ne - t,
            {
                let e = src.entries[t];
                let keep = match range {
                    None => true,
                    Some((lo, hi)) => lo.le(e.datestamp) && e.datestamp.lt(hi),
                };
                proof {
                    assert(keep == in_date_range(es[t as int], range));
                    let ghost p0 = pool@;
                    if keep {
                        assert(date_filtered(es, range, t as int) == seq![es[t as int]]
                            + date_filtered(es, range, t + 1));
                        assert((p0 + (seq![es[t as int]] + date_filtered(es, range, t + 1))) =~= ((
                        p0.push(es[t as int])) + date_filtered(es, range, t + 1)));
                    }
                }
                if keep {
                    pool.push(e);
                }
                t = t + 1;
            }
            proof {
                assert(date_filtered(es, range, ne as int) =~= Seq::<ChainEntry>::empty());
                assert(pool@ + Seq::<ChainEntry>::empty() =~= pool@);
                assert(pool@ == pool_before + date_filtered(es, range, 0));
                assert(find_source(ss, vs[k as int]) == src_idx as int);
                assert(spec_pool(ss, vs, range, k as int) == date_filtered(es, range, 0)
                    + spec_pool(ss, vs, range, k + 1));
                assert((pool_before + (date_filtered(es, range, 0) + spec_pool(
                    ss,
                    vs,
                    range,
                    k + 1,
                ))) =~= ((pool_before + date_filtered(es, range, 0)) + spec_pool(
                    ss,
                    vs,
                    range,
                    k + 1,
                )));
            }
            k = k + 1;
        }
        proof {
            assert(spec_pool(ss, vs, range, k as int) =~= Seq::<ChainEntry>::empty());
            assert(pool@ + Seq::<ChainEntry>::empty() =~= pool@);
        }
        Ok(pool)
    }
}

/// The first source whose pattern literal equals `name`, if any.
fn find_source_idx(sources: &Vec<TextSource>, name: &String) -> (r: Option<usize>)
    ensures
        match r {
            Some(i) => find_source(sources@, name@) == i as int,
            None => find_source(sources@, name@) < 0,
        },
{
    let n = sources.len();
    let mut i: usize = 0;
    while i < n
        invariant
            i <= n,
            n == sources@.len(),
            forall|k: int| 0 <= k < i ==> (#[trigger] sources@[k]).name@ != name@,
        decreases n - i,
    {
        if sources[i].name == *name {
            proof {
                crate::append::lemma_find_source_at(sources@, name@, i as int);
            }
            return Some(i);
        }
        i = i + 1;
    }
    proof {
        crate::append::lemma_find_source_at(sources@, name@, n as int);
    }
    None
}

fn is_query_special_exec(c: char) -> (r: bool)
    ensures
        r == is_query_special(c),
{
    c == '|' || c == '&' || c == '(' || c == ')'
}

/// The views of an executable name list.
pub open spec fn views(ns: Seq<String>) -> Seq<Seq<char>> {
    Seq::new(ns.len(), |k: int| ns[k]@)
}

} // verus!
