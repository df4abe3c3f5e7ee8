//! Parsing the mashup command's arguments: an optional trailing
//! `[date range name]` restricts the sources by time, and what is left is
//! the boolean source query. An empty argument string, or one still in the
//! old comma syntax, asks for help instead.

use vstd::prelude::*;
use crate::append::{spec_trim, trim_outer};
use vstd::string::StrSliceExecFns;

verus! {

/// What a mashup argument string asks for.
#[derive(Debug, Clone, PartialEq)]
pub enum MashupRequest {
    Help,
    Query { names: String, date_name: Option<String> },
}

/// The same, over plain character sequences.
pub enum MashupParse {
    Help,
    Query { names: Seq<char>, date_name: Option<Seq<char>> },
}

/// The view of an executable request.
pub open spec fn request_view(r: MashupRequest) -> MashupParse {
    match r {
        MashupRequest::Help => MashupParse::Help,
        MashupRequest::Query { names, date_name } => MashupParse::Query {
            names: names@,
            date_name: match date_name {
                Some(d) => Some(d@),
                None => None,
            },
        },
    }
}

/// Position of the last `[` strictly before `i`, or -1.
pub open spec fn last_bracket(s: Seq<char>, i: int) -> int
    decreases i,
{
    if i <= 0 {
        -1
    } else if s[i - 1] == '[' {
        i - 1
    } else {
        last_bracket(s, i - 1)
    }
}

proof fn lemma_last_bracket(s: Seq<char>, i: int)
    requires
        0 <= i <= s.len(),
    ensures
        -1 <= last_bracket(s, i) < i,
        last_bracket(s, i) >= 0 ==> s[last_bracket(s, i)] == '[',
        forall|k: int| last_bracket(s, i) < k < i ==> s[k] != '[',
    decreases i,
{
    if i > 0 && s[i - 1] != '[' {
        lemma_last_bracket(s, i - 1);
    }
}

/// How an argument string splits: empty or comma-ridden input asks for help;
/// a trailing `]` with a matching last `[` carves out a trimmed date range
/// name; anything else is all query.
pub open spec fn spec_mashup(s: Seq<char>) -> MashupParse {
    if s.len() == 0 || (exists|k: int| 0 <= k < s.len() && s[k] == ',') {
        MashupParse::Help
    } else if s.last() == ']' {
        let b = last_bracket(s, s.len() - 1);
        if b < 0 {
            MashupParse::Query { names: s, date_name: None }
        } else {
            MashupParse::Query {
                names: s.subrange(0, b),
                date_name: Some(spec_trim(s.subrange(b + 1, s.len() - 1))),
            }
        }
    } else {
        MashupParse::Query { names: s, date_name: None }
    }
}

/// Splits the mashup command's arguments into the source query and the
/// optional date range name.
pub fn parse_mashup_args(args: &str) -> (r: MashupRequest)
    ensures
        request_view(r) == spec_mashup(args@),
{
    let n = args.unicode_len();
    if n == 0 {
        return MashupRequest::Help;
    }
    let mut i: usize = 0;
    while i < n
        invariant
            i <= n,
            n == args@.len(),
            forall|k: int| 0 <= k < i ==> args@[k] != ',',
        decreases n - i,
    {
        if args.get_char(i) == ',' {
            return MashupRequest::Help;
        }
        i = i + 1;
    }
    if args.get_char(n - 1) != ']' {
        return MashupRequest::Query { names: args.to_owned(), date_name: None };
    }
    let mut b: usize = n - 1;
    while b > 0 && args.get_char(b - 1) != '['
        invariant
            b <= n - 1,
            n == args@.len(),
            forall|k: int| b <= k < n - 1 ==> args@[k] != '[',
        decreases b,
    {
        b = b - 1;
    }
    proof {
        lemma_last_bracket(args@, n - 1);
        let lb = last_bracket(args@, n - 1);
        if b == 0 {
            if lb >= 0 {
                assert(args@[lb] != '[');
                assert(false);
            }
        } else {
            assert(args@[b - 1] == '[');
            if lb < b - 1 {
                assert(args@[b - 1] != '[');
                assert(false);
            }
            if b - 1 < lb {
                assert(args@[lb] != '[');
                assert(false);
            }
        }
    }
    if b == 0 {
        return MashupRequest::Query { names: args.to_owned(), date_name: None };
    }
    let names = args.substring_char(0, b - 1).to_owned();
    let date_raw = args.substring_char(b, n - 1);
    let date_name = trim_outer(date_raw).to_owned();
    MashupRequest::Query { names, date_name: Some(date_name) }
}

} // verus!
