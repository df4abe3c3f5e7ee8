use joebot_markov_chain::chain::{Datestamp, MarkovChain};
use joebot_markov_chain::selector::{Selector, SelectorError};

fn sample_chain() -> MarkovChain {
    let mut chain = MarkovChain::new();
    assert!(chain.append_text(
        "ay bee cee.",
        &"alpha".to_string(),
        Datestamp { year: 2019, day: 10 }
    ));
    assert!(chain.append_text(
        "dee ee eff gee.",
        &"beta".to_string(),
        Datestamp { year: 2020, day: 20 }
    ));
    chain
}

#[test]
fn trailing_operator_expects_term() {
    let chain = sample_chain();
    let r = Selector::new(&chain, "a |", None);
    assert_eq!(r.err(), Some(SelectorError::ParserExpectedTerm { location: 3 }));
}

#[test]
fn unclosed_parenthesis_is_unbalanced() {
    let chain = sample_chain();
    let r = Selector::new(&chain, "(a", None);
    assert_eq!(r.err(), Some(SelectorError::ParserUnbalancedParentheses { location: 2 }));
}

#[test]
fn blank_query_is_empty() {
    let chain = sample_chain();
    let r = Selector::new(&chain, " ", None);
    assert_eq!(r.err(), Some(SelectorError::EmptyQuery));
}

#[test]
fn unknown_name_is_reported() {
    let chain = sample_chain();
    let r = Selector::new(&chain, "zzz", None);
    assert_eq!(r.err(), Some(SelectorError::UnknownTerm { term: "zzz".to_string() }));
}

#[test]
fn empty_parens_expect_term() {
    let chain = sample_chain();
    let r = Selector::new(&chain, "()", None);
    assert_eq!(r.err(), Some(SelectorError::ParserExpectedTerm { location: 1 }));
}

#[test]
fn both_operators_pool_the_same() {
    let chain = sample_chain();
    let with_or = Selector::new(&chain, "alpha | beta", None).unwrap();
    let with_and = Selector::new(&chain, "alpha & beta", None).unwrap();
    let grouped = Selector::new(&chain, "(alpha) & (beta)", None).unwrap();
    assert_eq!(with_or.entries(), with_and.entries());
    assert_eq!(with_or.entries(), grouped.entries());
    assert_eq!(with_or.entries().len(), 3);
}

#[test]
fn single_name_pools_its_source() {
    let chain = sample_chain();
    let sel = Selector::new(&chain, "alpha", None).unwrap();
    assert_eq!(sel.entries(), &chain.sources[0].entries);
}

#[test]
fn name_with_inner_space_resolves() {
    let mut chain = MarkovChain::new();
    assert!(chain.append_text(
        "ex why zed.",
        &"sol onset".to_string(),
        Datestamp { year: 1, day: 1 }
    ));
    let sel = Selector::new(&chain, " sol onset ", None).unwrap();
    assert_eq!(sel.entries().len(), 1);
}

#[test]
fn date_range_filters_before_pooling() {
    let chain = sample_chain();
    let range = Some((Datestamp { year: 2019, day: 1 }, Datestamp { year: 2020, day: 1 }));
    let sel = Selector::new(&chain, "alpha | beta", range).unwrap();
    // only alpha's entries (2019 day 10) fall inside [2019.1, 2020.1)
    assert_eq!(sel.entries(), &chain.sources[0].entries);

    let empty_range = Some((Datestamp { year: 1990, day: 1 }, Datestamp { year: 1991, day: 1 }));
    let none = Selector::new(&chain, "alpha | beta", empty_range).unwrap();
    assert_eq!(none.entries().len(), 0);
}

#[test]
fn weight_is_proportional_to_entry_count() {
    let chain = sample_chain();
    let sel = Selector::new(&chain, "beta | alpha", None).unwrap();
    // beta contributes its 2 entries first, then alpha its 1
    assert_eq!(sel.entries().len(), 3);
    assert_eq!(&sel.entries()[0..2], &chain.sources[1].entries[..]);
    assert_eq!(sel.entries()[2], chain.sources[0].entries[0]);
}
