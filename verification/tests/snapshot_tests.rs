use joebot_markov_chain::chain::{Datestamp, MarkovChain};

fn sample_chain() -> MarkovChain {
    let mut chain = MarkovChain::new();
    assert!(chain.append_text(
        "Привет Denko. Пью чай кофе.",
        &"so|ta".to_string(),
        Datestamp { year: 2018, day: 21 }
    ));
    assert!(chain.append_text(
        "useless unreliable heavily distorted probe.",
        &"angus|sol onset".to_string(),
        Datestamp { year: 0, day: 0 }
    ));
    assert!(chain.append_text(
        "útil inútil útil.",
        &"so|ta".to_string(),
        Datestamp { year: -1, day: 300 }
    ));
    chain
}

#[test]
fn snapshot_round_trip_reproduces_the_chain() {
    let chain = sample_chain();
    let bytes = chain.to_snapshot();
    let back = MarkovChain::from_snapshot(&bytes).expect("snapshot decodes");
    assert_eq!(back.words.words_vec(), chain.words.words_vec());
    assert_eq!(back.sources, chain.sources);
}

#[test]
fn snapshot_round_trip_function_reproduces_the_chain() {
    let chain = sample_chain();
    let back = chain.snapshot_round_trip();
    assert_eq!(back.words.words_vec(), chain.words.words_vec());
    assert_eq!(back.sources, chain.sources);
}

#[test]
fn empty_chain_round_trips() {
    let chain = MarkovChain::new();
    let bytes = chain.to_snapshot();
    let back = MarkovChain::from_snapshot(&bytes).expect("snapshot decodes");
    assert_eq!(back.words.len(), 0);
    assert!(back.sources.is_empty());
}

#[test]
fn truncated_snapshot_is_refused() {
    let chain = sample_chain();
    let mut bytes = chain.to_snapshot();
    bytes.pop();
    assert!(MarkovChain::from_snapshot(&bytes).is_none());
}

#[test]
fn trailing_garbage_is_refused() {
    let chain = sample_chain();
    let mut bytes = chain.to_snapshot();
    bytes.push(0);
    assert!(MarkovChain::from_snapshot(&bytes).is_none());
}

#[test]
fn out_of_range_word_index_is_refused() {
    // one word, one source, one entry whose indices point past the vocabulary
    let mut chain = MarkovChain::new();
    assert!(chain.append_text("aa bb cc.", &"s".to_string(), Datestamp { year: 1, day: 1 }));
    let bytes = chain.to_snapshot();
    // the first entry field (prefix index 0) sits after: vocab count,
    // 3 words of (len + chars), source name (len + 1 char), entry count
    let mut off = 8;
    for w in ["aa", "bb", "cc."] {
        off += 8 + 8 * w.chars().count();
    }
    off += 8 + 8; // source name "s"
    off += 8; // entry count
    let mut bad = bytes.clone();
    bad[off] = 0xEE; // prefix word index far past the 3-word vocabulary
    assert!(MarkovChain::from_snapshot(&bad).is_none());
}
