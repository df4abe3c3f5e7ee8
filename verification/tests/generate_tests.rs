use joebot_markov_chain::chain::{Datestamp, MarkovChain};
use joebot_markov_chain::selector::Selector;
use rand::rngs::SmallRng;
use rand::SeedableRng;

fn one_sentence_chain() -> MarkovChain {
    let mut chain = MarkovChain::new();
    assert!(chain.append_text("aa bb cc.", &"src".to_string(), Datestamp { year: 1, day: 1 }));
    chain
}

#[test]
fn generates_the_only_sentence() {
    let chain = one_sentence_chain();
    let sel = Selector::new(&chain, "src", None).unwrap();
    let mut rng = SmallRng::seed_from_u64(7);
    let out = chain.generate(&sel, &mut rng, 3, 10);
    assert_eq!(out, Some("aa bb cc.".to_string()));
}

#[test]
fn output_length_within_bounds_and_terminal() {
    let mut chain = MarkovChain::new();
    assert!(chain.append_text(
        "one two three four five six seven eight nine ten.",
        &"src".to_string(),
        Datestamp { year: 1, day: 1 }
    ));
    let sel = Selector::new(&chain, "src", None).unwrap();
    for seed in 0..20u64 {
        let mut rng = SmallRng::seed_from_u64(seed);
        if let Some(text) = chain.generate(&sel, &mut rng, 3, 12) {
            let words: Vec<&str> = text.split(' ').collect();
            assert!(words.len() >= 3);
            assert!(words.len() <= 12);
            // the only terminal word of this corpus ends the output
            assert_eq!(*words.last().unwrap(), "ten.");
        }
    }
}

#[test]
fn empty_pool_generates_nothing() {
    let chain = one_sentence_chain();
    let range = Some((Datestamp { year: 1990, day: 1 }, Datestamp { year: 1991, day: 1 }));
    let sel = Selector::new(&chain, "src", range).unwrap();
    let mut rng = SmallRng::seed_from_u64(1);
    assert_eq!(chain.generate(&sel, &mut rng, 3, 10), None);
}

#[test]
fn unreachable_minimum_generates_nothing() {
    let chain = one_sentence_chain();
    let sel = Selector::new(&chain, "src", None).unwrap();
    let mut rng = SmallRng::seed_from_u64(2);
    // the corpus has three words in total, so a four-word floor cannot be met
    assert_eq!(chain.generate(&sel, &mut rng, 4, 10), None);
}
