use joebot_markov_chain::append::{ExtractedMessage, MessageEvent};
use joebot_markov_chain::chain::{ChainEntry, ChainPrefix, ChainSuffix, Datestamp, MarkovChain};

fn dump_events() -> Vec<MessageEvent> {
    vec![
        MessageEvent::Start(0),
        MessageEvent::ShortNameExtracted("sota".to_string()),
        MessageEvent::DateExtracted("2018.01.21 12:00:00".to_string()),
        MessageEvent::BodyPartExtracted("Привет Denko Пью чай кофе.\nпок.".to_string()),
        MessageEvent::Start(0),
        MessageEvent::ShortNameExtracted("denko".to_string()),
        MessageEvent::DateExtracted("2018.01.21 12:00:05".to_string()),
        MessageEvent::BodyPartExtracted("ня".to_string()),
    ]
}

fn name_map() -> Vec<(String, String)> {
    vec![
        ("sota".to_string(), "so|ta".to_string()),
        ("denko".to_string(), "de|n|ko".to_string()),
    ]
}

#[test]
fn test_authors() {
    let mut chain = MarkovChain::new();
    let events = dump_events();
    let map = name_map();
    chain.append_message_dump(&events, &map).unwrap();
    assert_eq!(chain.sources[0].name, "so|ta");
    assert_eq!(chain.sources[1].name, "de|n|ko");
}

#[test]
fn test_word_nodes() {
    let mut chain = MarkovChain::new();
    let events = dump_events();
    let map = name_map();
    chain.append_message_dump(&events, &map).unwrap();
    assert_eq!(chain.words.lookup(0), Some(&"Привет".to_string()));
    assert_eq!(chain.words.lookup(1), Some(&"Denko".to_string()));
    assert_eq!(chain.words.lookup(2), Some(&"Пью".to_string()));

    assert_eq!(
        chain.sources[0].entries[0],
        ChainEntry {
            prefix: ChainPrefix::starting([0, 1]),
            suffix: ChainSuffix::nonterminal(2),
            datestamp: Datestamp { year: 2018, day: 21 },
        }
    );
    assert_eq!(
        chain.sources[0].entries.last(),
        Some(&ChainEntry {
            prefix: ChainPrefix::starting([3, 4]),
            suffix: ChainSuffix::terminal(5),
            datestamp: Datestamp { year: 2018, day: 21 },
        })
    );
}

#[test]
fn test_no_empty_words() {
    let mut chain = MarkovChain::new();
    let events = dump_events();
    let map = name_map();
    chain.append_message_dump(&events, &map).unwrap();

    let empty_words: Vec<usize> = chain
        .words
        .words_vec()
        .iter()
        .enumerate()
        .filter_map(|(i, w)| if w.is_empty() { Some(i) } else { None })
        .collect();
    assert_eq!(empty_words, vec![0usize; 0]);
}

#[test]
fn test_text() {
    let mut chain = MarkovChain::new();
    let ok = chain.append_text(
        "useless unreliable heavily distorted probe. flashing red.",
        &"angus|sol onset".to_string(),
        Datestamp { year: 0, day: 0 },
    );
    assert!(ok);
    let expected_words: Vec<String> = vec![
        "useless".to_string(),
        "unreliable".to_string(),
        "heavily".to_string(),
        "distorted".to_string(),
        "probe.".to_string(),
        "flashing".to_string(),
        "red.".to_string(),
    ];
    assert_eq!(chain.words.words_vec(), expected_words);
    assert_eq!(chain.sources[0].name, "angus|sol onset");
    assert_eq!(
        chain.sources[0].entries,
        vec![
            ChainEntry {
                prefix: ChainPrefix::starting([0, 1]),
                suffix: ChainSuffix::nonterminal(2),
                datestamp: Datestamp { year: 0, day: 0 },
            },
            ChainEntry {
                prefix: ChainPrefix::nonstarting([1, 2]),
                suffix: ChainSuffix::nonterminal(3),
                datestamp: Datestamp { year: 0, day: 0 },
            },
            ChainEntry {
                prefix: ChainPrefix::nonstarting([2, 3]),
                suffix: ChainSuffix::terminal(4),
                datestamp: Datestamp { year: 0, day: 0 },
            },
            ChainEntry {
                prefix: ChainPrefix::starting([3, 4]),
                suffix: ChainSuffix::nonterminal(5),
                datestamp: Datestamp { year: 0, day: 0 },
            },
            ChainEntry {
                prefix: ChainPrefix::nonstarting([4, 5]),
                suffix: ChainSuffix::terminal(6),
                datestamp: Datestamp { year: 0, day: 0 },
            },
        ]
    );
}

#[test]
fn newline_terminates_in_message_bodies() {
    // Ingesting a body with newline-as-terminator set: five words come out in
    // encounter order, flagged by the dot/newline/last-token rules.
    let mut chain = MarkovChain::new();
    let events = vec![
        MessageEvent::ShortNameExtracted("denko".to_string()),
        MessageEvent::DateExtracted("2020.01.02 03:04:05".to_string()),
        MessageEvent::BodyPartExtracted("Привет Denko. Пью чай\nкофе.".to_string()),
    ];
    let map = name_map();
    chain.append_message_dump(&events, &map).unwrap();
    let words = chain.words.words_vec();
    assert_eq!(
        words,
        vec![
            "Привет".to_string(),
            "Denko.".to_string(),
            "Пью".to_string(),
            "чай".to_string(),
            "кофе.".to_string(),
        ]
    );
    let ds = Datestamp { year: 2020, day: 2 };
    assert_eq!(
        chain.sources[0].entries,
        vec![
            ChainEntry {
                prefix: ChainPrefix::starting([0, 1]),
                suffix: ChainSuffix::nonterminal(2),
                datestamp: ds,
            },
            ChainEntry {
                prefix: ChainPrefix::nonstarting([1, 2]),
                suffix: ChainSuffix::terminal(3),
                datestamp: ds,
            },
            ChainEntry {
                prefix: ChainPrefix::starting([2, 3]),
                suffix: ChainSuffix::terminal(4),
                datestamp: ds,
            },
        ]
    );
}

#[test]
fn malformed_timestamp_is_fatal() {
    let mut chain = MarkovChain::new();
    let events = vec![
        MessageEvent::ShortNameExtracted("sota".to_string()),
        MessageEvent::DateExtracted("21-01-2018".to_string()),
        MessageEvent::BodyPartExtracted("раз два три".to_string()),
    ];
    let map = name_map();
    let r = chain.append_message_dump(&events, &map);
    assert!(r.is_err());
    assert!(chain.sources.is_empty());
}

#[test]
fn unmapped_short_names_are_dropped() {
    let mut chain = MarkovChain::new();
    let events = vec![
        MessageEvent::ShortNameExtracted("stranger".to_string()),
        MessageEvent::DateExtracted("2018.01.21 12:00:00".to_string()),
        MessageEvent::BodyPartExtracted("никто не узнает".to_string()),
    ];
    let map = name_map();
    chain.append_message_dump(&events, &map).unwrap();
    assert!(chain.sources.is_empty());
    assert_eq!(chain.words.len(), 0);
}

#[test]
fn fewer_than_three_tokens_yield_no_entries() {
    let mut chain = MarkovChain::new();
    assert!(chain.append_text("one two", &"s".to_string(), Datestamp { year: 1, day: 1 }));
    assert_eq!(chain.sources[0].entries.len(), 0);
    assert_eq!(chain.words.len(), 2);
    assert!(chain.append_text("one two three", &"s".to_string(), Datestamp { year: 1, day: 1 }));
    assert_eq!(chain.sources[0].entries.len(), 1);
}

#[test]
fn entry_flags_chain_across_windows() {
    // Entry 0 is starting; afterwards an entry starts exactly when the one
    // before it ended a sentence.
    let mut chain = MarkovChain::new();
    assert!(chain.append_text(
        "a b? c d e. f g",
        &"s".to_string(),
        Datestamp { year: 3, day: 33 }
    ));
    let entries = &chain.sources[0].entries;
    assert!(entries[0].prefix.is_starting());
    for i in 1..entries.len() {
        assert_eq!(entries[i].prefix.is_starting(), entries[i - 1].suffix.is_terminal());
    }
    assert_eq!(entries.len(), 5);
}

#[test]
fn extracted_message_fields_carry_over() {
    let m = ExtractedMessage {
        short_name: "sota".to_string(),
        datestamp: Datestamp { year: 2018, day: 21 },
        body: "тело".to_string(),
    };
    assert_eq!(m.short_name, "sota");
    assert_eq!(m.datestamp, Datestamp { year: 2018, day: 21 });
}
