use joebot_markov_chain::vocab::Vocabulary;

#[test]
fn interning_is_idempotent() {
    let mut v = Vocabulary::new();
    assert_eq!(v.intern("Привет".to_string()), Some(0));
    assert_eq!(v.intern("Denko".to_string()), Some(1));
    assert_eq!(v.intern("Привет".to_string()), Some(0));
    assert_eq!(v.intern("Denko".to_string()), Some(1));
    assert_eq!(v.len(), 2);
}

#[test]
fn vocabulary_grows_one_index_per_distinct_word() {
    let mut v = Vocabulary::new();
    let words = ["a", "b", "a", "c", "b", "d"];
    let mut seen: Vec<&str> = Vec::new();
    for w in words {
        let before = v.len();
        let idx = v.intern(w.to_string()).unwrap();
        if seen.contains(&w) {
            assert_eq!(v.len(), before);
        } else {
            assert_eq!(v.len(), before + 1);
            assert_eq!(idx as usize, before);
            seen.push(w);
        }
    }
    assert_eq!(v.len(), 4);
}

#[test]
fn lookup_is_total_over_valid_indices() {
    let mut v = Vocabulary::new();
    v.intern("uno".to_string()).unwrap();
    v.intern("dos".to_string()).unwrap();
    assert_eq!(v.lookup(0), Some(&"uno".to_string()));
    assert_eq!(v.lookup(1), Some(&"dos".to_string()));
    assert_eq!(v.lookup(2), None);
    assert_eq!(v.lookup(1000), None);
}

#[test]
fn words_vec_lists_first_seen_order() {
    let mut v = Vocabulary::new();
    for w in ["z", "y", "x", "y"] {
        v.intern(w.to_string()).unwrap();
    }
    assert_eq!(v.words_vec(), vec!["z".to_string(), "y".to_string(), "x".to_string()]);
}
