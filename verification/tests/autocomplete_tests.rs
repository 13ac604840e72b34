use autocomplete_rs::autocomplete::{Autocomplete, Autocomplete2, InputMismatch};

fn strings_of(words: &[&str]) -> Vec<String> {
    words.iter().map(|w| w.to_string()).collect()
}

/// A score as the engine takes it: the bits of a float that is not
/// negative order as the float does.
fn score(value: f32) -> u32 {
    assert!(value >= 0.0);
    value.to_bits()
}

fn value(score: u32) -> f32 {
    f32::from_bits(score)
}

fn pairs(results: Vec<(String, u32)>) -> Vec<(String, f32)> {
    results.into_iter().map(|(text, score)| (text, value(score))).collect()
}

fn hello_help_hell() -> Autocomplete {
    let mut engine = Autocomplete::new();
    let done = engine.init(
        &strings_of(&["hello", "help", "hell"]),
        &[score(1.0), score(0.8), score(0.6)],
    );
    assert_eq!(done, Ok(()));
    engine
}

#[test]
fn hel_completes_to_three_by_score() {
    let engine = hello_help_hell();
    assert_eq!(
        pairs(engine.complete("hel", 10)),
        vec![("hello".to_string(), 1.0), ("help".to_string(), 0.8), ("hell".to_string(), 0.6)]
    );
}

#[test]
fn wor_completes_to_nothing() {
    let engine = hello_help_hell();
    assert_eq!(engine.complete("wor", 10), Vec::<(String, u32)>::new());
}

#[test]
fn second_engine_completes_alike() {
    let mut engine = Autocomplete2::new();
    let done = engine.init(
        &strings_of(&["hello", "help", "hell"]),
        &[score(1.0), score(0.8), score(0.6)],
    );
    assert_eq!(done, Ok(()));
    assert_eq!(
        pairs(engine.complete("hel", 10)),
        vec![("hello".to_string(), 1.0), ("help".to_string(), 0.8), ("hell".to_string(), 0.6)]
    );
    assert_eq!(engine.complete("wor", 10), Vec::<(String, u32)>::new());
    assert_eq!(engine.num_terms(), 3);
}

#[test]
fn new_engine_is_empty() {
    let engine = Autocomplete::new();
    assert_eq!(engine.num_terms(), 0);
    assert_eq!(engine.complete("", 10), Vec::<(String, u32)>::new());
    assert_eq!(engine.complete("a", 10), Vec::<(String, u32)>::new());
}

#[test]
fn init_refuses_strings_and_scores_that_differ_in_number() {
    let mut engine = hello_help_hell();
    let done = engine.init(&strings_of(&["a", "b"]), &[1]);
    assert_eq!(done, Err(InputMismatch { strings: 2, scores: 1 }));
    let done = engine.init(&[], &[1, 2, 3]);
    assert_eq!(done, Err(InputMismatch { strings: 0, scores: 3 }));
    // The engine stays as it was.
    assert_eq!(engine.num_terms(), 3);
    assert_eq!(engine.complete("hel", 1), vec![("hello".to_string(), score(1.0))]);
}

#[test]
fn init_replaces_the_corpus() {
    let mut engine = hello_help_hell();
    assert_eq!(engine.init(&strings_of(&["world"]), &[7]), Ok(()));
    assert_eq!(engine.num_terms(), 1);
    assert_eq!(engine.complete("", 10), vec![("world".to_string(), 7)]);
    assert_eq!(engine.complete("hel", 10), Vec::<(String, u32)>::new());
    assert_eq!(engine.init(&[], &[]), Ok(()));
    assert_eq!(engine.num_terms(), 0);
    assert_eq!(engine.complete("", 10), Vec::<(String, u32)>::new());
}

#[test]
fn empty_prefix_matches_the_whole_corpus() {
    let engine = hello_help_hell();
    assert_eq!(
        engine.complete("", 10),
        vec![
            ("hello".to_string(), score(1.0)),
            ("help".to_string(), score(0.8)),
            ("hell".to_string(), score(0.6)),
        ]
    );
}

#[test]
fn round_trip_from_every_prefix() {
    let words = strings_of(&["hello", "help", "hell", "world", "wo", "", "日本語", "日本", "naïve"]);
    let scores: Vec<u32> = (0..words.len() as u32).map(|i| (i * 5) % 7).collect();
    let mut engine = Autocomplete::new();
    assert_eq!(engine.init(&words, &scores), Ok(()));
    assert_eq!(engine.num_terms(), words.len());
    for (word, score) in words.iter().zip(&scores) {
        let mut ends: Vec<usize> = word.char_indices().map(|(at, _)| at).collect();
        ends.push(word.len());
        for end in ends {
            let results = engine.complete(&word[..end], words.len());
            assert!(
                results.contains(&(word.clone(), *score)),
                "{:?} is not completed from {:?}",
                word,
                &word[..end]
            );
        }
    }
}

#[test]
fn top_k_for_every_k() {
    let words = strings_of(&["ab", "abc", "abd", "b", "a", "abe", "abf", "ac"]);
    let scores = vec![5, 9, 1, 8, 5, 9, 3, 5];
    let mut engine = Autocomplete::new();
    assert_eq!(engine.init(&words, &scores), Ok(()));
    for prefix in ["", "a", "ab", "abc", "b", "x"] {
        let mut expected: Vec<(String, u32)> = words
            .iter()
            .cloned()
            .zip(scores.iter().cloned())
            .filter(|(word, _)| word.starts_with(prefix))
            .collect();
        expected.sort_by(|a, b| b.1.cmp(&a.1).then(a.0.cmp(&b.0)));
        for k in 0..=words.len() + 2 {
            let results = engine.complete(prefix, k);
            let cut = k.min(expected.len());
            assert_eq!(results, expected[..cut].to_vec(), "prefix {:?}, k {}", prefix, k);
        }
    }
}

#[test]
fn k_of_zero_asks_for_nothing() {
    let engine = hello_help_hell();
    assert_eq!(engine.complete("hel", 0), Vec::<(String, u32)>::new());
}

#[test]
fn k_cuts_after_the_best() {
    let engine = hello_help_hell();
    assert_eq!(engine.complete("hel", 1), vec![("hello".to_string(), score(1.0))]);
    assert_eq!(
        engine.complete("hel", 2),
        vec![("hello".to_string(), score(1.0)), ("help".to_string(), score(0.8))]
    );
    assert_eq!(engine.complete("hel", 3).len(), 3);
    assert_eq!(engine.complete("hel", usize::MAX).len(), 3);
}

#[test]
fn equal_scores_are_ordered_by_text() {
    let mut engine = Autocomplete::new();
    let words = strings_of(&["pear", "peach", "pea", "Pear", "pé"]);
    assert_eq!(engine.init(&words, &[3, 3, 3, 3, 3]), Ok(()));
    let texts: Vec<String> = engine.complete("", 10).into_iter().map(|r| r.0).collect();
    assert_eq!(texts, strings_of(&["Pear", "pea", "peach", "pear", "pé"]));
    let texts: Vec<String> = engine.complete("pe", 2).into_iter().map(|r| r.0).collect();
    assert_eq!(texts, strings_of(&["pea", "peach"]));
}

#[test]
fn a_repeated_string_is_one_term_with_its_last_score() {
    let mut engine = Autocomplete::new();
    let words = strings_of(&["a", "b", "a", "c", "a", "b"]);
    assert_eq!(engine.init(&words, &[1, 2, 3, 4, 5, 6]), Ok(()));
    assert_eq!(engine.num_terms(), 3);
    assert_eq!(
        engine.complete("", 10),
        vec![("b".to_string(), 6), ("a".to_string(), 5), ("c".to_string(), 4)]
    );
}

#[test]
fn prefixes_are_prefixes_of_characters() {
    let mut engine = Autocomplete::new();
    let words = strings_of(&["日本語", "日本", "日", "月"]);
    assert_eq!(engine.init(&words, &[1, 2, 3, 4]), Ok(()));
    assert_eq!(
        engine.complete("日本", 10),
        vec![("日本".to_string(), 2), ("日本語".to_string(), 1)]
    );
    assert_eq!(engine.complete("日", 1), vec![("日".to_string(), 3)]);
    assert_eq!(engine.complete("本", 10), Vec::<(String, u32)>::new());
}

#[test]
fn the_two_engines_agree() {
    let words: Vec<String> = (0..120u32)
        .map(|i| format!("{}{}", ["car", "cart", "care", "dog", "do"][(i % 5) as usize], i % 40))
        .collect();
    let scores: Vec<u32> = (0..120u32).map(|i| (i * 13) % 17).collect();
    let mut first = Autocomplete::new();
    let mut second = Autocomplete2::new();
    assert_eq!(first.init(&words, &scores), Ok(()));
    assert_eq!(second.init(&words, &scores), Ok(()));
    assert_eq!(first.num_terms(), second.num_terms());
    for prefix in ["", "c", "car", "cart", "care1", "d", "do", "dog3", "x"] {
        for k in [0usize, 1, 3, 15, 200] {
            assert_eq!(first.complete(prefix, k), second.complete(prefix, k));
        }
    }
}

#[test]
fn second_engine_refuses_a_mismatch() {
    let mut engine = Autocomplete2::new();
    assert_eq!(
        engine.init(&strings_of(&["a"]), &[]),
        Err(InputMismatch { strings: 1, scores: 0 })
    );
    assert_eq!(engine.num_terms(), 0);
}

#[test]
fn footprint_of_hello_help_hell() {
    let word = std::mem::size_of::<usize>();
    let engine = hello_help_hell();
    // Pool: 13 bytes, 4 offsets, 3 scores. Trie: 7 nodes. Dictionary: two
    // counters, 3 offsets, 8 bytes of records. Postings: 3 blocks.
    let pool = 13 + 4 * word + 3 * 4;
    let trie = 7 * 4;
    let dictionary = 5 * word + 8;
    let postings = 3 * 4;
    assert_eq!(engine.bytes(), pool + trie + dictionary + postings);
    assert_eq!(Autocomplete::new().bytes(), word + 4 + 2 * word);
}

#[test]
fn footprint_of_the_second_engine() {
    let word = std::mem::size_of::<usize>();
    let mut engine = Autocomplete2::new();
    let done = engine.init(&strings_of(&["hello", "help", "hell"]), &[3, 2, 1]);
    assert_eq!(done, Ok(()));
    let pool = 13 + 4 * word + 3 * 4;
    let trie = 7 * 4;
    let dictionary = 4 * word + 4 + 4;
    let postings = 3 * 4;
    assert_eq!(engine.bytes(), pool + trie + dictionary + postings);
}

#[test]
fn a_large_corpus() {
    let count = 20_000u32;
    let words: Vec<String> = (0..count)
        .map(|i| format!("w{:05}", (i.wrapping_mul(7919)) % count))
        .collect();
    let scores: Vec<u32> = (0..count).map(|i| (i.wrapping_mul(31)) % 1000).collect();
    let mut engine = Autocomplete::new();
    assert_eq!(engine.init(&words, &scores), Ok(()));
    let mut second = Autocomplete2::new();
    assert_eq!(second.init(&words, &scores), Ok(()));

    let mut distinct: Vec<(String, u32)> = Vec::new();
    {
        let mut last: std::collections::BTreeMap<&str, u32> = std::collections::BTreeMap::new();
        for (word, score) in words.iter().zip(&scores) {
            last.insert(word, *score);
        }
        for (word, score) in last {
            distinct.push((word.to_string(), score));
        }
    }
    assert_eq!(engine.num_terms(), distinct.len());
    assert_eq!(second.num_terms(), distinct.len());

    for prefix in ["", "w", "w0", "w01", "w019", "w1999", "w19999", "w2", "x"] {
        let mut expected: Vec<(String, u32)> = distinct
            .iter()
            .filter(|(word, _)| word.starts_with(prefix))
            .cloned()
            .collect();
        expected.sort_by(|a, b| b.1.cmp(&a.1).then(a.0.cmp(&b.0)));
        expected.truncate(15);
        assert_eq!(engine.complete(prefix, 15), expected, "prefix {:?}", prefix);
        assert_eq!(second.complete(prefix, 15), expected, "prefix {:?}", prefix);
    }
}
