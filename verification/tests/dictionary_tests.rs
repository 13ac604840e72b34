use autocomplete_rs::dictionary::{FCDictionary, IntegerFCDictionary, BUCKET_SIZE};
use autocomplete_rs::front_coding::MAX_SHARED;

fn strings_of(words: &[&str]) -> Vec<String> {
    words.iter().map(|w| w.to_string()).collect()
}

const WORD: usize = std::mem::size_of::<usize>();

#[test]
fn empty_dictionary() {
    let dictionary = FCDictionary::new();
    assert_eq!(dictionary.size(), 0);
    assert_eq!(dictionary.total_size(), 0);
    assert_eq!(dictionary.lookup(0), None);
    assert_eq!(dictionary.lookup(1), None);
    assert_eq!(dictionary.bytes(), 2 * WORD);
}

#[test]
fn front_coding_of_hell_hello_help() {
    // "hell" is stored as it is; "hello" shares 4 bytes with "hell" and
    // adds "o"; "help" shares 3 bytes with "hello" and adds "p". Each record
    // takes one byte for the shared length and one for its suffix.
    let mut dictionary = FCDictionary::new();
    dictionary.build(&strings_of(&["hell", "hello", "help"]));
    assert_eq!(dictionary.size(), 3);
    assert_eq!(dictionary.total_size(), 4 + (1 + 1) + (1 + 1));
    assert_eq!(dictionary.lookup(1), Some("hell".to_string()));
    assert_eq!(dictionary.lookup(2), Some("hello".to_string()));
    assert_eq!(dictionary.lookup(3), Some("help".to_string()));
    assert_eq!(dictionary.bytes(), 5 * WORD + 8);
}

#[test]
fn build_sorts_byte_wise() {
    let mut dictionary = FCDictionary::new();
    dictionary.build(&strings_of(&["hello", "help", "hell"]));
    assert_eq!(dictionary.lookup(1), Some("hell".to_string()));
    assert_eq!(dictionary.lookup(2), Some("hello".to_string()));
    assert_eq!(dictionary.lookup(3), Some("help".to_string()));

    // Upper case before lower case, and "é" (two bytes, the first 0xC3)
    // after every ASCII letter.
    dictionary.build(&strings_of(&["b", "a", "é", "B", "", "ab", "z"]));
    let found: Vec<String> = (1..=7).map(|id| dictionary.lookup(id).unwrap()).collect();
    assert_eq!(found, strings_of(&["", "B", "a", "ab", "b", "z", "é"]));
}

#[test]
fn lookup_of_no_identifier() {
    let mut dictionary = FCDictionary::new();
    dictionary.build(&strings_of(&["b", "a"]));
    assert_eq!(dictionary.lookup(0), None);
    assert_eq!(dictionary.lookup(3), None);
    assert_eq!(dictionary.lookup(u32::MAX), None);
    assert_eq!(dictionary.lookup(2), Some("b".to_string()));
}

#[test]
fn build_keeps_repeated_strings() {
    let mut dictionary = FCDictionary::new();
    dictionary.build(&strings_of(&["b", "a", "b", "a", "a"]));
    assert_eq!(dictionary.size(), 5);
    let found: Vec<String> = (1..=5).map(|id| dictionary.lookup(id).unwrap()).collect();
    assert_eq!(found, strings_of(&["a", "a", "a", "b", "b"]));
    // "a", then four records that share everything: one byte each.
    assert_eq!(dictionary.total_size(), 1 + 1 + 1 + 2 + 1);
}

#[test]
fn build_replaces_the_contents() {
    let mut dictionary = FCDictionary::new();
    dictionary.build(&strings_of(&["one", "two", "three"]));
    dictionary.build(&strings_of(&["four"]));
    assert_eq!(dictionary.size(), 1);
    assert_eq!(dictionary.lookup(1), Some("four".to_string()));
    assert_eq!(dictionary.lookup(2), None);
    dictionary.build(&[]);
    assert_eq!(dictionary.size(), 0);
    assert_eq!(dictionary.total_size(), 0);
    assert_eq!(dictionary.lookup(1), None);
}

#[test]
fn round_trip_of_every_string() {
    let words = strings_of(&[
        "prefix", "pre", "", "preface", "prefixes", "prelude", "a", "zebra", "zeal", "日本", "日本語",
        "naïve", "naive", "pre", "PRE",
    ]);
    let mut dictionary = FCDictionary::new();
    dictionary.build(&words);
    let mut expected = words.clone();
    expected.sort();
    let found: Vec<String> = (1..=words.len() as u32)
        .map(|id| dictionary.lookup(id).unwrap())
        .collect();
    assert_eq!(found, expected);
    for word in &words {
        assert!(found.contains(word));
    }
}

#[test]
fn shared_prefix_longer_than_a_byte_can_say() {
    let long = "a".repeat(300);
    let words = vec![format!("{}b", long), format!("{}c", long), long.clone()];
    let mut dictionary = FCDictionary::new();
    dictionary.build(&words);
    assert_eq!(dictionary.lookup(1), Some(long.clone()));
    assert_eq!(dictionary.lookup(2), Some(format!("{}b", long)));
    assert_eq!(dictionary.lookup(3), Some(format!("{}c", long)));
    // The first string whole; then "…b" shares 300 bytes but only 255 are
    // claimed, so 46 bytes follow the shared length; "…c" the same.
    assert_eq!(MAX_SHARED, 255);
    assert_eq!(dictionary.total_size(), 300 + (1 + 46) + (1 + 46));
}

#[test]
fn shared_prefix_of_exactly_255_and_256_bytes() {
    for shared in [254usize, 255, 256, 257] {
        let stem = "x".repeat(shared);
        let words = vec![format!("{}a", stem), format!("{}b", stem)];
        let mut dictionary = FCDictionary::new();
        dictionary.build(&words);
        assert_eq!(dictionary.lookup(1), Some(words[0].clone()));
        assert_eq!(dictionary.lookup(2), Some(words[1].clone()));
        let claimed = shared.min(255);
        assert_eq!(dictionary.total_size(), (shared + 1) + 1 + (shared + 1 - claimed));
    }
}

#[test]
fn bucketed_dictionary_of_hell_hello_help() {
    let mut dictionary = IntegerFCDictionary::new();
    dictionary.build(&strings_of(&["hello", "help", "hell"]));
    assert_eq!(dictionary.size(), 3);
    assert_eq!(dictionary.lookup(1), Some("hell".to_string()));
    assert_eq!(dictionary.lookup(2), Some("hello".to_string()));
    assert_eq!(dictionary.lookup(3), Some("help".to_string()));
    assert_eq!(dictionary.lookup(0), None);
    assert_eq!(dictionary.lookup(4), None);
    // One counter and three offsets; the header "hell"; the records of
    // "hello" and "help", two bytes each.
    assert_eq!(dictionary.bytes(), 4 * WORD + 4 + 4);
}

#[test]
fn bucketed_dictionary_extracts_bytes() {
    let mut dictionary = IntegerFCDictionary::new();
    dictionary.build(&strings_of(&["hello", "help", "hell"]));
    let mut completion = vec![1u8, 2, 3];
    assert_eq!(dictionary.extract(2, &mut completion), 5);
    assert_eq!(completion, b"hello".to_vec());
    assert_eq!(dictionary.extract(3, &mut completion), 4);
    assert_eq!(completion, b"help".to_vec());
    // No such identifier: the result is 0 and the buffer stays.
    assert_eq!(dictionary.extract(0, &mut completion), 0);
    assert_eq!(completion, b"help".to_vec());
    assert_eq!(dictionary.extract(4, &mut completion), 0);
    assert_eq!(completion, b"help".to_vec());
}

#[test]
fn bucketed_dictionary_across_buckets() {
    assert_eq!(BUCKET_SIZE, 16);
    for count in [1usize, 15, 16, 17, 31, 32, 33, 100] {
        let words: Vec<String> = (0..count).map(|i| format!("term{:03}x", (i * 7) % count)).collect();
        let mut expected = words.clone();
        expected.sort();
        let mut dictionary = IntegerFCDictionary::new();
        dictionary.build(&words);
        assert_eq!(dictionary.size(), count);
        for (i, word) in expected.iter().enumerate() {
            assert_eq!(dictionary.lookup(i as u32 + 1).as_ref(), Some(word));
        }
        assert_eq!(dictionary.lookup(count as u32 + 1), None);
    }
}

#[test]
fn bucketed_dictionary_footprint_counts_headers_whole() {
    // 17 strings "k00" … "k16": two buckets, so two headers of 3 bytes, and
    // 15 records. "k10" shares one byte with "k09" and adds two; the other
    // 14 share two bytes and add one.
    let words: Vec<String> = (0..17).map(|i| format!("k{:02}", i)).collect();
    let mut dictionary = IntegerFCDictionary::new();
    dictionary.build(&words);
    assert_eq!(dictionary.bytes(), 18 * WORD + 2 * 3 + 14 * 2 + 3);
}

#[test]
fn bucketed_dictionary_long_strings() {
    let long = "a".repeat(700);
    let words = vec![format!("{}b", long), long.clone(), format!("{}c", long), String::new()];
    let mut dictionary = IntegerFCDictionary::new();
    dictionary.build(&words);
    assert_eq!(dictionary.lookup(1), Some(String::new()));
    assert_eq!(dictionary.lookup(2), Some(long.clone()));
    assert_eq!(dictionary.lookup(3), Some(format!("{}b", long)));
    assert_eq!(dictionary.lookup(4), Some(format!("{}c", long)));
    let mut completion = Vec::new();
    assert_eq!(dictionary.extract(3, &mut completion), 701);
    assert_eq!(dictionary.extract(1, &mut completion), 0);
    assert!(completion.is_empty());
}

#[test]
fn the_two_dictionaries_agree() {
    let words: Vec<String> = (0..200u32)
        .map(|i| format!("{}{}", ["alpha", "alp", "beta", "be", "γάμμα"][(i % 5) as usize], i * 37 % 91))
        .collect();
    let mut plain = FCDictionary::new();
    let mut bucketed = IntegerFCDictionary::new();
    plain.build(&words);
    bucketed.build(&words);
    assert_eq!(plain.size(), bucketed.size());
    for id in 0..=201u32 {
        assert_eq!(plain.lookup(id), bucketed.lookup(id));
    }
}
