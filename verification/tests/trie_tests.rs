use autocomplete_rs::trie::{CompletionTrie, TrieNode};

fn sorted(mut ids: Vec<u32>) -> Vec<u32> {
    ids.sort();
    ids
}

#[test]
fn empty_trie_completes_nothing() {
    let trie = CompletionTrie::new();
    assert_eq!(trie.complete(""), Vec::<u32>::new());
    assert_eq!(trie.complete("a"), Vec::<u32>::new());
    assert_eq!(trie.num_nodes(), 1);
    assert_eq!(trie.num_completions(), 0);
}

#[test]
fn complete_walks_depth_first_in_creation_order() {
    let mut trie = CompletionTrie::new();
    trie.insert("hello", 1);
    trie.insert("help", 2);
    trie.insert("hell", 3);
    // Below "hel": the child 'l' was created first; "hell" ends there and
    // comes before "hello" below it; the child 'p' was created second.
    assert_eq!(trie.complete("hel"), vec![3, 1, 2]);
    assert_eq!(trie.complete(""), vec![3, 1, 2]);
    assert_eq!(trie.complete("hell"), vec![3, 1]);
    assert_eq!(trie.complete("hello"), vec![1]);
    assert_eq!(trie.complete("help"), vec![2]);
    assert_eq!(trie.complete("helpx"), Vec::<u32>::new());
    assert_eq!(trie.complete("wor"), Vec::<u32>::new());
    assert_eq!(trie.num_completions(), 3);
}

#[test]
fn insert_counts_the_nodes_it_creates() {
    let mut trie = CompletionTrie::new();
    trie.insert("hello", 1);
    assert_eq!(trie.num_nodes(), 6);
    trie.insert("help", 2);
    assert_eq!(trie.num_nodes(), 7);
    trie.insert("hell", 3);
    assert_eq!(trie.num_nodes(), 7);
    trie.insert("", 4);
    assert_eq!(trie.num_nodes(), 7);
    trie.insert("x", 5);
    assert_eq!(trie.num_nodes(), 8);
}

#[test]
fn a_text_may_hold_several_identifiers() {
    let mut trie = CompletionTrie::new();
    trie.insert("ab", 7);
    trie.insert("ab", 9);
    trie.insert("ab", 7);
    assert_eq!(trie.complete("a"), vec![7, 9, 7]);
    assert_eq!(trie.num_completions(), 3);
    assert!(trie.remove("ab"));
    assert_eq!(trie.complete("a"), Vec::<u32>::new());
    assert_eq!(trie.num_completions(), 0);
    assert_eq!(trie.num_nodes(), 1);
}

#[test]
fn the_empty_text_ends_at_the_root() {
    let mut trie = CompletionTrie::new();
    trie.insert("", 5);
    trie.insert("a", 6);
    assert_eq!(trie.complete(""), vec![5, 6]);
    assert_eq!(trie.complete("a"), vec![6]);
    assert!(trie.remove(""));
    assert!(!trie.remove(""));
    assert_eq!(trie.complete(""), vec![6]);
    assert_eq!(trie.num_nodes(), 2);
}

#[test]
fn prefix_monotonicity_on_examples() {
    let mut trie = CompletionTrie::new();
    let words = ["a", "ab", "abc", "abd", "b", "ba", "", "abcde", "zz"];
    for (i, word) in words.iter().enumerate() {
        trie.insert(word, i as u32 + 1);
    }
    let prefixes = ["", "a", "ab", "abc", "abcd", "abcde", "abcdef", "b", "ba", "z", "zz", "q"];
    for shorter in prefixes {
        for longer in prefixes {
            if longer.starts_with(shorter) {
                let wide = trie.complete(shorter);
                for id in trie.complete(longer) {
                    assert!(wide.contains(&id), "{:?} under {:?} but not {:?}", id, longer, shorter);
                }
            }
        }
    }
    for prefix in prefixes {
        let mut expected = Vec::new();
        for (i, word) in words.iter().enumerate() {
            if word.starts_with(prefix) {
                expected.push(i as u32 + 1);
            }
        }
        assert_eq!(sorted(trie.complete(prefix)), expected);
    }
}

#[test]
fn remove_twice_returns_false_the_second_time() {
    let mut trie = CompletionTrie::new();
    trie.insert("hello", 1);
    trie.insert("help", 2);
    assert!(trie.remove("hello"));
    assert!(!trie.remove("hello"));
    assert_eq!(trie.complete(""), vec![2]);
}

#[test]
fn remove_of_what_was_never_inserted_returns_false() {
    let mut trie = CompletionTrie::new();
    trie.insert("hello", 1);
    // No path.
    assert!(!trie.remove("world"));
    assert!(!trie.remove("hellos"));
    // A path, but no completion ends there.
    assert!(!trie.remove("hel"));
    assert!(!trie.remove(""));
    assert_eq!(trie.complete(""), vec![1]);
    assert_eq!(trie.num_nodes(), 6);
}

#[test]
fn removed_text_is_completed_from_none_of_its_prefixes() {
    let mut trie = CompletionTrie::new();
    trie.insert("hello", 1);
    trie.insert("help", 2);
    trie.insert("hell", 3);
    assert!(trie.remove("hell"));
    for prefix in ["", "h", "he", "hel", "hell"] {
        assert!(!trie.complete(prefix).contains(&3));
    }
    assert_eq!(trie.complete("hel"), vec![1, 2]);
}

#[test]
fn remove_prunes_the_dead_end_and_no_more() {
    let mut trie = CompletionTrie::new();
    trie.insert("hello", 1);
    trie.insert("help", 2);
    trie.insert("hell", 3);
    assert_eq!(trie.num_nodes(), 7);
    // "hello" ends in a leaf: the leaf goes, "hell" stays.
    assert!(trie.remove("hello"));
    assert_eq!(trie.num_nodes(), 6);
    // "hell" is a leaf now: it goes, "hel" has the child 'p' and stays.
    assert!(trie.remove("hell"));
    assert_eq!(trie.num_nodes(), 5);
    // The last completion takes the whole path with it.
    assert!(trie.remove("help"));
    assert_eq!(trie.num_nodes(), 1);
    assert_eq!(trie.num_completions(), 0);
}

#[test]
fn remove_of_an_inner_text_prunes_nothing() {
    let mut trie = CompletionTrie::new();
    trie.insert("ab", 1);
    trie.insert("abcd", 2);
    assert_eq!(trie.num_nodes(), 5);
    assert!(trie.remove("ab"));
    assert_eq!(trie.num_nodes(), 5);
    assert_eq!(trie.complete("a"), vec![2]);
    assert!(trie.remove("abcd"));
    assert_eq!(trie.num_nodes(), 1);
}

#[test]
fn insert_and_remove_in_turn_do_not_grow_the_trie() {
    let mut trie = CompletionTrie::new();
    trie.insert("keep", 1);
    let nodes = trie.num_nodes();
    for round in 0..50u32 {
        trie.insert("keeper of the flame", round + 2);
        assert!(trie.remove("keeper of the flame"));
        assert_eq!(trie.num_nodes(), nodes);
    }
    assert_eq!(trie.complete(""), vec![1]);
}

#[test]
fn clear_leaves_the_root_alone() {
    let mut trie = CompletionTrie::new();
    trie.insert("hello", 1);
    trie.insert("help", 2);
    trie.clear();
    assert_eq!(trie.complete(""), Vec::<u32>::new());
    assert_eq!(trie.num_nodes(), 1);
    assert_eq!(trie.num_completions(), 0);
    trie.insert("a", 3);
    assert_eq!(trie.complete(""), vec![3]);
}

#[test]
fn texts_are_walked_by_characters_not_bytes() {
    let mut trie = CompletionTrie::new();
    trie.insert("né", 1);
    trie.insert("nè", 2);
    trie.insert("日本語", 3);
    // One node for each character.
    assert_eq!(trie.num_nodes(), 1 + 3 + 3);
    assert_eq!(trie.complete("n"), vec![1, 2]);
    assert_eq!(trie.complete("né"), vec![1]);
    assert_eq!(trie.complete("日本"), vec![3]);
    assert_eq!(trie.complete("本"), Vec::<u32>::new());
}

#[test]
fn node_starts_empty() {
    let node = TrieNode::new();
    assert!(!node.is_terminal());
    assert!(node.completion_ids().is_empty());
    assert!(node.get_child('a').is_none());
}

#[test]
fn node_add_child_creates_once() {
    let mut node = TrieNode::new();
    node.add_child('a').add_completion_id(1);
    node.add_child('b').add_completion_id(2);
    node.add_child('a').add_completion_id(3);
    node.add_child('a').set_terminal();
    let a = node.get_child('a').unwrap();
    assert!(a.is_terminal());
    assert_eq!(a.completion_ids(), &[1u32, 3][..]);
    let b = node.get_child('b').unwrap();
    assert!(!b.is_terminal());
    assert_eq!(b.completion_ids(), &[2u32][..]);
    assert!(node.get_child('c').is_none());
}

#[test]
fn node_marks_and_identifiers_are_independent() {
    let mut node = TrieNode::new();
    node.add_completion_id(4);
    assert!(!node.is_terminal());
    assert_eq!(node.completion_ids(), &[4u32][..]);
    node.set_terminal();
    node.set_terminal();
    assert!(node.is_terminal());
    assert_eq!(node.completion_ids(), &[4u32][..]);
}

#[test]
fn a_long_text() {
    let long: String = "ab".repeat(5_000);
    let mut trie = CompletionTrie::new();
    trie.insert(&long, 1);
    trie.insert(&long[..9_999], 2);
    assert_eq!(trie.num_nodes(), 10_001);
    assert_eq!(trie.complete(&long[..5_000]), vec![2, 1]);
    assert!(trie.remove(&long));
    assert_eq!(trie.num_nodes(), 10_000);
    assert!(trie.remove(&long[..9_999]));
    assert_eq!(trie.num_nodes(), 1);
}
