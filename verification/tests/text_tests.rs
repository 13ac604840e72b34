use autocomplete_rs::corpus::distinct_terms;
use autocomplete_rs::footprint::{add_sizes, scale_size};
use autocomplete_rs::front_coding::{apply_record, push_bytes, push_record};
use autocomplete_rs::ranking::select_top;
use autocomplete_rs::sort::sorted_order;
use autocomplete_rs::text::{bytes_le, common_prefix_len};

fn strings_of(words: &[&str]) -> Vec<String> {
    words.iter().map(|w| w.to_string()).collect()
}

#[test]
fn common_prefix_lengths() {
    assert_eq!(common_prefix_len(b"hell", b"hello"), 4);
    assert_eq!(common_prefix_len(b"hello", b"help"), 3);
    assert_eq!(common_prefix_len(b"help", b"hello"), 3);
    assert_eq!(common_prefix_len(b"", b"hello"), 0);
    assert_eq!(common_prefix_len(b"abc", b"xbc"), 0);
    assert_eq!(common_prefix_len(b"same", b"same"), 4);
    assert_eq!(common_prefix_len(b"", b""), 0);
}

#[test]
fn byte_order_agrees_with_std() {
    let words: [&[u8]; 9] = [b"", b"a", b"ab", b"abc", b"abd", b"b", b"B", b"\xff", b"a\x00"];
    for a in words {
        for b in words {
            assert_eq!(bytes_le(a, b), a <= b, "{:?} and {:?}", a, b);
        }
    }
}

#[test]
fn sorted_order_is_stable_by_position() {
    let words = strings_of(&["pear", "apple", "pear", "fig", "apple", ""]);
    assert_eq!(sorted_order(&words), vec![5, 1, 4, 3, 0, 2]);
    assert_eq!(sorted_order(&[]), Vec::<usize>::new());
    assert_eq!(sorted_order(&strings_of(&["one"])), vec![0]);
}

#[test]
fn sorted_order_agrees_with_std() {
    let words: Vec<String> = (0..300u32).map(|i| format!("w{}", (i * 7919) % 101)).collect();
    let order = sorted_order(&words);
    let mut expected: Vec<usize> = (0..words.len()).collect();
    expected.sort_by(|a, b| words[*a].as_bytes().cmp(words[*b].as_bytes()).then(a.cmp(b)));
    assert_eq!(order, expected);
}

#[test]
fn distinct_terms_picks_the_last_occurrence() {
    let words = strings_of(&["b", "a", "b", "c", "a", "b"]);
    assert_eq!(distinct_terms(&words), vec![4, 5, 3]);
    assert_eq!(distinct_terms(&[]), Vec::<usize>::new());
    assert_eq!(distinct_terms(&strings_of(&["x", "x", "x"])), vec![2]);
}

#[test]
fn select_top_ranks_by_score_then_identifier() {
    // Identifier i has the score scores[i - 1].
    let scores = [5u32, 9, 5, 1, 9];
    let all = vec![1u32, 2, 3, 4, 5];
    assert_eq!(select_top(&all, &scores, 10), vec![2, 5, 1, 3, 4]);
    assert_eq!(select_top(&all, &scores, 5), vec![2, 5, 1, 3, 4]);
    assert_eq!(select_top(&all, &scores, 3), vec![2, 5, 1]);
    assert_eq!(select_top(&all, &scores, 1), vec![2]);
    assert_eq!(select_top(&all, &scores, 0), Vec::<u32>::new());
    assert_eq!(select_top(&vec![4, 3, 5], &scores, 2), vec![5, 3]);
    assert_eq!(select_top(&vec![], &scores, 2), Vec::<u32>::new());
}

#[test]
fn select_top_counts_a_repeated_candidate_once() {
    let scores = [5u32, 9, 5];
    assert_eq!(select_top(&vec![3, 1, 3, 2, 1, 2], &scores, 10), vec![2, 1, 3]);
    assert_eq!(select_top(&vec![3, 3, 3], &scores, 2), vec![3]);
}

#[test]
fn records_encode_and_decode() {
    let mut data = vec![9u8];
    push_record(&mut data, b"hell", b"hello");
    assert_eq!(data, vec![9, 4, b'o']);
    push_record(&mut data, b"hello", b"help");
    assert_eq!(data, vec![9, 4, b'o', 3, b'p']);
    push_record(&mut data, b"help", b"help");
    assert_eq!(data, vec![9, 4, b'o', 3, b'p', 4]);
    push_record(&mut data, b"help", b"");
    assert_eq!(data, vec![9, 4, b'o', 3, b'p', 4, 0]);

    let mut text = b"hell".to_vec();
    apply_record(&mut text, &data, 1, 3);
    assert_eq!(text, b"hello".to_vec());
    apply_record(&mut text, &data, 3, 5);
    assert_eq!(text, b"help".to_vec());
    apply_record(&mut text, &data, 5, 6);
    assert_eq!(text, b"help".to_vec());
    apply_record(&mut text, &data, 6, 7);
    assert_eq!(text, b"".to_vec());

    let mut bytes = vec![1u8];
    push_bytes(&mut bytes, b"abc");
    push_bytes(&mut bytes, b"");
    assert_eq!(bytes, vec![1, b'a', b'b', b'c']);
}

#[test]
fn sizes_stop_at_the_largest() {
    assert_eq!(add_sizes(2, 3), 5);
    assert_eq!(add_sizes(usize::MAX, 0), usize::MAX);
    assert_eq!(add_sizes(usize::MAX, 1), usize::MAX);
    assert_eq!(add_sizes(usize::MAX - 1, 1), usize::MAX);
    assert_eq!(add_sizes(usize::MAX / 2 + 1, usize::MAX / 2 + 1), usize::MAX);
    assert_eq!(scale_size(6, 7), 42);
    assert_eq!(scale_size(0, usize::MAX), 0);
    assert_eq!(scale_size(usize::MAX, 1), usize::MAX);
    assert_eq!(scale_size(usize::MAX, 2), usize::MAX);
    assert_eq!(scale_size(usize::MAX / 2 + 1, 2), usize::MAX);
}
