use autocomplete_rs::string_pool::{ScoredStringPool, ScoredStringPoolIterator};

fn pool_of_three() -> ScoredStringPool {
    let mut pool = ScoredStringPool::new();
    pool.set_data(b"hellhellohelp".to_vec());
    pool.set_offsets(vec![0, 4, 9, 13]);
    pool.set_scores(vec![6, 10, 8]);
    pool
}

#[test]
fn new_pool_is_empty() {
    let pool = ScoredStringPool::new();
    assert_eq!(pool.size(), 0);
    assert!(pool.scores().is_empty());
    let found = pool.get(0);
    assert_eq!((found.string.begin, found.string.end, found.score), (0, 0, 0));
    assert_eq!(pool.bytes(), std::mem::size_of::<usize>());
}

#[test]
fn get_gives_range_and_score() {
    let pool = pool_of_three();
    assert_eq!(pool.size(), 3);
    let first = pool.get(0);
    assert_eq!((first.string.begin, first.string.end, first.score), (0, 4, 6));
    let second = pool.get(1);
    assert_eq!((second.string.begin, second.string.end, second.score), (4, 9, 10));
    let third = pool.get(2);
    assert_eq!((third.string.begin, third.string.end, third.score), (9, 13, 8));
}

#[test]
fn get_out_of_range_is_empty() {
    let pool = pool_of_three();
    for index in [3usize, 4, 1000, usize::MAX] {
        let found = pool.get(index);
        assert_eq!((found.string.begin, found.string.end, found.score), (0, 0, 0));
        assert_eq!(pool.get_score(index), 0);
    }
}

#[test]
fn get_without_offsets_is_empty() {
    let mut pool = pool_of_three();
    pool.clear();
    let found = pool.get(0);
    assert_eq!((found.string.begin, found.string.end, found.score), (0, 0, 0));
    // The scores are still there.
    assert_eq!(pool.get_score(1), 10);
    pool.init();
    assert_eq!(pool.size(), 0);
}

#[test]
fn footprint_adds_the_three_buffers() {
    let pool = pool_of_three();
    assert_eq!(pool.bytes(), 13 + 4 * std::mem::size_of::<usize>() + 3 * 4);
}

#[test]
fn push_back_offset_adds_a_string() {
    let mut pool = ScoredStringPool::new();
    pool.set_data(b"abcde".to_vec());
    pool.push_back_offset(2);
    pool.push_back_offset(5);
    assert_eq!(pool.size(), 2);
    let second = pool.get(1);
    assert_eq!((second.string.begin, second.string.end, second.score), (2, 5, 0));
}

#[test]
fn resize_cuts_and_fills_with_zeros() {
    let mut pool = pool_of_three();
    pool.resize(15, 5);
    assert_eq!(pool.scores(), &[6u32, 10, 8, 0, 0][..]);
    assert_eq!(pool.data_mut().len(), 15);
    assert_eq!(&pool.data_mut()[11..], &[108u8, 112, 0, 0][..]);
    pool.resize(2, 1);
    assert_eq!(pool.scores(), &[6u32][..]);
    assert_eq!(pool.data_mut(), &b"he"[..]);
    assert_eq!(pool.size(), 3);
}

#[test]
fn buffers_can_be_written_in_place() {
    let mut pool = pool_of_three();
    pool.scores_mut()[1] = 99;
    pool.data_mut()[0] = b'j';
    assert_eq!(pool.get_score(1), 99);
    assert_eq!(pool.get(1).score, 99);
    assert_eq!(pool.data_mut()[0], b'j');
    assert_eq!(pool.scores(), &[6u32, 99, 8][..]);
}

#[test]
fn walk_visits_every_string_in_order() {
    let pool = pool_of_three();
    let mut walk = pool.iter();
    assert!(!walk.empty());
    assert_eq!(walk.size(), 3);
    let mut seen = Vec::new();
    while let Some(item) = walk.next() {
        seen.push((item.string.begin, item.string.end, item.score));
    }
    assert_eq!(seen, vec![(0, 4, 6), (4, 9, 10), (9, 13, 8)]);
    assert!(walk.next().is_none());
    assert_eq!(walk.pool().size(), 3);
}

#[test]
fn walk_may_start_later() {
    let pool = pool_of_three();
    let mut walk = ScoredStringPoolIterator::new(&pool, 2);
    let item = walk.next().unwrap();
    assert_eq!((item.string.begin, item.string.end, item.score), (9, 13, 8));
    assert!(walk.next().is_none());
    let mut past = ScoredStringPoolIterator::new(&pool, 7);
    assert!(past.next().is_none());
    let empty = ScoredStringPool::new();
    assert!(empty.iter().empty());
}

#[test]
fn build_lays_the_strings_end_to_end() {
    let strings = vec!["hell".to_string(), String::new(), "hello".to_string(), "é".to_string()];
    let mut pool = ScoredStringPool::build(&strings, vec![6, 1, 10, 8]);
    assert_eq!(pool.size(), 4);
    assert_eq!(pool.data_mut(), "hellhelloé".as_bytes());
    let ranges: Vec<(usize, usize, u32)> = (0..5)
        .map(|i| pool.get(i))
        .map(|found| (found.string.begin, found.string.end, found.score))
        .collect();
    assert_eq!(ranges, vec![(0, 4, 6), (4, 4, 1), (4, 9, 10), (9, 11, 8), (0, 0, 0)]);
    let empty = ScoredStringPool::build(&[], Vec::new());
    assert_eq!(empty.size(), 0);
}
