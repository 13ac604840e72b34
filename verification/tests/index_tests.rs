use autocomplete_rs::index::{BitVector, BlockedInvertedIndex, CompactVector};

#[test]
fn blocks_of_two_with_three_members() {
    let mut index = BlockedInvertedIndex::new(2);
    index.add_doc(1, 10);
    assert_eq!(index.num_blocks(), 1);
    index.add_doc(1, 20);
    // The block is full, but no member waits for a new one.
    assert_eq!(index.num_blocks(), 1);
    index.add_doc(1, 30);
    assert_eq!(index.num_blocks(), 2);
    assert_eq!(index.get_docs(1), vec![10, 20, 30]);
    assert_eq!(index.num_docs(), 3);
}

#[test]
fn empty_index() {
    let index = BlockedInvertedIndex::new(4);
    assert_eq!(index.num_blocks(), 0);
    assert_eq!(index.num_docs(), 0);
    assert_eq!(index.get_docs(1), Vec::<u32>::new());
}

#[test]
fn chains_of_several_keys_interleave() {
    let mut index = BlockedInvertedIndex::new(2);
    for round in 0..5u32 {
        index.add_doc(1, 100 + round);
        index.add_doc(2, 200 + round);
        index.add_doc(3, 300 + round);
    }
    assert_eq!(index.get_docs(1), vec![100, 101, 102, 103, 104]);
    assert_eq!(index.get_docs(2), vec![200, 201, 202, 203, 204]);
    assert_eq!(index.get_docs(3), vec![300, 301, 302, 303, 304]);
    assert_eq!(index.get_docs(4), Vec::<u32>::new());
    // Five members in blocks of two: three blocks for each key.
    assert_eq!(index.num_blocks(), 9);
    assert_eq!(index.num_docs(), 15);
}

#[test]
fn number_of_blocks_is_members_over_block_size_rounded_up() {
    for block_size in 1..=5usize {
        let mut index = BlockedInvertedIndex::new(block_size);
        for member in 0..23u32 {
            index.add_doc(7, member);
            let members = member as usize + 1;
            assert_eq!(index.num_blocks(), (members + block_size - 1) / block_size);
        }
        assert_eq!(index.get_docs(7), (0..23).collect::<Vec<u32>>());
    }
}

#[test]
fn block_size_zero_behaves_as_one() {
    let mut index = BlockedInvertedIndex::new(0);
    index.add_doc(1, 10);
    index.add_doc(1, 20);
    index.add_doc(1, 30);
    assert_eq!(index.num_blocks(), 3);
    assert_eq!(index.get_docs(1), vec![10, 20, 30]);
}

#[test]
fn members_may_repeat() {
    let mut index = BlockedInvertedIndex::new(3);
    for _ in 0..4 {
        index.add_doc(5, 5);
    }
    assert_eq!(index.get_docs(5), vec![5, 5, 5, 5]);
    assert_eq!(index.num_blocks(), 2);
}

#[test]
fn clear_discards_all_blocks() {
    let mut index = BlockedInvertedIndex::new(2);
    index.add_doc(1, 10);
    index.add_doc(2, 20);
    index.clear();
    assert_eq!(index.num_blocks(), 0);
    assert_eq!(index.num_docs(), 0);
    assert_eq!(index.get_docs(1), Vec::<u32>::new());
    // The block size stays.
    index.add_doc(1, 11);
    index.add_doc(1, 12);
    index.add_doc(1, 13);
    assert_eq!(index.num_blocks(), 2);
    assert_eq!(index.get_docs(1), vec![11, 12, 13]);
}

#[test]
fn compact_vector_holds_elements_of_one_size() {
    let mut vector = CompactVector::new(3);
    assert_eq!(vector.size(), 0);
    assert_eq!(vector.bytes(), 0);
    assert!(vector.get(0).is_none());
    vector.push(b"abc");
    vector.push(b"def");
    vector.push(b"ghi");
    assert_eq!(vector.size(), 3);
    assert_eq!(vector.bytes(), 9);
    assert_eq!(vector.get(0), Some(&b"abc"[..]));
    assert_eq!(vector.get(1), Some(&b"def"[..]));
    assert_eq!(vector.get(2), Some(&b"ghi"[..]));
    assert_eq!(vector.get(3), None);
    assert_eq!(vector.get(usize::MAX), None);
}

#[test]
fn compact_vector_of_empty_elements() {
    let mut vector = CompactVector::new(0);
    vector.push(b"");
    vector.push(b"");
    assert_eq!(vector.size(), 2);
    assert_eq!(vector.bytes(), 0);
    assert_eq!(vector.get(1), Some(&b""[..]));
    assert_eq!(vector.get(2), None);
}

#[test]
fn bit_vector_starts_clear() {
    let bits = BitVector::new(20);
    assert_eq!(bits.size(), 20);
    assert_eq!(bits.bytes(), 3);
    for index in 0..25 {
        assert!(!bits.test(index));
    }
}

#[test]
fn bit_vector_sizes() {
    for (num_bits, num_bytes) in [(0usize, 0usize), (1, 1), (7, 1), (8, 1), (9, 2), (16, 2), (17, 3)] {
        let bits = BitVector::new(num_bits);
        assert_eq!(bits.size(), num_bits);
        assert_eq!(bits.bytes(), num_bytes);
    }
}

#[test]
fn bit_vector_set_and_clear_one_bit() {
    let mut bits = BitVector::new(20);
    for index in [0usize, 7, 8, 13, 19] {
        bits.set(index);
    }
    for index in 0..20 {
        assert_eq!(bits.test(index), [0usize, 7, 8, 13, 19].contains(&index), "bit {}", index);
    }
    bits.set(7);
    assert!(bits.test(7));
    bits.clear(7);
    bits.clear(8);
    bits.clear(1);
    for index in 0..20 {
        assert_eq!(bits.test(index), [0usize, 13, 19].contains(&index), "bit {}", index);
    }
}

#[test]
fn bit_vector_ignores_bits_it_does_not_have() {
    let mut bits = BitVector::new(10);
    // Bit 12 lies in the second byte, but the vector has 10 bits.
    bits.set(12);
    bits.set(10);
    bits.set(usize::MAX);
    bits.clear(usize::MAX);
    assert!(!bits.test(12));
    assert!(!bits.test(10));
    assert!(!bits.test(usize::MAX));
    for index in 0..10 {
        assert!(!bits.test(index));
    }
}
