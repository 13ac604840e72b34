use autocomplete_rs::types::global::{
    INVALID_TERM_ID, LINEAR_SCAN_THRESHOLD, NOT_FOUND, TERMINATOR,
};
use autocomplete_rs::types::{
    completion_to_uint32_range, string_to_byte_range, ScoredRange, ValueRange,
};

#[test]
fn value_range_validity() {
    assert!(ValueRange { begin: 0, end: 0 }.is_valid());
    assert!(ValueRange { begin: 3, end: 9 }.is_valid());
    assert!(!ValueRange { begin: 3, end: 9 }.is_invalid());
    assert!(ValueRange { begin: 9, end: 3 }.is_invalid());
    assert!(ValueRange { begin: u64::MAX, end: 3 }.is_invalid());
    assert!(ValueRange { begin: 3, end: u64::MAX }.is_invalid());
    assert!(ValueRange { begin: u64::MAX, end: u64::MAX }.is_invalid());
    assert!(!ValueRange { begin: u64::MAX, end: u64::MAX }.is_valid());
    assert!(ValueRange { begin: u64::MAX - 1, end: u64::MAX - 1 }.is_valid());
}

#[test]
fn value_range_contains_both_ends() {
    let range = ValueRange { begin: 3, end: 9 };
    assert!(!range.contains(2));
    assert!(range.contains(3));
    assert!(range.contains(5));
    assert!(range.contains(9));
    assert!(!range.contains(10));
    assert!(!ValueRange { begin: 9, end: 3 }.contains(5));
}

#[test]
fn value_range_equality() {
    assert_eq!(ValueRange { begin: 1, end: 2 }, ValueRange { begin: 1, end: 2 });
    assert_ne!(ValueRange { begin: 1, end: 2 }, ValueRange { begin: 1, end: 3 });
}

#[test]
fn scored_range_greater_compares_minima() {
    let range = ValueRange { begin: 0, end: 1 };
    let low = ScoredRange { range, min_pos: 9, min_val: 4 };
    let high = ScoredRange { range, min_pos: 0, min_val: 5 };
    assert!(ScoredRange::greater(&high, &low));
    assert!(!ScoredRange::greater(&low, &high));
    assert!(!ScoredRange::greater(&low, &low));
}

#[test]
fn ranges_cover_their_values() {
    let bytes = string_to_byte_range("héllo");
    assert_eq!(bytes.begin, 0);
    assert_eq!(bytes.end, 6);
    let empty = string_to_byte_range("");
    assert_eq!((empty.begin, empty.end), (0, 0));
    let ids = completion_to_uint32_range(&vec![4, 5, 6]);
    assert_eq!((ids.begin, ids.end), (0, 3));
}

#[test]
fn global_constants_have_their_values() {
    assert_eq!(INVALID_TERM_ID, u32::MAX);
    assert_eq!(TERMINATOR, 0);
    assert_eq!(NOT_FOUND, u64::MAX);
    assert_eq!(LINEAR_SCAN_THRESHOLD, 8);
}
