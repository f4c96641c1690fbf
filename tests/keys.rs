use clortho::keys::{common_prefix_len, compare_keys};
use std::cmp::Ordering;

#[test]
fn sst_writer_test_common_prefix_len() {
    // Same value
    assert_eq!(3, common_prefix_len(b"abc", b"abc"));
    // One empty
    assert_eq!(0, common_prefix_len(b"", b"abc"));
    // One superset
    assert_eq!(3, common_prefix_len(b"abcd", b"abc"));
    // Diverging
    assert_eq!(3, common_prefix_len(b"abcd", b"abce"));
    // Nothing in common
    assert_eq!(0, common_prefix_len(b"abcd", b"efgh"));
}

#[test]
fn compare_keys_orders_bytewise() {
    assert_eq!(compare_keys(b"a", b"b"), Ordering::Less);
    assert_eq!(compare_keys(b"ab", b"a"), Ordering::Greater);
    assert_eq!(compare_keys(b"", b""), Ordering::Equal);
    assert_eq!(compare_keys(b"", b"\x00"), Ordering::Less);
    assert_eq!(compare_keys(&[1, 255], &[2, 0]), Ordering::Less);
    assert_eq!(compare_keys(b"abc", b"abc"), Ordering::Equal);
}
