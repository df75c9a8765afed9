use sled::bytes::{common_prefix_len, key_le, key_lt, split_key};

#[test]
fn order_is_lexicographic() {
    assert!(key_lt(&[], &[0]));
    assert!(key_lt(&[0], &[255]));
    assert!(key_lt(&[255], &[255, 0]));
    assert!(key_lt(&[255, 0], &[255, 255]));
    assert!(!key_lt(&[1, 2], &[1, 2]));
    assert!(key_le(&[1, 2], &[1, 2]));
    assert!(!key_lt(&[2], &[1, 9, 9]));
}

#[test]
fn separator_is_shortest_prefix_above_left() {
    assert_eq!(common_prefix_len(&[1, 2, 3], &[1, 2, 4, 5]), 2);
    assert_eq!(split_key(&[1, 2, 3], &[1, 2, 4, 5]), vec![1, 2, 4]);
    assert_eq!(split_key(&[1, 2], &[1, 2, 0]), vec![1, 2, 0]);
    assert_eq!(split_key(&[0, 0, 3, 230], &[0, 0, 3, 231]), vec![0, 0, 3, 231]);
    assert_eq!(split_key(&[5], &[9, 9, 9]), vec![9]);
}
