use sled::bytes::next_key;
use sled::range::{
    is_above_start, is_below_end, least_key_from, map_bound, prefix_upper_bound, Bound,
};

#[test]
fn prefix_upper_bound_raises_last_byte_below_255() {
    assert_eq!(prefix_upper_bound(&[1, 2, 3]), Some(vec![1, 2, 4]));
    assert_eq!(prefix_upper_bound(&[1, 2, 0xFF]), Some(vec![1, 3]));
    assert_eq!(prefix_upper_bound(&[1, 0xFF, 0xFF]), Some(vec![2]));
    assert_eq!(prefix_upper_bound(&[0]), Some(vec![1]));
    assert_eq!(prefix_upper_bound(&[0xFE]), Some(vec![0xFF]));
    assert_eq!(prefix_upper_bound(&[0xFF]), None);
    assert_eq!(prefix_upper_bound(&[0xFF, 0xFF, 0xFF]), None);
    assert_eq!(prefix_upper_bound(&[]), None);
}

#[test]
fn map_bound_keeps_the_kind() {
    let double = |x: u8| -> u16 { x as u16 * 2 };
    assert!(matches!(map_bound(Bound::Included(4u8), double), Bound::Included(8u16)));
    assert!(matches!(map_bound(Bound::Excluded(5u8), double), Bound::Excluded(10u16)));
    assert!(matches!(map_bound(Bound::<u8>::Unbounded, double), Bound::Unbounded));
}

#[test]
fn bounds_include_or_exclude_their_key() {
    let at = Bound::Included(vec![5u8]);
    let after = Bound::Excluded(vec![5u8]);
    let open: Bound<Vec<u8>> = Bound::Unbounded;
    assert!(is_above_start(&at, &[5]));
    assert!(!is_above_start(&after, &[5]));
    assert!(is_above_start(&after, &[5, 0]));
    assert!(!is_above_start(&at, &[4, 255]));
    assert!(is_above_start(&open, &[]));
    assert!(is_below_end(&at, &[5]));
    assert!(!is_below_end(&after, &[5]));
    assert!(is_below_end(&after, &[4, 255]));
    assert!(!is_below_end(&at, &[5, 0]));
    assert!(is_below_end(&open, &[255; 4]));
}

#[test]
fn least_key_of_a_range() {
    assert_eq!(least_key_from(&Bound::Included(vec![1, 2])), vec![1, 2]);
    assert_eq!(least_key_from(&Bound::Excluded(vec![1, 2])), vec![1, 2, 0]);
    assert_eq!(least_key_from(&Bound::Excluded(vec![])), vec![0]);
    assert_eq!(least_key_from(&Bound::Unbounded), Vec::<u8>::new());
    assert_eq!(next_key(&[255]), vec![255, 0]);
}
