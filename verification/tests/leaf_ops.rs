use sled::leaf::{Leaf, LEAF_BASE_SIZE};
use sled::stack::LEAF_FANOUT;

fn be(i: u32) -> Vec<u8> {
    i.to_be_bytes().to_vec()
}

#[test]
fn leaf_insert_get_remove() {
    let mut leaf = Leaf::new(vec![], None);
    assert_eq!(leaf.len(), 0);
    assert_eq!(leaf.in_memory_size(), LEAF_BASE_SIZE);
    assert_eq!(leaf.insert(&[2], vec![20]), None);
    assert_eq!(leaf.insert(&[1], vec![10, 11]), None);
    assert_eq!(leaf.insert(&[3], vec![30]), None);
    assert_eq!(leaf.in_memory_size(), LEAF_BASE_SIZE + 2 + 3 + 2);
    assert_eq!(leaf.insert(&[1], vec![12]), Some(vec![10, 11]));
    assert_eq!(leaf.in_memory_size(), LEAF_BASE_SIZE + 2 + 2 + 2);
    assert_eq!(leaf.get(&[1]), Some(vec![12]));
    assert_eq!(leaf.get(&[4]), None);
    assert_eq!(leaf.entry(0), (vec![1], vec![12]));
    assert_eq!(leaf.entry(2), (vec![3], vec![30]));
    assert_eq!(leaf.remove(&[2]), Some(vec![20]));
    assert_eq!(leaf.remove(&[2]), None);
    assert_eq!(leaf.len(), 2);
    assert_eq!(leaf.in_memory_size(), LEAF_BASE_SIZE + 2 + 2);
    assert_eq!(leaf.entries(), vec![(vec![1], vec![12]), (vec![3], vec![30])]);
}

#[test]
fn leaf_owns_its_range() {
    let leaf = Leaf::new(vec![5], Some(vec![9]));
    assert!(leaf.owns(&[5]));
    assert!(leaf.owns(&[8, 255]));
    assert!(!leaf.owns(&[9]));
    assert!(!leaf.owns(&[4, 255]));
}

#[test]
fn leftmost_leaf_splits_after_first_entry() {
    let mut leaf = Leaf::new(vec![], None);
    for i in 0..LEAF_FANOUT as u32 {
        assert!(leaf.split_if_full(1).is_none());
        leaf.insert(&be(i), be(i));
    }
    assert!(leaf.is_full());
    let (key, rhs) = leaf.split_if_full(7).unwrap();
    assert_eq!(key, vec![0, 0, 0, 1]);
    assert_eq!(leaf.len(), 1);
    assert_eq!(rhs.len(), LEAF_FANOUT - 1);
    assert_eq!(leaf.hi(), &Some(vec![0, 0, 0, 1]));
    assert_eq!(rhs.lo(), &vec![0, 0, 0, 1]);
    assert_eq!(rhs.hi(), &None);
    assert_eq!(rhs.dirty_flush_epoch(), Some(7));
    assert_eq!(leaf.dirty_flush_epoch(), None);
    assert_eq!(leaf.in_memory_size(), LEAF_BASE_SIZE + 4 + 8);
    assert_eq!(rhs.in_memory_size(), LEAF_BASE_SIZE + 4 + 8 * (LEAF_FANOUT - 1));
    assert_eq!(rhs.get(&be(1)), Some(be(1)));
    assert_eq!(leaf.get(&be(0)), Some(be(0)));
    assert_eq!(leaf.get(&be(1)), None);
}

#[test]
fn rightmost_leaf_splits_two_before_the_end() {
    let mut leaf = Leaf::new(vec![0, 0, 0, 1], None);
    for i in 1..=LEAF_FANOUT as u32 {
        leaf.insert(&be(i * 256), be(i));
    }
    let (key, rhs) = leaf.split_if_full(1).unwrap();
    assert_eq!(leaf.len(), LEAF_FANOUT - 2);
    assert_eq!(rhs.len(), 2);
    // left max is 0x0003fe00, right min is 0x0003ff00
    assert_eq!(key, vec![0, 3, 255]);
    assert_eq!(rhs.entry(0).0, be(1023 * 256));
}

#[test]
fn middle_leaf_splits_in_half() {
    let mut leaf = Leaf::new(vec![0, 0, 0, 1], Some(vec![9]));
    for i in 1..=LEAF_FANOUT as u32 {
        leaf.insert(&be(i), be(i));
    }
    let (key, rhs) = leaf.split_if_full(1).unwrap();
    assert_eq!(leaf.len(), LEAF_FANOUT / 2);
    assert_eq!(rhs.len(), LEAF_FANOUT / 2);
    assert_eq!(key, be(513));
    assert_eq!(rhs.hi(), &Some(vec![9]));
}

#[test]
fn leaf_round_trips_through_bytes() {
    let mut leaf = Leaf::new(vec![1], Some(vec![7, 7]));
    leaf.insert(&[1, 2], vec![3; 40]);
    leaf.insert(&[5], vec![]);
    leaf.insert(&[7], vec![9, 9, 9]);
    leaf.set_dirty_flush_epoch(Some(3));
    let bytes = leaf.serialize(3).unwrap();
    assert_ne!(bytes, leaf.lo().clone());
    let back = Leaf::deserialize(&bytes).unwrap();
    assert_eq!(back.lo(), leaf.lo());
    assert_eq!(back.hi(), leaf.hi());
    assert_eq!(back.prefix_length(), 0);
    assert_eq!(back.entries(), leaf.entries());
    assert_eq!(back.dirty_flush_epoch(), None);
    // 8 + 1, 1 + 8 + 2, 8, 8 + 3 entries, 8
    let record = 9 + 11 + 8 + 8 + (8 + 2 + 8 + 40) + (8 + 1 + 8) + (8 + 1 + 8 + 3) + 8;
    assert_eq!(back.in_memory_size(), record);
}

#[test]
fn corrupt_bytes_are_rejected() {
    match Leaf::deserialize(&[1, 2, 3]) {
        Ok(_) => panic!("three bytes are no leaf"),
        Err(e) => assert_eq!(e.kind, sled::error::ErrorKind::Corruption),
    }
    let mut leaf = Leaf::new(vec![], None);
    leaf.insert(&[1], vec![1]);
    let mut bytes = leaf.serialize(1).unwrap();
    bytes.truncate(bytes.len() / 2);
    assert!(Leaf::deserialize(&bytes).is_err());
}
