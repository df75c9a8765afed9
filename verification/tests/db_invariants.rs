use sled::db::{Db, Step};
use sled::error::{Config, Error};
use sled::leaf::Leaf;
use sled::stack::LEAF_FANOUT;

fn open() -> Db {
    Db::open_with_config(&Config::default(), &vec![], Some(0)).unwrap()
}

fn run<T>(db: &mut Db, next_id: &mut u64, mut op: impl FnMut(&mut Db) -> Result<Step<T>, Error>) -> T {
    loop {
        match op(db).unwrap() {
            Step::Done(v) => return v,
            Step::PageIn(id) => panic!("node {id} is not in memory"),
            Step::AllocateObjectIds(n) => {
                for _ in 0..n {
                    *next_id += 1;
                    assert!(db.supply_object_id(*next_id));
                }
            }
        }
    }
}

fn be(i: u32) -> Vec<u8> {
    i.to_be_bytes().to_vec()
}

#[test]
fn ranges_cover_all_keys_without_overlap() {
    let mut db = open();
    let mut ids = 0;
    for i in (0..6_000u32).rev() {
        run(&mut db, &mut ids, |db| db.insert(&be(i * 3), vec![]));
    }
    // every node, found through the keys it holds
    let mut nodes: Vec<(Vec<u8>, u64)> = (0..6_000u32).map(|i| db.route(&be(i * 3))).collect();
    nodes.sort();
    nodes.dedup();
    assert!(nodes.len() > 3);
    assert_eq!(nodes[0].0, Vec::<u8>::new());
    for pair in nodes.windows(2) {
        // each range ends where the next begins
        assert_eq!(db.leaf(pair[0].1).unwrap().hi(), &Some(pair[1].0.clone()));
        assert_eq!(db.leaf(pair[1].1).unwrap().lo(), &pair[1].0);
    }
    assert_eq!(db.leaf(nodes[nodes.len() - 1].1).unwrap().hi(), &None);
    for probe in [vec![], vec![0], be(1), be(4), be(3_071), vec![0, 0, 12], be(17_999), vec![255; 9]] {
        let owner = db.route(&probe).1;
        let owners: Vec<u64> =
            nodes.iter().filter(|n| db.leaf(n.1).unwrap().owns(&probe)).map(|n| n.1).collect();
        assert_eq!(owners, vec![owner]);
    }
}

#[test]
fn split_keeps_every_entry_once() {
    let mut leaf = Leaf::new(vec![1], Some(vec![200]));
    for i in 0..LEAF_FANOUT as u32 {
        let mut key = vec![7];
        key.extend_from_slice(&be(i * 7));
        leaf.insert(&key, be(i));
    }
    let before = leaf.entries();
    let (key, rhs) = leaf.split_if_full(2).unwrap();
    let mut after = leaf.entries();
    after.extend(rhs.entries());
    assert_eq!(after, before);
    // the split key parts the two halves and is no longer than it has to be
    let left_max = &leaf.entries()[leaf.len() - 1].0;
    let right_min = &rhs.entries()[0].0;
    assert!(left_max < &key && &key <= right_min);
    assert_eq!(key, right_min[..key.len()].to_vec());
    assert!(&right_min[..key.len() - 1] <= &left_max[..]);
    assert_eq!(key, vec![7, 0, 0, 14]);
}

#[test]
fn dirty_leaf_is_in_the_dirty_set_of_its_epoch() {
    let mut db = open();
    let mut ids = 0;
    assert_eq!(db.current_epoch(), 1);
    assert_eq!(db.leaf(0).unwrap().dirty_flush_epoch(), None);
    assert_eq!(db.owes_write(1, &[]), None);
    run(&mut db, &mut ids, |db| db.insert(&[1], vec![1]));
    assert_eq!(db.leaf(0).unwrap().dirty_flush_epoch(), Some(1));
    assert_eq!(db.owes_write(1, &[]), Some(false));

    // a flush begins: the leaf is dirty in the epoch before the current one
    assert_eq!(db.roll_epoch_forward(), Some(1));
    assert_eq!(db.current_epoch(), 2);
    assert_eq!(db.leaf(0).unwrap().dirty_flush_epoch(), Some(1));

    // a writer of the new epoch serializes it ahead of the flush
    run(&mut db, &mut ids, |db| db.insert(&[2], vec![2]));
    assert_eq!(db.leaf(0).unwrap().dirty_flush_epoch(), Some(2));
    assert_eq!(db.owes_write(1, &[]), Some(true));
    assert_eq!(db.owes_write(2, &[]), Some(false));

    assert_eq!(db.flush().unwrap().len(), 1);
    assert_eq!(db.owes_write(1, &[]), None);
    assert_eq!(db.owes_write(2, &[]), Some(false));
    assert!(db.flush_complete());
    assert_eq!(db.leaf(0).unwrap().dirty_flush_epoch(), Some(2));

    assert_eq!(db.flush().unwrap().len(), 1);
    assert!(db.flush_complete());
    assert_eq!(db.current_epoch(), 3);
    assert_eq!(db.leaf(0).unwrap().dirty_flush_epoch(), None);
    assert_eq!(db.owes_write(2, &[]), None);
}

#[test]
fn batch_marks_all_its_leaves_in_one_epoch() {
    let mut db = open();
    let mut ids = 0;
    for i in 0..2_500u32 {
        run(&mut db, &mut ids, |db| db.insert(&be(i), vec![]));
    }
    for (_, _, _) in db.flush().unwrap() {}
    assert!(db.flush_complete());
    let mut batch = sled::batch::Batch::default();
    for i in [0u32, 500, 1_500, 2_400] {
        batch.insert(be(i), vec![9]);
    }
    run(&mut db, &mut ids, |db| db.apply_batch(&batch));
    let epoch = db.current_epoch();
    for i in [0u32, 500, 1_500, 2_400] {
        let (low_key, id) = db.route(&be(i));
        assert_eq!(db.leaf(id).unwrap().dirty_flush_epoch(), Some(epoch));
        assert_eq!(db.owes_write(epoch, &low_key), Some(false));
    }
    assert_eq!(db.flush().unwrap().len(), 4);
}

#[test]
fn serialized_leaf_is_a_zstd_frame_around_the_record() {
    let mut leaf = Leaf::new(vec![1], Some(vec![9]));
    leaf.insert(&[2], vec![3, 4]);
    let bytes = leaf.serialize(3).unwrap();
    assert_eq!(&bytes[..4], &[0x28, 0xB5, 0x2F, 0xFD]);
    let record = zstd::stream::decode_all(&bytes[..]).unwrap();
    let mut expected: Vec<u8> = vec![];
    expected.extend_from_slice(&1u64.to_le_bytes()); // low key
    expected.push(1);
    expected.push(1); // a high key follows
    expected.extend_from_slice(&1u64.to_le_bytes());
    expected.push(9);
    expected.extend_from_slice(&0u64.to_le_bytes()); // prefix length
    expected.extend_from_slice(&1u64.to_le_bytes()); // one entry
    expected.extend_from_slice(&1u64.to_le_bytes());
    expected.push(2);
    expected.extend_from_slice(&2u64.to_le_bytes());
    expected.extend_from_slice(&[3, 4]);
    expected.extend_from_slice(&(leaf.in_memory_size() as u64).to_le_bytes());
    assert_eq!(record, expected);
    assert_eq!(Leaf::deserialize(&bytes).unwrap().in_memory_size(), expected.len());
    // the record alone, without the frame, is no leaf
    assert!(Leaf::deserialize(&record).is_err());
}
