use sled::batch::Batch;
use sled::db::{Db, Step};
use sled::error::{Config, Error, ErrorKind};
use sled::leaf::Leaf;

fn open() -> Db {
    Db::open_with_config(&Config::default(), &vec![], Some(0)).unwrap()
}

fn run<T>(db: &mut Db, next_id: &mut u64, mut op: impl FnMut(&mut Db) -> Result<Step<T>, Error>) -> T {
    loop {
        match op(db).unwrap() {
            Step::Done(v) => return v,
            Step::PageIn(id) => panic!("node {id} is not in memory"),
            Step::AllocateObjectIds(n) => {
                for _ in 0..n {
                    *next_id += 1;
                    assert!(db.supply_object_id(*next_id));
                }
            }
        }
    }
}

#[test]
fn batch_keeps_last_write_per_key() {
    let mut batch = Batch::default();
    batch.insert(b"b".to_vec(), b"2".to_vec());
    batch.insert(b"a".to_vec(), b"1".to_vec());
    batch.remove(b"a".to_vec());
    batch.insert(b"c".to_vec(), b"3".to_vec());
    batch.insert(b"c".to_vec(), b"4".to_vec());
    assert_eq!(batch.len(), 3);
    assert_eq!(batch.key(0), &b"a".to_vec());
    assert_eq!(batch.value(0), &None);
    assert_eq!(batch.get(b"a"), Some(None));
    assert_eq!(batch.get(b"b"), Some(Some(b"2".to_vec())));
    assert_eq!(batch.get(b"c"), Some(Some(b"4".to_vec())));
    assert_eq!(batch.get(b"d"), None);
}

#[test]
fn apply_batch_inserts_and_removes() {
    let mut db = open();
    let mut ids = 0;
    let mut batch = Batch::default();
    batch.insert(b"a".to_vec(), b"1".to_vec());
    batch.insert(b"b".to_vec(), b"2".to_vec());
    batch.remove(b"a".to_vec());
    run(&mut db, &mut ids, |db| db.apply_batch(&batch));
    assert_eq!(ids, 1);
    assert_eq!(run(&mut db, &mut ids, |db| db.get(b"a")), None);
    assert_eq!(run(&mut db, &mut ids, |db| db.get(b"b")), Some(b"2".to_vec()));
}

#[test]
fn apply_batch_replaces_existing_keys() {
    let mut db = open();
    let mut ids = 0;
    run(&mut db, &mut ids, |db| db.insert(b"key_0", b"val_0".to_vec()));
    let mut batch = Batch::default();
    batch.insert(b"key_a".to_vec(), b"val_a".to_vec());
    batch.insert(b"key_b".to_vec(), b"val_b".to_vec());
    batch.insert(b"key_c".to_vec(), b"val_c".to_vec());
    batch.remove(b"key_0".to_vec());
    run(&mut db, &mut ids, |db| db.apply_batch(&batch));
    assert_eq!(run(&mut db, &mut ids, |db| db.get(b"key_0")), None);
    assert_eq!(run(&mut db, &mut ids, |db| db.get(b"key_a")), Some(b"val_a".to_vec()));
    assert_eq!(run(&mut db, &mut ids, |db| db.get(b"key_c")), Some(b"val_c".to_vec()));
}

#[test]
fn apply_batch_splits_across_leaves() {
    let mut db = open();
    let mut ids = 0;
    let mut batch = Batch::default();
    for i in 0..3000u32 {
        batch.insert(i.to_be_bytes().to_vec(), vec![1]);
    }
    match db.apply_batch(&batch).unwrap() {
        Step::AllocateObjectIds(n) => assert_eq!(n, 3000),
        _ => panic!("the batch needs node ids first"),
    }
    run(&mut db, &mut ids, |db| db.apply_batch(&batch));
    for i in 0..3000u32 {
        assert_eq!(run(&mut db, &mut ids, |db| db.get(&i.to_be_bytes())), Some(vec![1]));
    }
    assert_eq!(db.route(&2999u32.to_be_bytes()).0, vec![0, 0, 7, 253]);
    assert_eq!(db.spare_object_ids(), 3000 - 3);
}

#[test]
fn flush_hands_out_dirty_leaves_once() {
    let mut db = open();
    let mut ids = 0;
    assert_eq!(db.flush().unwrap().len(), 0);
    assert!(db.flush_complete());
    run(&mut db, &mut ids, |db| db.insert(&[1], vec![10]));
    run(&mut db, &mut ids, |db| db.insert(&[2], vec![20]));
    let batch = db.flush().unwrap();
    assert_eq!(batch.len(), 1);
    assert_eq!(batch[0].0, 0);
    assert_eq!(batch[0].1, Vec::<u8>::new());
    let leaf = Leaf::deserialize(&batch[0].2).unwrap();
    assert_eq!(leaf.entries(), vec![(vec![1], vec![10]), (vec![2], vec![20])]);
    // the flush is under way until it is completed: nothing more to write
    assert_eq!(db.flush().unwrap().len(), 0);
    assert!(db.flush_complete());
    assert!(!db.flush_complete());
    assert_eq!(db.flush().unwrap().len(), 0);
    assert!(db.flush_complete());
    // an unchanged value does not make the leaf dirty
    run(&mut db, &mut ids, |db| db.insert(&[1], vec![10]));
    assert_eq!(db.flush().unwrap().len(), 0);
    assert!(db.flush_complete());
    run(&mut db, &mut ids, |db| db.remove(&[1]));
    assert_eq!(db.flush().unwrap().len(), 1);
    assert!(db.flush_complete());
}

#[test]
fn writer_serializes_leaf_of_the_epoch_being_flushed() {
    let mut db = open();
    let mut ids = 0;
    run(&mut db, &mut ids, |db| db.insert(&[1], vec![10]));
    assert_eq!(db.roll_epoch_forward(), Some(1));
    assert_eq!(db.roll_epoch_forward(), None);
    // this writer is in epoch 2 and finds the leaf dirty in epoch 1
    run(&mut db, &mut ids, |db| db.insert(&[2], vec![20]));
    let batch = db.flush().unwrap();
    assert_eq!(batch.len(), 1);
    let leaf = Leaf::deserialize(&batch[0].2).unwrap();
    assert_eq!(leaf.entries(), vec![(vec![1], vec![10])]);
    assert!(db.flush_complete());
    let batch = db.flush().unwrap();
    assert_eq!(batch.len(), 1);
    let leaf = Leaf::deserialize(&batch[0].2).unwrap();
    assert_eq!(leaf.entries(), vec![(vec![1], vec![10]), (vec![2], vec![20])]);
}

#[test]
fn evicted_leaf_comes_back_through_page_in() {
    let mut db = open();
    let mut ids = 0;
    run(&mut db, &mut ids, |db| db.insert(&[1], vec![10]));
    let written = db.flush().unwrap();
    assert!(db.flush_complete());
    db.evict(&vec![(0, 1), (99, 1)]);
    assert!(!db.is_resident(0));
    match db.get(&[1]).unwrap() {
        Step::PageIn(id) => assert_eq!(id, 0),
        _ => panic!("the leaf was dropped from memory"),
    }
    match db.insert(&[1], vec![11]).unwrap() {
        Step::PageIn(id) => assert_eq!(id, 0),
        _ => panic!("the leaf was dropped from memory"),
    }
    assert_eq!(db.page_in(7, Some(&written[0].2)).err().unwrap().kind, ErrorKind::InvalidInput);
    db.page_in(0, Some(&written[0].2)).unwrap();
    assert!(db.is_resident(0));
    assert_eq!(run(&mut db, &mut ids, |db| db.get(&[1])), Some(vec![10]));
}

#[test]
fn evicting_a_dirty_leaf_keeps_its_bytes_for_the_flush() {
    let mut db = open();
    let mut ids = 0;
    run(&mut db, &mut ids, |db| db.insert(&[1], vec![10]));
    db.evict(&vec![(0, 1)]);
    assert!(!db.is_resident(0));
    let batch = db.flush().unwrap();
    assert_eq!(batch.len(), 1);
    let leaf = Leaf::deserialize(&batch[0].2).unwrap();
    assert_eq!(leaf.entries(), vec![(vec![1], vec![10])]);
}

#[test]
fn page_in_rejects_a_leaf_that_does_not_fit() {
    let mut db = Db::open_with_config(&Config::default(), &vec![(1, vec![]), (2, vec![5])], None)
        .unwrap();
    let whole = Leaf::new(vec![], None).serialize(3).unwrap();
    let e = db.page_in(1, Some(&whole)).err().unwrap();
    assert_eq!(e.kind, ErrorKind::Corruption);
    // corruption is fatal
    assert_eq!(db.get(&[1]).err().unwrap().kind, ErrorKind::Corruption);

    let mut db = Db::open_with_config(&Config::default(), &vec![(1, vec![]), (2, vec![5])], None)
        .unwrap();
    let left = Leaf::new(vec![], Some(vec![5])).serialize(3).unwrap();
    let right = Leaf::new(vec![5], None).serialize(3).unwrap();
    assert_eq!(db.page_in(2, Some(&left)).err().unwrap().kind, ErrorKind::Corruption);
    let mut db = Db::open_with_config(&Config::default(), &vec![(1, vec![]), (2, vec![5])], None)
        .unwrap();
    db.page_in(1, Some(&left)).unwrap();
    db.page_in(2, Some(&right)).unwrap();
    db.page_in(2, Some(&[1, 2, 3])).unwrap();
    assert_eq!(db.page_in(2, Some(&[1, 2, 3])).is_ok(), true);
    let mut ids = 10;
    assert_eq!(run(&mut db, &mut ids, |db| db.get(&[7])), None);
}
