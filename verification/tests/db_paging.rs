use std::collections::HashMap;

use sled::batch::Batch;
use sled::db::{Db, Step};
use sled::error::{Config, Error};

type Store = HashMap<u64, Vec<u8>>;

fn be(i: u32) -> Vec<u8> {
    i.to_be_bytes().to_vec()
}

/// Runs `op` to its end against an object store held in memory.
fn run<T>(
    db: &mut Db,
    store: &Store,
    next_id: &mut u64,
    mut op: impl FnMut(&mut Db) -> Result<Step<T>, Error>,
) -> T {
    loop {
        match op(db).unwrap() {
            Step::Done(v) => return v,
            Step::PageIn(id) => db.page_in(id, store.get(&id).map(|b| b.as_slice())).unwrap(),
            Step::AllocateObjectIds(n) => {
                for _ in 0..n {
                    *next_id += 1;
                    assert!(db.supply_object_id(*next_id));
                }
            }
        }
    }
}

fn flush_into(db: &mut Db, store: &mut Store) -> Vec<u64> {
    let mut written = vec![];
    for (id, _low_key, bytes) in db.flush().unwrap() {
        store.insert(id, bytes);
        written.push(id);
    }
    assert!(db.flush_complete());
    written
}

/// A store with `n` keys, all of them flushed and none of them in memory.
fn flushed_and_evicted(n: u32) -> (Db, Store, u64) {
    let mut db = Db::open_with_config(&Config::default(), &vec![], Some(0)).unwrap();
    let mut store = Store::new();
    let mut ids = 0;
    for i in 0..n {
        run(&mut db, &store, &mut ids, |db| db.insert(&be(i), be(i * 2)));
    }
    let written = flush_into(&mut db, &mut store);
    assert_eq!(written.len() as u64, ids + 1);
    let everyone: Vec<(u64, usize)> = (0..=ids).map(|id| (id, 1)).collect();
    db.evict(&everyone);
    for id in 0..=ids {
        assert!(!db.is_resident(id));
    }
    (db, store, ids)
}

#[test]
fn point_reads_page_leaves_in() {
    let (mut db, store, mut ids) = flushed_and_evicted(2_500);
    for i in [0u32, 1, 1_022, 1_023, 2_044, 2_045, 2_499] {
        assert_eq!(run(&mut db, &store, &mut ids, |db| db.get(&be(i))), Some(be(i * 2)));
    }
    assert_eq!(run(&mut db, &store, &mut ids, |db| db.get(&be(2_500))), None);
}

#[test]
fn forward_scan_pages_leaves_in() {
    let (mut db, store, mut ids) = flushed_and_evicted(2_500);
    let mut it = db.iter();
    for i in 0..2_500u32 {
        let kv = run(&mut db, &store, &mut ids, |db| it.next(db));
        assert_eq!(kv, Some((be(i), be(i * 2))));
    }
    assert_eq!(run(&mut db, &store, &mut ids, |db| it.next(db)), None);
}

#[test]
fn backward_scan_pages_leaves_in() {
    let (mut db, store, mut ids) = flushed_and_evicted(2_500);
    let mut it = db.iter();
    for i in (0..2_500u32).rev() {
        let kv = run(&mut db, &store, &mut ids, |db| it.next_back(db));
        assert_eq!(kv, Some((be(i), be(i * 2))));
    }
    assert_eq!(run(&mut db, &store, &mut ids, |db| it.next_back(db)), None);
}

#[test]
fn writes_page_leaves_in_and_are_flushed_again() {
    let (mut db, mut store, mut ids) = flushed_and_evicted(2_500);
    assert_eq!(run(&mut db, &store, &mut ids, |db| db.insert(&be(7), vec![7])), Some(be(14)));
    assert_eq!(run(&mut db, &store, &mut ids, |db| db.remove(&be(2_400))), Some(be(4_800)));
    let swapped =
        run(&mut db, &store, &mut ids, |db| db.compare_and_swap(&be(1_500), Some(be(3_000)), None));
    assert!(swapped.is_ok());
    let mut batch = Batch::default();
    batch.insert(be(3), vec![3]);
    batch.remove(be(2_000));
    run(&mut db, &store, &mut ids, |db| db.apply_batch(&batch));

    // only the leaves that were written to are flushed
    let written = flush_into(&mut db, &mut store);
    assert_eq!(written.len(), 3);
    let everyone: Vec<(u64, usize)> = (0..=ids).map(|id| (id, 1)).collect();
    db.evict(&everyone);

    assert_eq!(run(&mut db, &store, &mut ids, |db| db.get(&be(7))), Some(vec![7]));
    assert_eq!(run(&mut db, &store, &mut ids, |db| db.get(&be(3))), Some(vec![3]));
    assert_eq!(run(&mut db, &store, &mut ids, |db| db.get(&be(2_400))), None);
    assert_eq!(run(&mut db, &store, &mut ids, |db| db.get(&be(1_500))), None);
    assert_eq!(run(&mut db, &store, &mut ids, |db| db.get(&be(2_000))), None);
    assert_eq!(run(&mut db, &store, &mut ids, |db| db.len()), 2_500 - 3);
}

#[test]
fn batch_asks_for_the_leaf_that_is_missing() {
    let (mut db, _store, _ids) = flushed_and_evicted(2_500);
    let mut batch = Batch::default();
    batch.insert(be(2_499), vec![1]);
    match db.apply_batch(&batch).unwrap() {
        Step::PageIn(id) => assert_eq!(id, db.route(&be(2_499)).1),
        _ => panic!("the leaf of the key is not in memory"),
    }
}

#[test]
fn small_cache_evicts_and_reads_back() {
    let mut config = Config::default();
    config.cache_capacity_bytes = 256 * 1024;
    let mut db = Db::open_with_config(&config, &vec![], Some(0)).unwrap();
    let mut store = Store::new();
    let mut ids = 0;
    for round in 0..4u32 {
        for i in 0..4_000u32 {
            run(&mut db, &store, &mut ids, |db| db.insert(&be(i), be(i + round)));
            if i % 500 == 0 {
                flush_into(&mut db, &mut store);
            }
        }
    }
    flush_into(&mut db, &mut store);
    for i in 0..4_000u32 {
        assert_eq!(run(&mut db, &store, &mut ids, |db| db.get(&be(i))), Some(be(i + 3)));
    }
}

#[test]
fn dirty_leaf_dropped_from_memory_comes_back_with_its_writes() {
    let mut db = Db::open_with_config(&Config::default(), &vec![], Some(0)).unwrap();
    let store = Store::new();
    let mut ids = 0;
    run(&mut db, &store, &mut ids, |db| db.insert(&[1], vec![1]));
    // nothing was flushed yet: the bytes are in the dirty set only
    db.evict(&vec![(0, 1)]);
    assert!(!db.is_resident(0));
    assert_eq!(db.owes_write(1, &[]), Some(true));
    assert_eq!(run(&mut db, &store, &mut ids, |db| db.get(&[1])), Some(vec![1]));
    run(&mut db, &store, &mut ids, |db| db.insert(&[2], vec![2]));
    assert_eq!(db.owes_write(1, &[]), Some(false));
    let batch = db.flush().unwrap();
    assert_eq!(batch.len(), 1);
    let leaf = sled::leaf::Leaf::deserialize(&batch[0].2).unwrap();
    assert_eq!(leaf.entries(), vec![(vec![1], vec![1]), (vec![2], vec![2])]);
}

#[test]
fn leaf_without_bytes_anywhere_is_an_error() {
    let mut db =
        Db::open_with_config(&Config::default(), &vec![(1, vec![]), (2, vec![5])], None).unwrap();
    let e = db.page_in(2, None).err().unwrap();
    assert_eq!(e.kind, sled::error::ErrorKind::Io);
    assert_eq!(db.get(&[1]).err().unwrap().kind, sled::error::ErrorKind::Io);
}

#[test]
fn writes_survive_cache_pressure_between_flushes() {
    let mut config = Config::default();
    config.cache_capacity_bytes = 256 * 1024;
    let mut db = Db::open_with_config(&config, &vec![], Some(0)).unwrap();
    let mut store = Store::new();
    // node ids that all fall to one part of the cache advisor
    let mut next = 0u64;
    let mut paged_in = 0;
    for round in 0..3u32 {
        for i in 0..6_000u32 {
            loop {
                match db.insert(&be(i), be(i + round)).unwrap() {
                    Step::Done(_) => break,
                    Step::PageIn(id) => {
                        paged_in += 1;
                        db.page_in(id, store.get(&id).map(|b| b.as_slice())).unwrap()
                    }
                    Step::AllocateObjectIds(n) => {
                        for _ in 0..n {
                            next += 256;
                            assert!(db.supply_object_id(next));
                        }
                    }
                }
            }
        }
        flush_into(&mut db, &mut store);
    }
    assert!(paged_in > 0);
    for i in 0..6_000u32 {
        let found = loop {
            match db.get(&be(i)).unwrap() {
                Step::Done(v) => break v,
                Step::PageIn(id) => db.page_in(id, store.get(&id).map(|b| b.as_slice())).unwrap(),
                Step::AllocateObjectIds(_) => panic!(),
            }
        };
        assert_eq!(found, Some(be(i + 2)));
    }
}
