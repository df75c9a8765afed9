use sled::db::{Db, Step};
use sled::error::{Config, Error};
use sled::range::Bound;
use sled::scan::open_default;

fn open() -> Db {
    Db::open_with_config(&Config::default(), &vec![], Some(0)).unwrap()
}

fn run<T>(db: &mut Db, next_id: &mut u64, mut op: impl FnMut(&mut Db) -> Result<Step<T>, Error>) -> T {
    loop {
        match op(db).unwrap() {
            Step::Done(v) => return v,
            Step::PageIn(id) => panic!("node {id} is not in memory"),
            Step::AllocateObjectIds(n) => {
                for _ in 0..n {
                    *next_id += 1;
                    assert!(db.supply_object_id(*next_id));
                }
            }
        }
    }
}

fn key_of(kv: Option<(Vec<u8>, Vec<u8>)>) -> Option<Vec<u8>> {
    kv.map(|kv| kv.0)
}

#[test]
fn pop_first_takes_the_minimum() {
    let mut db = open();
    let mut ids = 0;
    for (k, v) in [(0u8, 0u8), (1, 10), (2, 20), (3, 30), (4, 40), (5, 50)] {
        run(&mut db, &mut ids, |db| db.insert(&[k], vec![v]));
    }
    for k in 0..6u8 {
        assert_eq!(key_of(run(&mut db, &mut ids, |db| db.pop_first())), Some(vec![k]));
    }
    assert_eq!(run(&mut db, &mut ids, |db| db.pop_first()), None);
}

#[test]
fn pop_last_takes_the_maximum() {
    let mut db = open();
    let mut ids = 0;
    for (k, v) in [(0u8, 0u8), (1, 10), (2, 20), (3, 30), (4, 40), (5, 50)] {
        run(&mut db, &mut ids, |db| db.insert(&[k], vec![v]));
    }
    assert_eq!(run(&mut db, &mut ids, |db| db.pop_last()), Some((vec![5], vec![50])));
    for k in (0..5u8).rev() {
        assert_eq!(key_of(run(&mut db, &mut ids, |db| db.pop_last())), Some(vec![k]));
    }
    assert_eq!(run(&mut db, &mut ids, |db| db.pop_last()), None);
}

fn three_keys() -> Db {
    let mut db = open();
    let mut ids = 0;
    for (k, v) in [(b"key 1", b"value 1"), (b"key 2", b"value 2"), (b"key 3", b"value 3")] {
        run(&mut db, &mut ids, |db| db.insert(k, v.to_vec()));
    }
    db
}

#[test]
fn pop_last_in_range_honours_the_range() {
    let mut db = three_keys();
    let mut ids = 0;
    let r1 = run(&mut db, &mut ids, |db| {
        db.pop_last_in_range(Bound::Included(b"key 1"), Bound::Included(b"key 3"))
    });
    assert_eq!(r1, Some((b"key 3".to_vec(), b"value 3".to_vec())));
    let r2 = run(&mut db, &mut ids, |db| {
        db.pop_last_in_range(Bound::Included(b"key 1"), Bound::Excluded(b"key 3"))
    });
    assert_eq!(r2, Some((b"key 2".to_vec(), b"value 2".to_vec())));
    let r3 =
        run(&mut db, &mut ids, |db| db.pop_last_in_range(Bound::Included(b"key 4"), Bound::Unbounded));
    assert!(r3.is_none());
    let r4 = run(&mut db, &mut ids, |db| {
        db.pop_last_in_range(Bound::Included(b"key 2"), Bound::Included(b"key 3"))
    });
    assert!(r4.is_none());
    let r5 = run(&mut db, &mut ids, |db| {
        db.pop_last_in_range(Bound::Included(b"key 0"), Bound::Included(b"key 3"))
    });
    assert_eq!(r5, Some((b"key 1".to_vec(), b"value 1".to_vec())));
    let r6 = run(&mut db, &mut ids, |db| {
        db.pop_last_in_range(Bound::Included(b"key 0"), Bound::Included(b"key 3"))
    });
    assert!(r6.is_none());
}

#[test]
fn pop_first_in_range_honours_the_range() {
    let mut db = three_keys();
    let mut ids = 0;
    let r1 = run(&mut db, &mut ids, |db| {
        db.pop_first_in_range(Bound::Included(b"key 1"), Bound::Included(b"key 3"))
    });
    assert_eq!(r1, Some((b"key 1".to_vec(), b"value 1".to_vec())));
    let r2 = run(&mut db, &mut ids, |db| {
        db.pop_first_in_range(Bound::Included(b"key 1"), Bound::Excluded(b"key 3"))
    });
    assert_eq!(r2, Some((b"key 2".to_vec(), b"value 2".to_vec())));
    let r3 =
        run(&mut db, &mut ids, |db| db.collect_range(Bound::Included(b"key 4"), Bound::Unbounded));
    assert!(r3.is_empty());
    let r4 = run(&mut db, &mut ids, |db| {
        db.pop_first_in_range(Bound::Included(b"key 2"), Bound::Included(b"key 3"))
    });
    assert_eq!(r4, Some((b"key 3".to_vec(), b"value 3".to_vec())));
}

#[test]
fn len_counts_entries() {
    let mut db = open();
    let mut ids = 0;
    assert_eq!(run(&mut db, &mut ids, |db| db.len()), 0);
    run(&mut db, &mut ids, |db| db.insert(b"a", vec![0]));
    run(&mut db, &mut ids, |db| db.insert(b"b", vec![1]));
    assert_eq!(run(&mut db, &mut ids, |db| db.len()), 2);
    for i in 0..2_500u32 {
        run(&mut db, &mut ids, |db| db.insert(&i.to_be_bytes(), vec![]));
    }
    assert_eq!(run(&mut db, &mut ids, |db| db.len()), 2_502);
}

#[test]
fn clear_removes_everything() {
    let mut db = open();
    let mut ids = 0;
    for i in 0..2_500u32 {
        run(&mut db, &mut ids, |db| db.insert(&i.to_be_bytes(), vec![1]));
    }
    assert!(!run(&mut db, &mut ids, |db| db.is_empty()));
    run(&mut db, &mut ids, |db| db.clear());
    assert!(run(&mut db, &mut ids, |db| db.is_empty()));
    assert_eq!(run(&mut db, &mut ids, |db| db.len()), 0);
    assert_eq!(run(&mut db, &mut ids, |db| db.get(&7u32.to_be_bytes())), None);
}

#[test]
fn checksum_is_crc32_of_keys_and_values_in_order() {
    let mut db = open();
    let mut ids = 0;
    assert_eq!(run(&mut db, &mut ids, |db| db.checksum()), crc32fast::hash(b""));
    run(&mut db, &mut ids, |db| db.insert(b"b", b"2".to_vec()));
    run(&mut db, &mut ids, |db| db.insert(b"a", b"11".to_vec()));
    assert_eq!(run(&mut db, &mut ids, |db| db.checksum()), crc32fast::hash(b"a11b2"));
    assert_ne!(crc32fast::hash(b"a11b2"), crc32fast::hash(b"b2a11"));
    let mut hasher = crc32fast::Hasher::new();
    for part in [&b"a"[..], b"11", b"b", b"2"] {
        hasher.update(part);
    }
    assert_eq!(run(&mut db, &mut ids, |db| db.checksum()), hasher.finalize());
}

#[test]
fn keys_and_values_of_a_range() {
    let mut db = open();
    let mut ids = 0;
    for i in 0..5u8 {
        run(&mut db, &mut ids, |db| db.insert(&[i], vec![i * 10]));
    }
    let it = db.range(Bound::Excluded(&[0]), Bound::Excluded(&[4]));
    match it.keys(&mut db).unwrap() {
        Step::Done(keys) => assert_eq!(keys, vec![vec![1], vec![2], vec![3]]),
        _ => panic!(),
    }
    let it = db.range(Bound::Excluded(&[0]), Bound::Excluded(&[4]));
    match it.values(&mut db).unwrap() {
        Step::Done(values) => assert_eq!(values, vec![vec![10], vec![20], vec![30]]),
        _ => panic!(),
    }
}

fn increment(old: &Option<Vec<u8>>) -> Option<Vec<u8>> {
    let number = match old {
        Some(bytes) => {
            let array: [u8; 8] = bytes.as_slice().try_into().unwrap();
            u64::from_be_bytes(array) + 1
        }
        None => 0,
    };
    Some(number.to_be_bytes().to_vec())
}

#[test]
fn update_and_fetch_returns_the_new_value() {
    let mut db = open();
    let mut ids = 0;
    for expected in 0..4u64 {
        assert_eq!(
            run(&mut db, &mut ids, |db| db.update_and_fetch(b"counter", increment)),
            Some(expected.to_be_bytes().to_vec())
        );
    }
}

#[test]
fn fetch_and_update_returns_the_old_value() {
    let mut db = open();
    let mut ids = 0;
    assert_eq!(run(&mut db, &mut ids, |db| db.fetch_and_update(b"counter", increment)), None);
    for expected in 0..3u64 {
        assert_eq!(
            run(&mut db, &mut ids, |db| db.fetch_and_update(b"counter", increment)),
            Some(expected.to_be_bytes().to_vec())
        );
    }
}

#[test]
fn two_writers_count_to_two_thousand() {
    let mut db = open();
    let mut ids = 0;
    let plus_one = |old: &Option<Vec<u8>>| -> Option<Vec<u8>> {
        let n = match old {
            Some(b) => u64::from_be_bytes(b.as_slice().try_into().unwrap()),
            None => 0,
        };
        Some((n + 1).to_be_bytes().to_vec())
    };
    for _ in 0..1_000 {
        run(&mut db, &mut ids, |db| db.update_and_fetch(b"ctr", plus_one));
        run(&mut db, &mut ids, |db| db.update_and_fetch(b"ctr", plus_one));
    }
    assert_eq!(run(&mut db, &mut ids, |db| db.get(b"ctr")), Some(2_000u64.to_be_bytes().to_vec()));
}

#[test]
fn update_can_remove() {
    let mut db = open();
    let mut ids = 0;
    run(&mut db, &mut ids, |db| db.insert(b"k", vec![1]));
    let drop_it = |_old: &Option<Vec<u8>>| -> Option<Vec<u8>> { None };
    assert_eq!(run(&mut db, &mut ids, |db| db.update_and_fetch(b"k", drop_it)), None);
    assert_eq!(run(&mut db, &mut ids, |db| db.get(b"k")), None);
}

#[test]
fn open_default_starts_empty() {
    let mut db = open_default("some/path", &vec![], Some(9)).unwrap();
    assert!(!db.was_recovered());
    assert!(db.is_resident(9));
    let mut ids = 100;
    assert!(run(&mut db, &mut ids, |db| db.is_empty()));
    assert!(open_default("some/path", &vec![], None).is_err());
}

#[test]
fn write_flush_reopen_reads_everything_back() {
    // what the object store would hold: node id to low key and bytes
    let mut stored: std::collections::HashMap<u64, (Vec<u8>, Vec<u8>)> = Default::default();
    let mut db = open();
    let mut ids = 0;
    for i in 0..3_000u32 {
        run(&mut db, &mut ids, |db| db.insert(&i.to_be_bytes(), i.to_le_bytes().to_vec()));
    }
    for (id, low_key, bytes) in db.flush().unwrap() {
        stored.insert(id, (low_key, bytes));
    }
    assert!(db.flush_complete());
    assert_eq!(stored.len(), 4);
    drop(db);

    let recovered: Vec<(u64, Vec<u8>)> =
        stored.iter().map(|(id, (low_key, _))| (*id, low_key.clone())).collect();
    let mut db = Db::open_with_config(&Config::default(), &recovered, None).unwrap();
    assert!(db.was_recovered());
    for i in 0..3_000u32 {
        let key = i.to_be_bytes();
        let value = loop {
            match db.get(&key).unwrap() {
                Step::Done(v) => break v,
                Step::PageIn(id) => db.page_in(id, Some(&stored[&id].1)).unwrap(),
                Step::AllocateObjectIds(_) => panic!(),
            }
        };
        assert_eq!(value, Some(i.to_le_bytes().to_vec()));
    }
    assert_eq!(db.flush().unwrap().len(), 0);
}
