use sled::db::{Db, Step};
use sled::error::{Config, Error, ErrorKind};

fn open() -> Db {
    Db::open_with_config(&Config::default(), &vec![], Some(0)).unwrap()
}

/// Runs `op` until it is done, minting node ids on request. Nothing is ever
/// paged out in these tests, so a page-in request is a failure.
fn run<T>(db: &mut Db, next_id: &mut u64, mut op: impl FnMut(&mut Db) -> Result<Step<T>, Error>) -> T {
    loop {
        match op(db).unwrap() {
            Step::Done(v) => return v,
            Step::PageIn(id) => panic!("node {id} is not in memory"),
            Step::AllocateObjectIds(n) => {
                for _ in 0..n {
                    *next_id += 1;
                    assert!(db.supply_object_id(*next_id));
                }
            }
        }
    }
}

#[test]
fn insert_then_get() {
    let mut db = open();
    let mut ids = 0;
    assert_eq!(run(&mut db, &mut ids, |db| db.insert(&[0x00], vec![0x00])), None);
    assert_eq!(run(&mut db, &mut ids, |db| db.insert(&[0x01], vec![0x01])), None);
    assert_eq!(run(&mut db, &mut ids, |db| db.get(&[0x00])), Some(vec![0x00]));
    assert_eq!(run(&mut db, &mut ids, |db| db.get(&[0x02])), None);
    assert!(run(&mut db, &mut ids, |db| db.contains_key(&[0x01])));
    assert!(!run(&mut db, &mut ids, |db| db.contains_key(&[0x02])));
}

#[test]
fn insert_returns_last_value() {
    let mut db = open();
    let mut ids = 0;
    assert_eq!(run(&mut db, &mut ids, |db| db.insert(&[1, 2, 3], vec![0])), None);
    assert_eq!(run(&mut db, &mut ids, |db| db.insert(&[1, 2, 3], vec![1])), Some(vec![0]));
}

#[test]
fn remove_returns_old_value() {
    let mut db = open();
    let mut ids = 0;
    run(&mut db, &mut ids, |db| db.insert(&[1], vec![1]));
    assert_eq!(run(&mut db, &mut ids, |db| db.remove(&[1])), Some(vec![1]));
    assert_eq!(run(&mut db, &mut ids, |db| db.remove(&[1])), None);
    assert_eq!(run(&mut db, &mut ids, |db| db.get(&[1])), None);
}

#[test]
fn compare_and_swap_sequence() {
    let mut db = open();
    let mut ids = 0;
    let created = run(&mut db, &mut ids, |db| db.compare_and_swap(&[1], None, Some(vec![10])));
    let created = created.unwrap();
    assert_eq!(created.new_value, Some(vec![10]));
    assert_eq!(created.previous_value, None);

    let modified =
        run(&mut db, &mut ids, |db| db.compare_and_swap(&[1], Some(vec![10]), Some(vec![20])));
    assert_eq!(modified.unwrap().previous_value, Some(vec![10]));

    let missed =
        run(&mut db, &mut ids, |db| db.compare_and_swap(&[1], Some(vec![30]), Some(vec![40])));
    let missed = missed.unwrap_err();
    assert_eq!(missed.current, Some(vec![20]));
    assert_eq!(missed.proposed, Some(vec![40]));
    assert_eq!(run(&mut db, &mut ids, |db| db.get(&[1])), Some(vec![20]));

    let deleted = run(&mut db, &mut ids, |db| db.compare_and_swap(&[1], Some(vec![20]), None));
    assert!(deleted.is_ok());
    assert_eq!(run(&mut db, &mut ids, |db| db.get(&[1])), None);

    let absent = run(&mut db, &mut ids, |db| db.compare_and_swap(&[1], Some(vec![20]), None));
    assert_eq!(absent.unwrap_err().current, None);
}

#[test]
fn ten_thousand_ascending_keys_split_on_the_right() {
    let mut db = open();
    let mut ids = 0;
    for i in 0..10_000u32 {
        let key = i.to_be_bytes();
        assert_eq!(run(&mut db, &mut ids, |db| db.insert(&key, key.to_vec())), None);
    }
    for i in 0..10_000u32 {
        let key = i.to_be_bytes();
        assert_eq!(run(&mut db, &mut ids, |db| db.get(&key)), Some(key.to_vec()));
    }
    // the first split leaves one key on the left; each later one, of the
    // right-most leaf, leaves all but two
    assert_eq!(db.route(&0u32.to_be_bytes()).0, Vec::<u8>::new());
    assert_eq!(db.route(&1u32.to_be_bytes()).0, 1u32.to_be_bytes().to_vec());
    assert_eq!(db.route(&1022u32.to_be_bytes()).0, 1u32.to_be_bytes().to_vec());
    assert_eq!(db.route(&1023u32.to_be_bytes()).0, vec![0, 0, 3, 255]);
    // 1 + 1022 * n + 2 entries fill up at the n-th right-most split
    assert_eq!(ids as usize, 1 + (10_000 - 1 - 2) / 1022);
}

#[test]
fn sticky_error_rejects_everything() {
    let mut db = open();
    assert!(db.check_error().is_ok());
    db.set_error(Error::new(ErrorKind::Io, "disk is gone"));
    db.set_error(Error::new(ErrorKind::Other, "second"));
    let e = db.check_error().unwrap_err();
    assert_eq!(e.kind, ErrorKind::Io);
    assert_eq!(e.message(), "disk is gone");
    assert_eq!(db.get(&[1]).err().unwrap().kind, ErrorKind::Io);
    assert_eq!(db.insert(&[1], vec![1]).err().unwrap().kind, ErrorKind::Io);
    assert_eq!(db.remove(&[1]).err().unwrap().kind, ErrorKind::Io);
    assert_eq!(db.compare_and_swap(&[1], None, None).err().unwrap().kind, ErrorKind::Io);
}

#[test]
fn open_rejects_bad_input() {
    let mut config = Config::default();
    config.cache_capacity_bytes = 100;
    assert_eq!(
        Db::open_with_config(&config, &vec![], Some(0)).err().unwrap().kind,
        ErrorKind::InvalidInput
    );
    let config = Config::default();
    assert_eq!(
        Db::open_with_config(&config, &vec![], None).err().unwrap().kind,
        ErrorKind::InvalidInput
    );
    assert_eq!(
        Db::open_with_config(&config, &vec![(1, vec![1])], None).err().unwrap().kind,
        ErrorKind::Corruption
    );
    assert_eq!(
        Db::open_with_config(&config, &vec![(1, vec![]), (1, vec![5])], None).err().unwrap().kind,
        ErrorKind::Corruption
    );
    let db = Db::open_with_config(&config, &vec![(7, vec![5]), (3, vec![])], None).unwrap();
    assert!(db.was_recovered());
    assert_eq!(db.route(&[4]), (vec![], 3));
    assert_eq!(db.route(&[5]), (vec![5], 7));
    assert!(!db.is_resident(3));
    assert!(!open().was_recovered());
}
