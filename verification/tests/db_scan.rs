use sled::db::{Db, Step};
use sled::error::{Config, Error};
use sled::iter::Iter;
use sled::range::Bound;

fn open() -> Db {
    Db::open_with_config(&Config::default(), &vec![], Some(0)).unwrap()
}

fn run<T>(db: &mut Db, next_id: &mut u64, mut op: impl FnMut(&mut Db) -> Result<Step<T>, Error>) -> T {
    loop {
        match op(db).unwrap() {
            Step::Done(v) => return v,
            Step::PageIn(id) => panic!("node {id} is not in memory"),
            Step::AllocateObjectIds(n) => {
                for _ in 0..n {
                    *next_id += 1;
                    assert!(db.supply_object_id(*next_id));
                }
            }
        }
    }
}

fn forward(db: &mut Db, it: &mut Iter) -> Vec<(Vec<u8>, Vec<u8>)> {
    let mut out = vec![];
    loop {
        match it.next(db).unwrap() {
            Step::Done(Some(kv)) => out.push(kv),
            Step::Done(None) => return out,
            _ => panic!("nothing is paged out here"),
        }
    }
}

fn backward(db: &mut Db, it: &mut Iter) -> Vec<(Vec<u8>, Vec<u8>)> {
    let mut out = vec![];
    loop {
        match it.next_back(db).unwrap() {
            Step::Done(Some(kv)) => out.push(kv),
            Step::Done(None) => return out,
            _ => panic!("nothing is paged out here"),
        }
    }
}

fn filled(n: u32) -> Db {
    let mut db = open();
    let mut ids = 0;
    for i in 0..n {
        let key = i.to_be_bytes();
        run(&mut db, &mut ids, |db| db.insert(&key, key.to_vec()));
    }
    db
}

#[test]
fn iter_yields_ascending_keys_exactly_once() {
    let mut db = filled(10_000);
    let mut it = db.iter();
    let all = forward(&mut db, &mut it);
    assert_eq!(all.len(), 10_000);
    for (i, (k, v)) in all.iter().enumerate() {
        assert_eq!(k, &(i as u32).to_be_bytes().to_vec());
        assert_eq!(v, k);
    }
    assert!(matches!(it.next(&mut db).unwrap(), Step::Done(None)));
}

#[test]
fn iter_backward_yields_descending_keys_exactly_once() {
    let mut db = filled(5_000);
    let mut it = db.iter();
    let all = backward(&mut db, &mut it);
    assert_eq!(all.len(), 5_000);
    for (i, (k, _)) in all.iter().enumerate() {
        assert_eq!(k, &(4_999 - i as u32).to_be_bytes().to_vec());
    }
}

#[test]
fn two_ends_meet_without_overlap() {
    let mut db = filled(3_000);
    let mut it = db.iter();
    let mut seen = vec![];
    loop {
        match it.next(&mut db).unwrap() {
            Step::Done(Some((k, _))) => seen.push(k),
            Step::Done(None) => break,
            _ => panic!(),
        }
        match it.next_back(&mut db).unwrap() {
            Step::Done(Some((k, _))) => seen.push(k),
            Step::Done(None) => break,
            _ => panic!(),
        }
    }
    assert_eq!(seen.len(), 3_000);
    seen.sort();
    seen.dedup();
    assert_eq!(seen.len(), 3_000);
    assert!(matches!(it.next(&mut db).unwrap(), Step::Done(None)));
    assert!(matches!(it.next_back(&mut db).unwrap(), Step::Done(None)));
}

#[test]
fn range_honours_its_bounds() {
    let mut db = filled(2_500);
    let lo = 1_000u32.to_be_bytes();
    let hi = 1_030u32.to_be_bytes();
    let mut it = db.range(Bound::Included(&lo), Bound::Excluded(&hi));
    let got = forward(&mut db, &mut it);
    assert_eq!(got.len(), 30);
    assert_eq!(got[0].0, lo.to_vec());
    assert_eq!(got[29].0, 1_029u32.to_be_bytes().to_vec());
    let mut it = db.range(Bound::Excluded(&lo), Bound::Included(&hi));
    let got = backward(&mut db, &mut it);
    assert_eq!(got.len(), 30);
    assert_eq!(got[0].0, hi.to_vec());
    assert_eq!(got[29].0, 1_001u32.to_be_bytes().to_vec());
    // a range that spans a split
    let a = 1_020u32.to_be_bytes();
    let b = 1_026u32.to_be_bytes();
    let mut it = db.range(Bound::Included(&a), Bound::Included(&b));
    assert_eq!(forward(&mut db, &mut it).len(), 7);
    let mut it = db.range(Bound::Included(&b), Bound::Included(&a));
    assert_eq!(forward(&mut db, &mut it).len(), 0);
}

#[test]
fn scan_prefix_of_all_ones() {
    let mut db = open();
    let mut ids = 0;
    for key in [vec![0xFE], vec![0xFF], vec![0xFF, 0x00], vec![0xFF, 0xFF]] {
        run(&mut db, &mut ids, |db| db.insert(&key, vec![1]));
    }
    let mut it = db.scan_prefix(&[0xFF]);
    let got: Vec<Vec<u8>> = forward(&mut db, &mut it).into_iter().map(|kv| kv.0).collect();
    assert_eq!(got, vec![vec![0xFF], vec![0xFF, 0x00], vec![0xFF, 0xFF]]);
}

#[test]
fn scan_prefix_stops_before_the_next_prefix() {
    let mut db = open();
    let mut ids = 0;
    for key in [[0, 0, 0], [0, 0, 1], [0, 0, 2], [0, 0, 3], [0, 1, 0], [0, 1, 1]] {
        run(&mut db, &mut ids, |db| db.insert(&key, key.to_vec()));
    }
    let mut it = db.scan_prefix(&[0, 0]);
    let got = forward(&mut db, &mut it);
    assert_eq!(
        got,
        vec![
            (vec![0, 0, 0], vec![0, 0, 0]),
            (vec![0, 0, 1], vec![0, 0, 1]),
            (vec![0, 0, 2], vec![0, 0, 2]),
            (vec![0, 0, 3], vec![0, 0, 3]),
        ]
    );
    let mut it = db.scan_prefix(&[0, 0xFF]);
    assert_eq!(forward(&mut db, &mut it).len(), 0);
    let mut it = db.scan_prefix(&[]);
    assert_eq!(forward(&mut db, &mut it).len(), 6);
}

#[test]
fn neighbours_of_a_key() {
    let mut db = open();
    let mut ids = 0;
    for i in 0..10u8 {
        run(&mut db, &mut ids, |db| db.insert(&[i], vec![i]));
    }
    assert_eq!(run(&mut db, &mut ids, |db| db.get_lt(&[])), None);
    assert_eq!(run(&mut db, &mut ids, |db| db.get_lt(&[0])), None);
    assert_eq!(run(&mut db, &mut ids, |db| db.get_lt(&[1])), Some((vec![0], vec![0])));
    assert_eq!(run(&mut db, &mut ids, |db| db.get_lt(&[9])), Some((vec![8], vec![8])));
    assert_eq!(run(&mut db, &mut ids, |db| db.get_lt(&[10])), Some((vec![9], vec![9])));
    assert_eq!(run(&mut db, &mut ids, |db| db.get_lt(&[255])), Some((vec![9], vec![9])));

    assert_eq!(run(&mut db, &mut ids, |db| db.get_gt(&[])), Some((vec![0], vec![0])));
    assert_eq!(run(&mut db, &mut ids, |db| db.get_gt(&[0])), Some((vec![1], vec![1])));
    assert_eq!(run(&mut db, &mut ids, |db| db.get_gt(&[1])), Some((vec![2], vec![2])));
    assert_eq!(run(&mut db, &mut ids, |db| db.get_gt(&[8])), Some((vec![9], vec![9])));
    assert_eq!(run(&mut db, &mut ids, |db| db.get_gt(&[9])), None);

    run(&mut db, &mut ids, |db| db.insert(&500u16.to_be_bytes(), vec![10]));
    assert_eq!(
        run(&mut db, &mut ids, |db| db.get_gt(&499u16.to_be_bytes())),
        Some((500u16.to_be_bytes().to_vec(), vec![10]))
    );
    assert_eq!(run(&mut db, &mut ids, |db| db.first()), Some((vec![0], vec![0])));
    assert_eq!(run(&mut db, &mut ids, |db| db.last()), Some((vec![9], vec![9])));
    assert!(!run(&mut db, &mut ids, |db| db.is_empty()));
    assert!(run(&mut open(), &mut ids, |db| db.is_empty()));
    assert_eq!(run(&mut open(), &mut ids, |db| db.first()), None);
    assert_eq!(run(&mut open(), &mut ids, |db| db.last()), None);
}

#[test]
fn neighbours_across_leaves() {
    let mut db = filled(3_000);
    let mut ids = 100;
    // the key before a split point and the key at it
    let at = 1_023u32.to_be_bytes();
    let before = 1_022u32.to_be_bytes();
    assert_eq!(run(&mut db, &mut ids, |db| db.get_gt(&before)).unwrap().0, at.to_vec());
    assert_eq!(run(&mut db, &mut ids, |db| db.get_lt(&at)).unwrap().0, before.to_vec());
    assert_eq!(run(&mut db, &mut ids, |db| db.last()).unwrap().0, 2_999u32.to_be_bytes().to_vec());
    // an emptied leaf in the middle is passed over
    for i in 1..1_023u32 {
        run(&mut db, &mut ids, |db| db.remove(&i.to_be_bytes()));
    }
    assert_eq!(run(&mut db, &mut ids, |db| db.get_gt(&0u32.to_be_bytes())).unwrap().0, at.to_vec());
    assert_eq!(
        run(&mut db, &mut ids, |db| db.get_lt(&at)).unwrap().0,
        0u32.to_be_bytes().to_vec()
    );
    let mut it = db.iter();
    assert_eq!(forward(&mut db, &mut it).len(), 3_000 - 1_022);
}
