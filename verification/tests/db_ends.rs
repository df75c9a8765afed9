use std::collections::HashMap;

use sled::db::{Db, Step};
use sled::error::{flush_wait_nanos, Config, Error, ErrorKind};
use sled::leaf::Leaf;
use sled::range::Bound;

type Pages = HashMap<u64, Vec<u8>>;

fn word(i: u32) -> Vec<u8> {
    i.to_be_bytes().to_vec()
}

fn drive<T>(
    db: &mut Db,
    pages: &Pages,
    next_id: &mut u64,
    mut op: impl FnMut(&mut Db) -> Result<Step<T>, Error>,
) -> T {
    loop {
        match op(db).unwrap() {
            Step::Done(v) => return v,
            Step::PageIn(id) => db.page_in(id, pages.get(&id).map(|b| b.as_slice())).unwrap(),
            Step::AllocateObjectIds(n) => {
                for _ in 0..n {
                    *next_id += 1;
                    assert!(db.supply_object_id(*next_id));
                }
            }
        }
    }
}

/// A store with the keys `0..n`, all written out and none in memory.
fn paged_out(n: u32) -> (Db, Pages, u64) {
    let mut db = Db::open_with_config(&Config::default(), &vec![], Some(0)).unwrap();
    let mut pages = Pages::new();
    let mut ids = 0;
    for i in 0..n {
        drive(&mut db, &pages, &mut ids, |db| db.insert(&word(i), word(i + 1)));
    }
    for (id, _low_key, bytes) in db.flush().unwrap() {
        pages.insert(id, bytes);
    }
    assert!(db.flush_complete());
    let everyone: Vec<(u64, usize)> = (0..=ids).map(|id| (id, 1)).collect();
    db.evict(&everyone);
    (db, pages, ids)
}

#[test]
fn first_reads_the_first_leaf_before_it_answers() {
    let (mut db, pages, mut ids) = paged_out(2_500);
    let first_node = db.route(&[]).1;
    assert!(matches!(db.first().unwrap(), Step::PageIn(id) if id == first_node));
    assert_eq!(
        drive(&mut db, &pages, &mut ids, |db| db.first()),
        Some((word(0), word(1)))
    );
}

#[test]
fn last_reads_the_last_leaf_before_it_answers() {
    let (mut db, pages, mut ids) = paged_out(2_500);
    let last_node = db.last_node().1;
    assert!(matches!(db.last().unwrap(), Step::PageIn(id) if id == last_node));
    assert_eq!(
        drive(&mut db, &pages, &mut ids, |db| db.last()),
        Some((word(2_499), word(2_500)))
    );
}

#[test]
fn neighbours_are_found_across_leaves_that_are_paged_out() {
    let (mut db, pages, mut ids) = paged_out(2_500);
    for i in [1u32, 1_023, 1_024, 2_045, 2_499] {
        assert_eq!(
            drive(&mut db, &pages, &mut ids, |db| db.get_lt(&word(i))),
            Some((word(i - 1), word(i)))
        );
        let everyone: Vec<(u64, usize)> = (0..=ids).map(|id| (id, 1)).collect();
        db.evict(&everyone);
        assert_eq!(
            drive(&mut db, &pages, &mut ids, |db| db.get_gt(&word(i - 1))),
            Some((word(i), word(i + 1)))
        );
    }
    assert_eq!(drive(&mut db, &pages, &mut ids, |db| db.get_lt(&word(0))), None);
    assert_eq!(drive(&mut db, &pages, &mut ids, |db| db.get_gt(&word(2_499))), None);
}

#[test]
fn is_empty_reads_before_it_answers() {
    let (mut db, pages, mut ids) = paged_out(10);
    assert!(matches!(db.is_empty().unwrap(), Step::PageIn(0)));
    assert!(!drive(&mut db, &pages, &mut ids, |db| db.is_empty()));
    let mut none = Db::open_with_config(&Config::default(), &vec![], Some(0)).unwrap();
    assert!(matches!(none.is_empty().unwrap(), Step::Done(true)));
}

#[test]
fn collect_range_asks_for_the_first_leaf_of_the_range() {
    let (mut db, pages, mut ids) = paged_out(2_500);
    let node = db.route(&word(2_000)).1;
    let asked = db.collect_range(Bound::Included(&word(2_000)), Bound::Unbounded).unwrap();
    assert!(matches!(asked, Step::PageIn(id) if id == node));
    let got = drive(&mut db, &pages, &mut ids, |db| {
        db.collect_range(Bound::Included(&word(2_000)), Bound::Excluded(&word(2_003)))
    });
    assert_eq!(
        got,
        vec![(word(2_000), word(2_001)), (word(2_001), word(2_002)), (word(2_002), word(2_003))]
    );
}

#[test]
fn pop_takes_the_ends_of_a_store_that_is_paged_out() {
    let (mut db, pages, mut ids) = paged_out(2_500);
    assert_eq!(
        drive(&mut db, &pages, &mut ids, |db| db.pop_last()),
        Some((word(2_499), word(2_500)))
    );
    assert_eq!(
        drive(&mut db, &pages, &mut ids, |db| db.pop_first()),
        Some((word(0), word(1)))
    );
    assert_eq!(
        drive(&mut db, &pages, &mut ids, |db| {
            db.pop_first_in_range(Bound::Excluded(&word(1_023)), Bound::Unbounded)
        }),
        Some((word(1_024), word(1_025)))
    );
    assert_eq!(
        drive(&mut db, &pages, &mut ids, |db| {
            db.pop_last_in_range(Bound::Unbounded, Bound::Excluded(&word(1_024)))
        }),
        Some((word(1_023), word(1_024)))
    );
    assert_eq!(
        drive(&mut db, &pages, &mut ids, |db| {
            db.pop_last_in_range(Bound::Included(&word(1_023)), Bound::Included(&word(1_024)))
        }),
        None
    );
    assert_eq!(drive(&mut db, &pages, &mut ids, |db| db.len()), 2_496);
    assert_eq!(drive(&mut db, &pages, &mut ids, |db| db.get(&word(1_024))), None);
}

#[test]
fn clear_empties_a_store_that_is_paged_out() {
    let (mut db, pages, mut ids) = paged_out(2_500);
    assert!(matches!(db.clear().unwrap(), Step::PageIn(0)));
    // nothing was removed by the call that asked for a leaf
    assert_eq!(drive(&mut db, &pages, &mut ids, |db| db.len()), 2_500);
    drive(&mut db, &pages, &mut ids, |db| db.clear());
    assert_eq!(drive(&mut db, &pages, &mut ids, |db| db.len()), 0);
    assert!(drive(&mut db, &pages, &mut ids, |db| db.is_empty()));
    assert_eq!(drive(&mut db, &pages, &mut ids, |db| db.first()), None);
    assert_eq!(drive(&mut db, &pages, &mut ids, |db| db.get(&word(7))), None);
}

#[test]
fn each_step_of_an_iterator_reads_the_store_as_it_is() {
    let mut db = Db::open_with_config(&Config::default(), &vec![], Some(0)).unwrap();
    let pages = Pages::new();
    let mut ids = 0;
    for k in [1u8, 3, 5, 7] {
        drive(&mut db, &pages, &mut ids, |db| db.insert(&[k], vec![k]));
    }
    let mut it = db.iter();
    assert_eq!(drive(&mut db, &pages, &mut ids, |db| it.next(db)), Some((vec![1], vec![1])));
    // a key written ahead of the iterator is seen, one behind it is not
    drive(&mut db, &pages, &mut ids, |db| db.insert(&[2], vec![2]));
    drive(&mut db, &pages, &mut ids, |db| db.insert(&[0], vec![0]));
    drive(&mut db, &pages, &mut ids, |db| db.remove(&[3]));
    assert_eq!(drive(&mut db, &pages, &mut ids, |db| it.next(db)), Some((vec![2], vec![2])));
    assert_eq!(drive(&mut db, &pages, &mut ids, |db| it.next_back(db)), Some((vec![7], vec![7])));
    drive(&mut db, &pages, &mut ids, |db| db.insert(&[9], vec![9]));
    drive(&mut db, &pages, &mut ids, |db| db.insert(&[5], vec![50]));
    assert_eq!(drive(&mut db, &pages, &mut ids, |db| it.next_back(db)), Some((vec![5], vec![50])));
    assert_eq!(drive(&mut db, &pages, &mut ids, |db| it.next(db)), None);
    assert_eq!(drive(&mut db, &pages, &mut ids, |db| it.next_back(db)), None);
}

#[test]
fn collecting_leaves_the_iterator_as_it_is() {
    let mut db = Db::open_with_config(&Config::default(), &vec![], Some(0)).unwrap();
    let pages = Pages::new();
    let mut ids = 0;
    for k in 0..6u8 {
        drive(&mut db, &pages, &mut ids, |db| db.insert(&[k], vec![k + 100]));
    }
    let mut it = db.range(Bound::Included(&[1]), Bound::Excluded(&[5]));
    assert_eq!(drive(&mut db, &pages, &mut ids, |db| it.next(db)), Some((vec![1], vec![101])));
    let rest = vec![(vec![2], vec![102]), (vec![3], vec![103]), (vec![4], vec![104])];
    assert_eq!(drive(&mut db, &pages, &mut ids, |db| it.collect(db)), rest);
    assert_eq!(drive(&mut db, &pages, &mut ids, |db| it.collect(db)), rest);
    assert_eq!(
        drive(&mut db, &pages, &mut ids, |db| it.keys(db)),
        vec![vec![2], vec![3], vec![4]]
    );
    assert_eq!(
        drive(&mut db, &pages, &mut ids, |db| it.values(db)),
        vec![vec![102], vec![103], vec![104]]
    );
    assert_eq!(drive(&mut db, &pages, &mut ids, |db| it.next(db)), Some((vec![2], vec![102])));
}

#[test]
fn flush_gives_the_fatal_error_before_anything_else() {
    let mut db = Db::open_with_config(&Config::default(), &vec![], Some(0)).unwrap();
    let pages = Pages::new();
    let mut ids = 0;
    drive(&mut db, &pages, &mut ids, |db| db.insert(&[1], vec![1]));
    db.set_error(Error::new(ErrorKind::Corruption, "the disk is gone"));
    let e = db.flush().err().unwrap();
    assert_eq!(e.kind, ErrorKind::Corruption);
    assert_eq!(e.message(), "the disk is gone");
    // the flush did not begin: the write is still owed, in the same epoch
    assert_eq!(db.current_epoch(), 1);
    assert_eq!(db.owes_write(1, &[]), Some(false));
    assert!(!db.flush_complete());
    let again = db.flush().err().unwrap();
    assert_eq!(again.kind, ErrorKind::Corruption);
}

#[test]
fn flush_of_a_store_without_writes_hands_out_nothing() {
    let mut db = Db::open_with_config(&Config::default(), &vec![], Some(0)).unwrap();
    assert_eq!(db.current_epoch(), 1);
    assert!(db.flush().unwrap().is_empty());
    assert!(db.flush_complete());
    assert_eq!(db.current_epoch(), 2);
    assert!(db.flush().unwrap().is_empty());
    assert!(db.flush_complete());
}

#[test]
fn remove_in_place_drops_no_leaf() {
    let mut db = Db::open_with_config(&Config::default(), &vec![], Some(0)).unwrap();
    drive(&mut db, &Pages::new(), &mut 0, |db| db.insert(&[1], vec![1]));
    match db.remove_in_place(&[1]).unwrap() {
        Step::Done((previous, node, _size)) => {
            assert_eq!(previous, Some(vec![1]));
            assert_eq!(node, 0);
        }
        _ => panic!("the leaf is in memory"),
    }
    assert!(db.is_resident(0));
    match db.remove_in_place(&[1]).unwrap() {
        Step::Done((previous, _, _)) => assert_eq!(previous, None),
        _ => panic!("the leaf is in memory"),
    }
}

#[test]
fn leaf_finds_the_ends_of_a_range() {
    let mut leaf = Leaf::new(vec![], None);
    for k in [10u8, 20, 30, 40] {
        leaf.insert(&[k], vec![k + 1]);
    }
    assert_eq!(leaf.position(&[5]), 0);
    assert_eq!(leaf.position(&[10]), 0);
    assert_eq!(leaf.position(&[11]), 1);
    assert_eq!(leaf.position(&[40]), 3);
    assert_eq!(leaf.position(&[41]), 4);

    let all = (Bound::Unbounded, Bound::Unbounded);
    assert_eq!(leaf.first_in(&all.0, &all.1), Some((vec![10], vec![11])));
    assert_eq!(leaf.last_in(&all.0, &all.1), Some((vec![40], vec![41])));

    let from = Bound::Excluded(vec![10]);
    let to = Bound::Included(vec![30]);
    assert_eq!(leaf.first_in(&from, &to), Some((vec![20], vec![21])));
    assert_eq!(leaf.last_in(&from, &to), Some((vec![30], vec![31])));

    let from = Bound::Included(vec![10]);
    let to = Bound::Excluded(vec![30]);
    assert_eq!(leaf.first_in(&from, &to), Some((vec![10], vec![11])));
    assert_eq!(leaf.last_in(&from, &to), Some((vec![20], vec![21])));

    let from = Bound::Excluded(vec![20]);
    let to = Bound::Excluded(vec![30]);
    assert_eq!(leaf.first_in(&from, &to), None);
    assert_eq!(leaf.last_in(&from, &to), None);

    let from = Bound::Included(vec![41]);
    assert_eq!(leaf.first_in(&from, &Bound::Unbounded), None);
    assert_eq!(leaf.last_in(&Bound::Unbounded, &Bound::Excluded(vec![10])), None);

    // a range whose ends have passed each other holds nothing
    let from = Bound::Included(vec![30]);
    let to = Bound::Included(vec![20]);
    assert_eq!(leaf.first_in(&from, &to), None);
    assert_eq!(leaf.last_in(&from, &to), None);

    let none = Leaf::new(vec![], None);
    assert_eq!(none.first_in(&Bound::Unbounded, &Bound::Unbounded), None);
    assert_eq!(none.last_in(&Bound::Unbounded, &Bound::Unbounded), None);
}

#[test]
fn flusher_waits_the_interval_less_the_last_flush() {
    assert_eq!(flush_wait_nanos(200, 0), 200_000_000);
    assert_eq!(flush_wait_nanos(200, 150_000_000), 50_000_000);
    assert_eq!(flush_wait_nanos(200, 198_999_999), 1_000_001);
    assert_eq!(flush_wait_nanos(200, 199_000_000), 1_000_000);
    assert_eq!(flush_wait_nanos(200, 199_500_000), 1_000_000);
    assert_eq!(flush_wait_nanos(200, 200_000_000), 1_000_000);
    assert_eq!(flush_wait_nanos(200, 900_000_000), 1_000_000);
    assert_eq!(flush_wait_nanos(0, 0), 1_000_000);
    assert_eq!(flush_wait_nanos(1, 0), 1_000_000);
    assert_eq!(flush_wait_nanos(2, 1), 1_999_999);
}

/// A store over two nodes that an earlier run left, neither in memory: node 1
/// from the empty key, node 2 from the key `[5, 0]`.
fn two_nodes() -> Db {
    Db::open_with_config(&Config::default(), &vec![(1, vec![]), (2, vec![5, 0])], None).unwrap()
}

#[test]
fn scans_ask_only_for_leaves_that_hold_keys_of_the_range() {
    // the keys above [5] begin with [5, 0], the low key of node 2
    let mut db = two_nodes();
    assert!(matches!(db.get_gt(&[5]).unwrap(), Step::PageIn(2)));
    assert!(matches!(db.get_gt(&[4]).unwrap(), Step::PageIn(1)));
    assert!(matches!(db.first().unwrap(), Step::PageIn(1)));
    assert!(matches!(
        db.collect_range(Bound::Excluded(&[5]), Bound::Unbounded).unwrap(),
        Step::PageIn(2)
    ));
    assert!(matches!(
        db.pop_first_in_range(Bound::Excluded(&[5]), Bound::Unbounded).unwrap(),
        Step::PageIn(2)
    ));

    // the keys below [5, 0] all belong to node 1
    assert!(matches!(db.get_lt(&[5, 0]).unwrap(), Step::PageIn(1)));
    assert!(matches!(db.get_lt(&[5, 0, 0]).unwrap(), Step::PageIn(2)));
    assert!(matches!(db.last().unwrap(), Step::PageIn(2)));
    assert!(matches!(
        db.end_of_range(Bound::Included(&[5, 0]), Bound::Included(&[5, 0]), false).unwrap(),
        Step::PageIn(2)
    ));
    assert!(matches!(
        db.pop_last_in_range(Bound::Unbounded, Bound::Included(&[5])).unwrap(),
        Step::PageIn(1)
    ));
}

#[test]
fn a_range_without_keys_is_answered_without_reading() {
    let mut db = two_nodes();
    for front in [true, false] {
        assert!(matches!(
            db.end_of_range(Bound::Included(&[7]), Bound::Excluded(&[7]), front).unwrap(),
            Step::Done(None)
        ));
        assert!(matches!(
            db.end_of_range(Bound::Excluded(&[7]), Bound::Included(&[7]), front).unwrap(),
            Step::Done(None)
        ));
        assert!(matches!(
            db.end_of_range(Bound::Included(&[8]), Bound::Included(&[7]), front).unwrap(),
            Step::Done(None)
        ));
        assert!(matches!(
            db.pop_end_of_range(Bound::Excluded(&[7]), Bound::Excluded(&[7, 0]), front).unwrap(),
            Step::Done(None)
        ));
    }
    assert!(matches!(db.get_lt(&[]).unwrap(), Step::Done(None)));
    match db.collect_range(Bound::Excluded(&[7]), Bound::Excluded(&[7, 0])).unwrap() {
        Step::Done(entries) => assert!(entries.is_empty()),
        _ => panic!("the range holds no key"),
    }
    assert!(!db.is_resident(1) && !db.is_resident(2));
}
