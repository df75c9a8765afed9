use sled::epoch::FlushEpoch;

#[test]
fn epoch_rolls_forward_once_per_flush() {
    let mut epoch = FlushEpoch::new();
    assert_eq!(epoch.current_epoch(), 1);
    assert!(!epoch.is_flushing());
    assert!(!epoch.is_vacant());

    let writer = epoch.check_in();
    assert_eq!(writer.epoch(), 1);
    assert_eq!(epoch.roll_epoch_forward(), Some(1));
    assert_eq!(epoch.current_epoch(), 2);
    assert!(epoch.is_flushing());
    // a writer of the epoch being flushed has yet to leave
    assert!(!epoch.is_vacant());
    assert_eq!(epoch.roll_epoch_forward(), None);

    let late = epoch.check_in();
    assert_eq!(late.epoch(), 2);
    epoch.check_out(writer);
    assert!(epoch.is_vacant());
    epoch.mark_complete();
    assert!(!epoch.is_flushing());
    epoch.check_out(late);
    assert_eq!(epoch.roll_epoch_forward(), Some(2));
    assert!(epoch.is_vacant());
}
