use read_copy_update::{is_live, Cursor, Pointer, StampedValue, Writer, NOT_IN_USE};
use std::sync::Arc;

fn stamped(value: &'static str, epoch: u64) -> Arc<StampedValue<&'static str>> {
    Arc::new(StampedValue { value, epoch })
}

#[test]
fn stamps_follow_one_another() {
    let mut writer = Writer::new();
    assert_eq!(1, writer.epoch());
    assert_eq!(0, writer.waiting());
    let next = writer.stamp('x');
    assert_eq!('x', next.value);
    assert_eq!(2, next.epoch);
    let next = writer.stamp('y');
    assert_eq!(3, next.epoch);
    assert_eq!(3, writer.epoch());
}

fn full() -> Writer<&'static str> {
    let mut writer = Writer::new();
    writer.retire(stamped("a", 1));
    writer.retire(stamped("b", 2));
    writer.retire(stamped("c", 3));
    writer
}

#[test]
fn earliest_epoch_decides() {
    let mut writer = full();
    let unused = writer.take_unused(&vec![4, 3, 5]);
    let values: Vec<&str> = unused.iter().map(|stamped| stamped.value).collect();
    assert_eq!(vec!["a", "b"], values);
    assert_eq!(1, writer.waiting());
}

#[test]
fn no_epochs_free_everything() {
    let mut writer = full();
    assert_eq!(3, writer.take_unused(&vec![]).len());
    assert_eq!(0, writer.waiting());
}

#[test]
fn dropped_reader_that_is_still_seen_keeps_everything() {
    let mut writer = full();
    assert_eq!(0, writer.take_unused(&vec![NOT_IN_USE, 9]).len());
    assert_eq!(3, writer.waiting());
}

#[test]
fn equal_epoch_keeps_the_value() {
    let mut writer = full();
    assert_eq!(0, writer.take_unused(&vec![1]).len());
    assert_eq!(1, writer.take_unused(&vec![2]).len());
    assert_eq!(2, writer.take_unused(&vec![4]).len());
}

#[test]
fn search_ends_at_the_first_value_in_use() {
    let mut writer = Writer::new();
    writer.retire(stamped("late", 7));
    writer.retire(stamped("early", 2));
    assert_eq!(0, writer.take_unused(&vec![5]).len());
    assert_eq!(2, writer.waiting());
}

#[test]
fn cursor_stays_with_its_value() {
    let mut cursor = Cursor::new(stamped("a", 1));
    assert_eq!(0, cursor.refs());
    assert!(cursor.is_idle());
    assert_eq!("b", cursor.advance(stamped("b", 2)).value);
    assert_eq!(1, cursor.refs());
    assert!(!cursor.is_idle());
    assert_eq!("b", cursor.nest().value);
    assert_eq!(2, cursor.refs());
    cursor.release();
    cursor.release();
    assert_eq!(0, cursor.refs());
    assert_eq!(3, cursor.advance(stamped("c", 3)).epoch);
}

#[test]
fn only_dropped_readers_are_not_live() {
    assert!(!is_live(NOT_IN_USE));
    assert!(is_live(1));
    assert!(is_live(u64::MAX));
}

#[test]
fn swap_hands_back_what_was_published() {
    let mut pointer = Pointer::new(StampedValue { value: 'p', epoch: 1 });
    let loaded = pointer.load();

    let first = pointer.swap(StampedValue { value: 'a', epoch: 2 });
    assert_eq!(('p', 1), (first.value, first.epoch));
    assert!(Arc::ptr_eq(&loaded, &first));
    assert_eq!(2, Arc::strong_count(&first));
    assert_eq!(('a', 2), (pointer.load().value, pointer.load().epoch));

    let second = pointer.swap(StampedValue { value: 'b', epoch: 3 });
    assert_eq!(('a', 2), (second.value, second.epoch));
    assert_eq!(1, Arc::strong_count(&second));
    assert_eq!(('b', 3), (pointer.load().value, pointer.load().epoch));
}

#[test]
fn value_loaded_before_a_write_is_kept_for_a_new_reader() {
    let mut writer = Writer::new();
    let mut pointer = Pointer::new(StampedValue { value: 'p', epoch: writer.epoch() });

    // The reader that is being registered has loaded the value, but is not in the table yet.
    let loaded = pointer.load();
    let next = writer.stamp('a');
    writer.retire(pointer.swap(next));

    // Nothing is reclaimed before it is in the table, with the epoch of the value it has loaded.
    let cursor = Cursor::new(loaded);
    assert_eq!(0, cursor.refs());
    assert_eq!(0, writer.take_unused(&vec![1]).len());
    assert_eq!(1, writer.waiting());

    // Once it has moved on, the value goes.
    assert_eq!(1, writer.take_unused(&vec![2]).len());
    assert_eq!(0, writer.waiting());
}

#[test]
fn reclaiming_leaves_out_dropped_readers() {
    let mut writer = full();
    let mut published = vec![NOT_IN_USE, 3, NOT_IN_USE, 2];
    published.retain(|epoch| is_live(*epoch));
    assert_eq!(vec![3, 2], published);

    let unused = writer.take_unused(&published);
    assert_eq!(1, unused.len());
    assert_eq!("a", unused[0].value);
    assert_eq!(2, writer.waiting());
}
