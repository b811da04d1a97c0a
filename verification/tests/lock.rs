use read_copy_update::{Rcu, Reader};
use std::cell::{Cell, RefCell};
use std::rc::Rc;

/// Counts the values that have not been dropped, and checks at both ends that there are none.
struct RefsCheck(Rc<Cell<usize>>);

impl RefsCheck {
    fn new() -> Self {
        let refs = Rc::new(Cell::new(0));
        assert_eq!(refs.get(), 0);
        Self(refs)
    }

    fn value(&self, v: u32) -> RecordDrop {
        self.0.set(self.0.get() + 1);
        RecordDrop(v, self.0.clone())
    }
}

impl Drop for RefsCheck {
    fn drop(&mut self) {
        assert_eq!(self.0.get(), 0);
    }
}

#[derive(Debug)]
struct RecordDrop(u32, Rc<Cell<usize>>);

impl Drop for RecordDrop {
    fn drop(&mut self) {
        self.1.set(self.1.get() - 1);
    }
}

/// Takes a guard, looks at its value and gives it back.
fn peek(rdr: &mut Reader<RecordDrop>, rcu: &mut Rcu<RecordDrop>) -> u32 {
    let handle = rdr.read(rcu.shared());
    let value = handle.0;
    handle.drop(rdr);
    value
}

#[test]
fn single_value() {
    let refs = RefsCheck::new();

    let mut rcu = Rcu::new(refs.value(10));
    let mut rdr = rcu.reader();
    assert_eq!(10, peek(&mut rdr, &mut rcu));
    rdr.drop(rcu.shared());
}

#[test]
fn old_value() {
    let refs = RefsCheck::new();

    let mut rcu = Rcu::new(refs.value(10));
    let mut rdr1 = rcu.reader();
    assert_eq!(10, peek(&mut rdr1, &mut rcu));

    let mut rdr2 = rcu.reader();
    assert_eq!(10, peek(&mut rdr2, &mut rcu));

    for i in 11..=20 {
        rcu.write(refs.value(i));
        assert_eq!(i, peek(&mut rdr1, &mut rcu));
    }

    // The second reader has stayed at the first value, so that none could be dropped.
    assert_eq!(11, refs.0.get());
    rdr2.drop(rcu.shared());
    rdr1.drop(rcu.shared());
}

#[test]
fn remove_readers() {
    let refs = RefsCheck::new();

    let mut rcu = Rcu::new(refs.value(10));

    let rdr1 = rcu.reader();
    let rdr2 = rcu.reader();

    for i in 11..=20 {
        rcu.write(refs.value(i));
    }
    assert_eq!(11, refs.0.get());

    rdr1.drop(rcu.shared());
    rdr2.drop(rcu.shared());

    rcu.write(refs.value(30));
    assert_eq!(1, refs.0.get());
}

#[test]
fn nested() {
    let refs = RefsCheck::new();

    let mut rcu = Rcu::new(refs.value(10));

    let mut rdr = rcu.reader();

    {
        let handle = rdr.read(rcu.shared());
        assert_eq!(10, handle.0);

        rcu.write(refs.value(20));

        {
            let handle = rdr.read(rcu.shared());
            assert_eq!(10, handle.0);
            handle.drop(&mut rdr);
        }

        let handle2 = rdr.read(rcu.shared());
        assert_eq!(10, handle.0);
        assert_eq!(10, handle2.0);
        handle2.drop(&mut rdr);
        handle.drop(&mut rdr);
    }

    assert_eq!(20, peek(&mut rdr, &mut rcu));
    rdr.drop(rcu.shared());
}

/// Appends its number to a log when it is dropped.
struct Logged(u32, Rc<RefCell<Vec<u32>>>);

impl Drop for Logged {
    fn drop(&mut self) {
        self.1.borrow_mut().push(self.0);
    }
}

#[test]
fn first_epoch_and_default() {
    let rcu: Rcu<u32> = Rcu::default();
    assert_eq!(1, rcu.epoch());
    let mut rcu = rcu;
    let mut rdr = rcu.reader();
    let handle = rdr.read(rcu.shared());
    assert_eq!(0, *handle);
    handle.drop(&mut rdr);
    for i in 1..=5u64 {
        rcu.write(7);
        assert_eq!(1 + i, rcu.epoch());
    }
    rdr.drop(rcu.shared());
}

#[test]
fn without_readers_every_old_value_goes_at_once() {
    let log = Rc::new(RefCell::new(Vec::new()));
    let mut rcu = Rcu::new(Logged(0, log.clone()));
    for i in 1..=4 {
        rcu.write(Logged(i, log.clone()));
        assert_eq!(0, rcu.try_reclaim());
    }
    assert_eq!(vec![0, 1, 2, 3], *log.borrow());
    drop(rcu);
    assert_eq!(vec![0, 1, 2, 3, 4], *log.borrow());
}

#[test]
fn values_wait_for_the_slowest_reader() {
    let log = Rc::new(RefCell::new(Vec::new()));
    let mut rcu = Rcu::new(Logged(1, log.clone()));
    let mut slow = rcu.reader();
    let mut fast = rcu.reader();
    for i in 2..=4 {
        rcu.write(Logged(i, log.clone()));
        let handle = fast.read(rcu.shared());
        assert_eq!(i, handle.0);
        handle.drop(&mut fast);
    }
    // The slow reader is still at the first value.
    assert_eq!(3, rcu.try_reclaim());
    assert!(log.borrow().is_empty());

    let handle = slow.read(rcu.shared());
    assert_eq!(4, handle.0);
    assert_eq!(0, rcu.try_reclaim());
    assert_eq!(vec![1, 2, 3], *log.borrow());

    // Now the fast reader is ahead, and the guard holds the rest.
    rcu.write(Logged(5, log.clone()));
    rcu.write(Logged(6, log.clone()));
    let ahead = fast.read(rcu.shared());
    assert_eq!(6, ahead.0);
    assert_eq!(2, rcu.try_reclaim());
    assert_eq!(4, handle.0);
    handle.drop(&mut slow);
    assert_eq!(2, rcu.try_reclaim());

    // Giving the guard back is not enough, the reader has to move on or to be dropped.
    slow.drop(rcu.shared());
    assert_eq!(0, rcu.try_reclaim());
    assert_eq!(vec![1, 2, 3, 4, 5], *log.borrow());
    assert_eq!(0, rcu.try_reclaim());
    ahead.drop(&mut fast);
    fast.drop(rcu.shared());
}

#[test]
fn part_of_the_queue_goes() {
    let mut rcu = Rcu::new(1);
    let mut first = rcu.reader();
    rcu.write(2);
    let second = rcu.reader();
    rcu.write(3);
    rcu.write(4);
    assert_eq!(3, rcu.try_reclaim());
    let handle = first.read(rcu.shared());
    assert_eq!(4, *handle);
    // The value 1 goes, the values 2 and 3 wait for the second reader.
    assert_eq!(2, rcu.try_reclaim());
    second.drop(rcu.shared());
    assert_eq!(0, rcu.try_reclaim());
    handle.drop(&mut first);
    first.drop(rcu.shared());
}

#[test]
fn guards_are_counted() {
    let mut rcu = Rcu::new("a");
    let mut rdr = rcu.reader();
    assert_eq!(0, rdr.refs());
    let one = rdr.read(rcu.shared());
    let two = rdr.read(rcu.shared());
    let three = rdr.read(rcu.shared());
    assert_eq!(3, rdr.refs());
    rcu.write("b");
    one.drop(&mut rdr);
    three.drop(&mut rdr);
    assert_eq!(1, rdr.refs());
    let four = rdr.read(rcu.shared());
    assert_eq!("a", *four);
    assert_eq!("a", *two);
    two.drop(&mut rdr);
    four.drop(&mut rdr);
    assert_eq!(0, rdr.refs());
    let five = rdr.read(rcu.shared());
    assert_eq!("b", *five);
    five.drop(&mut rdr);
    rdr.drop(rcu.shared());
}

#[test]
fn places_are_used_again() {
    let mut rcu = Rcu::new(0);
    for round in 1..=50 {
        let mut kept = rcu.reader();
        let gone = rcu.reader();
        rcu.write(round);
        gone.drop(rcu.shared());
        let handle = kept.read(rcu.shared());
        assert_eq!(round, *handle);
        assert_eq!(0, rcu.try_reclaim());
        handle.drop(&mut kept);
        kept.drop(rcu.shared());
    }
}

#[test]
fn new_reader_starts_at_the_latest_value() {
    let mut rcu = Rcu::new(1);
    rcu.write(2);
    let mut rdr = rcu.reader();
    rcu.write(3);
    assert_eq!(1, rcu.try_reclaim());
    let handle = rdr.read(rcu.shared());
    assert_eq!(3, *handle);
    assert_eq!(0, rcu.try_reclaim());
    handle.drop(&mut rdr);
    rdr.drop(rcu.shared());
}

#[test]
fn last_value_outlives_the_write_side() {
    let refs = RefsCheck::new();

    let mut rcu = Rcu::new(refs.value(10));
    let mut rdr = rcu.reader();
    let mut idle = rcu.reader();
    let handle = rdr.read(rcu.shared());
    rcu.write(refs.value(20));

    let mut shared = rcu.drop();
    assert_eq!(2, refs.0.get());
    assert_eq!(10, handle.0);
    handle.drop(&mut rdr);

    let handle = rdr.read(&mut shared);
    assert_eq!(20, handle.0);
    handle.drop(&mut rdr);
    let handle = idle.read(&mut shared);
    assert_eq!(20, handle.0);
    handle.drop(&mut idle);

    rdr.drop(&mut shared);
    idle.drop(&mut shared);
    assert_eq!(2, refs.0.get());
    drop(shared);
    assert_eq!(0, refs.0.get());
}

#[test]
fn replaced_values_wait_in_order() {
    let log = Rc::new(RefCell::new(Vec::new()));
    let mut rcu = Rcu::new(Logged(1, log.clone()));
    let rdr = rcu.reader();
    rcu.write(Logged(2, log.clone()));
    rcu.write(Logged(3, log.clone()));
    assert_eq!(2, rcu.try_reclaim());
    rdr.drop(rcu.shared());
    assert_eq!(0, rcu.try_reclaim());
    assert_eq!(vec![1, 2], *log.borrow());
}
