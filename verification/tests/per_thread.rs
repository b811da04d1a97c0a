use read_copy_update::{Rcu, ThreadLocal};

#[test]
fn thread_without_reader_gets_nothing() {
    let mut rcu = Rcu::new(10);
    let mut tls = ThreadLocal::new(&rcu);
    assert!(tls.get(rcu.shared()).is_none());
    rcu.write(20);
    assert!(tls.get(rcu.shared()).is_none());
    assert_eq!(0, rcu.try_reclaim());
    tls.drop(rcu.shared());
}

#[test]
fn thread_keeps_its_reader() {
    let mut rcu = Rcu::new(10);
    let mut tls = ThreadLocal::new(&rcu);

    let first = tls.get_or_init(rcu.shared());
    assert_eq!(10, *first);
    rcu.write(20);

    // The reader of the thread has a guard, so that it stays with its value.
    let second = tls.get_or_init(rcu.shared());
    assert_eq!(10, *second);
    let third = tls.get(rcu.shared());
    assert!(third.is_some());
    let third = third.unwrap();
    assert_eq!(10, *third);
    assert_eq!(1, rcu.try_reclaim());

    tls.release(second);
    tls.release(third);
    let fourth = tls.get_or_init(rcu.shared());
    assert_eq!(10, *fourth);
    tls.release(fourth);
    tls.release(first);

    let fifth = tls.get(rcu.shared()).unwrap();
    assert_eq!(20, *fifth);
    assert_eq!(0, rcu.try_reclaim());
    tls.release(fifth);
    tls.drop(rcu.shared());
}

#[test]
fn separate_storage_has_separate_readers() {
    let mut rcu = Rcu::new(1);
    let mut one = ThreadLocal::new(&rcu);
    let mut two = ThreadLocal::new(&rcu);
    let first = one.get_or_init(rcu.shared());
    assert_eq!(1, *first);
    rcu.write(2);
    assert!(two.get(rcu.shared()).is_none());
    let second = two.get_or_init(rcu.shared());
    assert_eq!(2, *second);
    let nested = one.get_or_init(rcu.shared());
    assert_eq!(1, *nested);
    one.release(nested);
    one.release(first);
    two.release(second);
    one.drop(rcu.shared());
    two.drop(rcu.shared());
}

#[test]
fn readers_can_be_used_by_position() {
    let mut rcu = Rcu::new(5);
    let mut tls = ThreadLocal::new(&rcu);
    let first = tls.get_or_init(rcu.shared());
    rcu.write(6);
    let second = tls.read_at(rcu.shared(), 0);
    assert_eq!(5, *second);
    tls.release(first);
    tls.release(second);
    let third = tls.read_at(rcu.shared(), 0);
    assert_eq!(6, *third);
    tls.release(third);
    tls.drop(rcu.shared());
}

#[test]
fn dropped_storage_holds_nothing_back() {
    let mut rcu = Rcu::new(1);
    let mut tls = ThreadLocal::new(&rcu);
    let handle = tls.get_or_init(rcu.shared());
    tls.release(handle);
    let mut rdr = rcu.reader();
    rcu.write(2);
    let handle = rdr.read(rcu.shared());
    assert_eq!(2, *handle);
    let other = rcu.reader();
    assert!(!handle.is_from(&other));
    other.drop(rcu.shared());
    assert!(handle.is_from(&rdr));
    handle.drop(&mut rdr);

    // The reader of the thread is at the first value.
    assert_eq!(1, rcu.try_reclaim());
    tls.drop(rcu.shared());
    assert_eq!(0, rcu.try_reclaim());
    rdr.drop(rcu.shared());
}

#[test]
fn each_position_has_its_own_reader() {
    let mut rcu = Rcu::new(1);
    let mut tls = ThreadLocal::new(&rcu);
    let first = tls.get_or_init(rcu.shared());
    rcu.write(2);

    // The position that was given is read again, and no reader is made.
    let again = tls.read_or_enter(rcu.shared(), 0);
    assert_eq!(1, *again);
    tls.release(again);
    tls.release(first);
    let again = tls.read_or_enter(rcu.shared(), 0);
    assert_eq!(2, *again);
    tls.release(again);
    assert_eq!(0, rcu.try_reclaim());
    tls.drop(rcu.shared());
}

#[test]
fn thread_gets_a_reader_after_the_write_side_is_gone() {
    let mut rcu = Rcu::new(1);
    let mut tls = ThreadLocal::new(&rcu);
    rcu.write(2);
    let mut shared = rcu.drop();
    assert!(tls.get(&mut shared).is_none());
    let handle = tls.get_or_init(&mut shared);
    assert_eq!(2, *handle);
    tls.release(handle);
    tls.drop(&mut shared);
}
