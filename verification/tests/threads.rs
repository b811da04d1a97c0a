use loom::sync::{Arc, Mutex};
use loom::thread;
use read_copy_update::{Rcu, Shared};

#[test]
fn lib_nested() {
    loom::model(|| {
        let mut rcu = Rcu::new(10);

        let mut rdr = rcu.reader();

        {
            let g = rdr.read(rcu.shared());
            assert_eq!(10, *g);

            rcu.write(20);
            {
                let g = rdr.read(rcu.shared());
                assert_eq!(10, *g);
                g.drop(&mut rdr);
            }
            g.drop(&mut rdr);
        }
    });
}

#[test]
fn thread_nested() {
    loom::model(|| {
        let n = 2;
        let rcu = Arc::new(Mutex::new(Rcu::new(0)));
        let mut rdr = rcu.lock().unwrap().reader();
        let h = {
            let rcu = rcu.clone();
            thread::spawn(move || {
                let v = rdr.read(rcu.lock().unwrap().shared());
                assert!(*v < n);

                {
                    let g = rdr.read(rcu.lock().unwrap().shared());
                    assert!(*g < n);
                    assert_eq!(*v, *g);
                    g.drop(&mut rdr);
                }
                v.drop(&mut rdr);
            })
        };
        for i in 0..n {
            rcu.lock().unwrap().write(i);
            loom::thread::yield_now();
        }
        h.join().unwrap();
    });
}

#[test]
fn thread() {
    loom::model(|| {
        let n = 2;
        let rcu = Arc::new(Mutex::new(Rcu::new(0)));
        let mut rdr = rcu.lock().unwrap().reader();
        let h = {
            let rcu = rcu.clone();
            thread::spawn(move || {
                for _ in 0..n {
                    let v = rdr.read(rcu.lock().unwrap().shared());
                    assert!(*v < n);
                    loom::thread::yield_now();
                    v.drop(&mut rdr);
                }
            })
        };
        for i in 0..n {
            rcu.lock().unwrap().write(i);
            loom::thread::yield_now();
        }
        h.join().unwrap();
    });
}

/// A lock with or without its write side.
enum Side {
    Write(Rcu<i32>),
    Read(Shared<i32>),
}

impl Side {
    fn shared(&mut self) -> &mut Shared<i32> {
        match self {
            Side::Write(rcu) => rcu.shared(),
            Side::Read(shared) => shared,
        }
    }

    fn write(&mut self, value: i32) {
        match self {
            Side::Write(rcu) => rcu.write(value),
            Side::Read(_) => unreachable!(),
        }
    }

    fn give_up(self) -> Self {
        match self {
            Side::Write(rcu) => Side::Read(rcu.drop()),
            Side::Read(_) => unreachable!(),
        }
    }
}

#[test]
fn thread_detached() {
    loom::model(|| {
        let n = 2;
        let mut rcu = Rcu::new(0);
        let mut rdr = rcu.reader();
        let rcu = Arc::new(Mutex::new(Some(Side::Write(rcu))));
        {
            let rcu = rcu.clone();
            thread::spawn(move || {
                for _ in 0..n {
                    let v = rdr.read(rcu.lock().unwrap().as_mut().unwrap().shared());
                    assert!(*v < n);
                    loom::thread::yield_now();
                    v.drop(&mut rdr);
                }
            });
        }
        for i in 0..n {
            rcu.lock().unwrap().as_mut().unwrap().write(i);
            loom::thread::yield_now();
        }
        // The write side ends here, the thread may go on reading.
        let mut rcu = rcu.lock().unwrap();
        let side = rcu.take().unwrap();
        *rcu = Some(side.give_up());
    });
}

#[test]
fn send_check() {
    loom::model(|| {
        let mut rcu = Rcu::new(10);
        let mut rdr = rcu.reader();
        let shared = Arc::new(Mutex::new(rcu.drop()));

        thread::spawn(move || {
            let handle = rdr.read(&mut shared.lock().unwrap());
            assert_eq!(10, *handle);
            handle.drop(&mut rdr);
        });
    });
}
