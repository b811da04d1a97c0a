# read_copy_update

A read-copy-update lock, verified with Verus.

RCU locks support multiple concurrent readers accessing a value updated by a single writer. They are
useful for publishing new configuration values to multiple readers or as a lightweight garbage
collection mechanism.

## Design

New values are allocated on the heap and stamped with an epoch. A reader takes up the latest value
when it reads without having guards, and publishes the epoch of that value. A value is reclaimed once
all live readers have published a later epoch. Because of this design, nested reads do not pick up
the latest value: only once all guards of a reader have been given back is its value refreshed.

## Layout

- `src/model.rs` says what the state of a lock is and what each operation does to it.
- `src/writer.rs` and `src/cursor.rs` hold the decisions of the two sides: which values to let go,
  and which value a reader stays with.
- `src/rcu.rs` is the lock with its readers and guards, over explicit state: an operation of a reader
  takes what is shared as an argument, and a guard or a reader is given back by a call, not when it
  goes out of scope. That lets contracts say exactly what a call changes. What is shared outlives the
  write side, so that readers can go on reading.
- `src/registry.rs` is the table of readers, `src/per_thread.rs` keeps one reader per thread, with
  the help of the `thread_local` crate.
- `src/laws.rs` holds what follows for the lock as a whole. `src/interleaving.rs` takes operations
  apart into single steps. It shows that their order does not matter for safety, and that the steps
  of an operation which nothing interrupts add up to what the model says of it.
- `app/` is the lock for concurrent use: atomics and raw pointers around the decisions of the
  library, with handles that are given back when they are dropped.
- `tests/` runs the library. `tests/threads.rs` does so under the schedules of `loom`.

## Example

```rust
let mut rcu = Rcu::new(10);
let mut rdr = rcu.reader();

let guard = rdr.read(rcu.shared());
rcu.write(20);
assert_eq!(10, *guard);
guard.drop(&mut rdr);

let guard = rdr.read(rcu.shared());
assert_eq!(20, *guard);
guard.drop(&mut rdr);
rdr.drop(rcu.shared());
```
