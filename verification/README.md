# parking_lot_core

The core of a parking lot: threads queue up on a key and sleep until another thread wakes them, a
timeout is reached, or they are found to be deadlocked.

- `src/` is the verified library. A thread is named by the position of its record, and a queue is a
  list that is linked through these records. `ParkingLot::wf` is the invariant that every operation
  keeps, and `ParkingLot::waiters` the threads that wait on a key, in order.
  - `bucket`, `thread_data`, `tokens`, `thread_list`: the data.
  - `park`, `unpark_all`, `unpark_filter`, `with_thread_data`: the operations; `waiters`: what they do to
    those who wait.
  - `wait_edges`, `wait_graph`, `dfs`, `circuit`, `cycle`, `ring`, `deadlock`: who waits for whom, and
    who waits in vain.
- `app/` puts the library behind a lock and has the threads sleep, wake up and report.
- `tests/` runs the library on concrete values.

The small vector, the graph and its searches, and the backtraces come from `smallvec`, `petgraph` and
`backtrace`. What is claimed of them stands in the contracts of the wrappers in `thread_list`,
`wait_graph` and `deadlock`.
