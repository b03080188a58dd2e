# geese

A game event system whose scheduling is proved correct with Verus.

A system is a value with event handlers and dependencies on other systems. A context loads systems
together with everything that they depend on, hands events to their handlers in order, and lets
handlers of independent systems run side by side on several threads.

- `src/` is the verified library. It decides which handler may run next on which thread, which
  systems must be created and dropped and in which order, and what may be borrowed. It holds no
  function pointers and starts no threads: handlers, event values and threads are numbers to it.
- `app/` is ordinary Rust around it: the typed interface with the `GeeseSystem` trait, the cells that
  hold the values of systems, the locks and the thread pool.
- `tests/` runs event cycles through the library, and its parts one by one.

The calls into `bitvec`, `fxhash`, `smallvec`, `topological-sort` and `vecdeque-stableix` stand in
`src/bits.rs`, `src/maps.rs`, `src/small.rs`, `src/sorting.rs` and `src/stable_deque.rs`, those on
the type identifiers of the standard library in `src/const_type_id.rs`. What is claimed of them there
is believed, not proved; everything else in `src/` is proved from it.

The laws of whole event cycles are in `src/cycle_laws.rs`, those of single steps of event processing in
`src/event_laws.rs` and `src/event_map.rs`, and those of loading and unloading in
`src/system_laws.rs`.
