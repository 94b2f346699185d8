# mpsc_priority_bench

Priority-queue disciplines for a many-producer / single-consumer hand-off,
with proved contracts, and the harness that benchmarks them.

- `src/dual.rs` — two classes (HIGH before LOW): a binary heap ordered by
  (priority, sequence number) and a pair of crossbeam `SegQueue`s.
- `src/prio101.rs` — levels 0 to 100: a crossbeam `SkipMap` keyed by
  (level, reversed sequence number) and one `SegQueue` per level with a
  two-word bitmap scanned from the top.
- `src/heap.rs` — the array-backed binary heap behind the first discipline.
- `src/model.rs` — the leveled first-in-first-out model and its laws.
- `src/ranked.rs` — how queues ordered by (priority, sequence number) refine
  that model.
- `src/pool.rs` — producer payload pools (slot state, payload writes and reads).
- `src/workload.rs`, `src/rng.rs` — the benchmark's work split, seeds,
  priority choice and xorshift generator.
- `src/queues_backing.rs` — the contracts assumed of the crossbeam calls.
- `app/lib.rs` — the threaded harness; it shares each queue and pool behind a
  `std::sync::Mutex`.

Every library operation takes `&mut self`; exclusive access stands in for the
synchronisation of a shared deployment.
