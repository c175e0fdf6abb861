# shuttle (verified core)

Shuttle tests concurrent code by controlling which thread runs at every yield point. This crate
holds the parts of it whose behaviour is stated and proved with Verus:

- `src/lib.rs`: `Config`, `FailurePersistence`, `MaxSteps`.
- `src/scheduler/dfs.rs`: the exhaustive depth-first scheduler, as a state machine over
  `DfsView`; `dfs_step` states exactly what `next_task` does.
- `src/scheduler/explore.rs`: over a whole test (a tree of runnable sets), the executions of
  the DFS scheduler are the leaves in depth-first order: the first is the least, each next one
  immediately follows the previous one, and the search ends at the greatest.
- `src/scheduler/complete.rs`: a whole DFS search on a test with finitely many interleavings
  ends, runs every interleaving, and runs none twice.
- `src/scheduler/runs.rs`: laws over sequences of calls (at most `max_iterations` executions,
  `None` stays `None`, every execution draws the same random values).
- `src/scheduler/bounded.rs`: under a preemption bound, every execution stays within it and
  each next one still comes later in depth-first order.
- `src/scheduler/fuzz.rs`: the scheduler that follows a schedule handed in by a fuzzer.
- `src/scheduler/data.rs`: seeded data sources; the n-th value drawn is a function of the seed.
- `src/future.rs`, `src/sync.rs`: the decision logic of `AtomicWaker` and `Notify`.
- `src/model.rs`: loom's `model::Builder`, whose settings default to the `LOOM_*` environment
  variables that the caller reads and hands in.

`app/lib.rs` wraps `Notify` and `AtomicWaker` in `std::sync` primitives so that threads can
share them, and reads the `LOOM_*` variables for `Builder::new`. `tests/dfs.rs` drives the DFS scheduler with a small simulation of threads and checks
the numbers of schedules that each test program has.
