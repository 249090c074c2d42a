# taskdump

Logical "stack" traces of nested, framed computations, verified with Verus.

- `src/location.rs` — source locations and their text.
- `src/frame.rs` — frames, the forest they form (attach on first activation,
  task locks, release), ancestors, and the tree drawing of task dumps with
  consecutive identical subtrees drawn once.
- `src/tasks.rs` — the task set (a `dashmap::DashSet` behind trusted wrappers),
  tasks and their dumps; a dump that waits for busy tasks stops at each one
  and is resumed once it is idle.
- `src/traced.rs` — a computation paired with its frame.
- `src/text.rs` — decimal numerals and line joining.
- `app/` — the process-wide forest behind a mutex, the per-thread active frame,
  and futures that activate their frame around each poll.
