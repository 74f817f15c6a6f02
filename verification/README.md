# cdpt

A garbage collector with deferred partial tracing, written in Verus. Objects live in a managed
heap; participants reach them through roots (`Shared`, `AtomicShared`, `AtomicSharedOption`),
through guarded references (`Local` under a `Guard`) and through hazard pointers (`Local` under a
`Handle`). A collection cycle goes through a normal phase, root tracing and completion tracing;
mutators run alongside it, take the write barriers that the color of an edge asks for, and help
with marking and sweeping.

The collector is an explicit state, `Global<T>`, and every operation is one step on it. A cycle
can be run as a whole (`drive_collection_if_necessary`) or in pieces, between which others run
(`collect_piece`). What is shown holds of participants whose whole operations follow one another
in any order; nothing is shown of operations that overlap.

## Layout

- `src/model.rs`, `src/steps.rs`: the heap as a graph with colors, queues and participants, the
  invariant `sound`, and the steps that keep it.
- `src/epoch.rs`, `src/obj_meta.rs`, `src/man_ptr.rs`: the packed words.
- `src/heap.rs`, `src/internal.rs`, `src/global.rs`, `src/settings.rs`, `src/registry.rs`,
  `src/sync/`: the state of the collector and the structures it is made of.
- `src/guards.rs`, `src/pinning.rs`, `src/helping.rs`, `src/barriers.rs`, `src/allocation.rs`,
  `src/publishing.rs`, `src/hazard_pointer.rs`, `src/hazards.rs`: what mutators do.
- `src/collector.rs`, `src/scanning.rs`, `src/marking.rs`, `src/draining.rs`, `src/sweeping.rs`,
  `src/driving.rs`, `src/stats.rs`: what the collector does.
- `src/pointers.rs`, `src/edges.rs`, `src/comparing.rs`, `src/trace.rs`, `src/record.rs`: pointers
  and the objects that hold them. A managed pointer in an object has a kind: it may be null, or
  it may not, or it never changes.
- `src/derive.rs`: the plan by which a derived implementation traces a type.
- `src/laws.rs`, `src/survival.rs`, `src/accounts.rs`: what holds of the library as a whole. What
  is reachable is never reclaimed, what is not reachable is reclaimed by a cycle that nobody
  holds up, a participant is pinned exactly while it has guards, and the bytes that are counted
  are those of the objects there are.
- `app/`: the process-wide collector, its threads and clock, and the code generator.

What is taken on trust are calls into crossbeam's work-stealing deques, fastrand and rustc-hash;
each is a small wrapper whose doc comment says what is claimed of it.
