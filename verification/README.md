# apex_core

An archetype-based entity component system whose core is verified with Verus.

- `src/` is the verified library. Components are bytes, and component types are known by numbers;
  everything else is here: entities and their reservation, archetypes and columns, the storage, the
  relation graph, required components and hooks, queries (static, dynamic, dense and in parallel
  pieces), deferred commands, events, resources, access declarations and the error policy. Each
  public function states what it does over mathematical models of the data, and the files whose
  names end in `_laws` hold what holds across functions.
- The library runs no closures and drops no values. Applying commands stops where the caller has
  something to run (a function, a template, hooks that are due) and then goes on. Values whose types
  need disposal are handed back by `World::take_discarded` once the world no longer keeps them.
- `tests/` runs the library on concrete values.
- `app/` is ordinary Rust around it: typed components, values that own
  something, serialization, closures, hooks, threads, logging
  and workloads for timing.

The outside crates that the library itself calls are `rustc-hash` (`src/fx.rs`) and `smallvec`
(`src/inline.rs`); what is believed of them is stated there.
