# nimbus_ecs

An archetype-based Entity Component System whose bookkeeping is proved
correct with Verus.

- `src/` is the verified library: entity allocation with generations,
  archetype keys and the archetype graph, the world (spawn, insert, remove,
  despawn, bundles, batches, singletons, its event storage), command queues and per-system
  command buffers, event queues, access tracking and conflict detection,
  the priority and parallel schedulers' registration, run order and
  batching, query matching, and the Nimbus scene text format (writing,
  parsing, and the law that a written scene reads back).
- `app/` holds what runs around it: thread pools and task handles, the
  component registry with its serde functions, scene files on readers and
  writers, boxed systems and the app that runs them phase by phase.
- `tests/` exercises the library on concrete values.
