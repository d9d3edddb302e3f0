# multi_index_store

Two multi-index containers over a `slab` store, and the turn-taking rule
of consumers that print a shared queue in turn, verified with Verus.

- `MultiIndexOrderMap` keeps `Order`s: a hashed unique index on
  `order_id`, an ordered unique index on `timestamp` and a hashed
  non-unique index on `trader_name`.
- `MultiIndexAgentTaskMap` keeps `AgentTask`s: a hashed non-unique index
  on `agent_id` and an ordered unique index on `task_id`; the tasks carry
  tokio handles that the map never looks at.
- `turns::Consumer` is the state machine of one consumer in a ring that
  takes turns at a queue.

Each map is modelled as a `Map<usize, _>` from slot keys to elements; its
well-formedness says that every index files exactly the stored elements.
Every operation states what it does to that model and what it returns, and
the laws (`law_*`) state what lookups find after a store, a removal or a
change, and that a ring of consumers prints the queue round-robin.

Layout:

- `src/order_store.rs`, `src/task_store.rs`: the trusted calls into
  `multi_index_map::slab::Slab`, with their contracts.
- `src/order_map.rs`, `src/agent_map.rs`: the maps.
- `src/turns.rs`: the turn-taking consumers.
- `src/keys.rs`: ascending key lists out of `BTreeSet`s.
- `tests/`: tests on concrete values.
- `app/`: the demonstration programs (`orders`, `agents`, `agents-random`, `interval`,
  `unordered`, `queue-1`, `queue-2`, `atomic`, `atomic-2`, `notify`),
  which do the I/O and the signalling.
