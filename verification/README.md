# resonantdust

The rules of a shared card world: versioned rows for cards, souls, zones,
regions and players; placements and stacks; holds and leases; recipes that are
proposed, verified, planned and committed; terrain; garbage collection.

`src/` is the library. Every rule is a function on in-memory tables, and its
contract says how the tables after the call follow from the tables before it.
Laws that relate several rules stand as public proof functions next to the rules
they speak of.

- `packed`, `tile_words`, `text`, `time`, `history`, `registry`, `content`: keys, packed
  words, clocks, version history, flags and the content catalog.
- `cards`, `players`, `actions`: the realm.
- `regions`, `regionindex`: terrain and the directory of regions.
- `shard`: the unified shard.
- `tables`, `pending_actions`, `gc_schedule`, `schedule_delete`: what they share.

`app/` holds the SpacetimeDB tables and reducers and the floating-point climate
model. It reads the tables, calls the library and writes back what changed.

`tests/` runs the library on concrete worlds.
