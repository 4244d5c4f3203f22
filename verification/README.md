# kv_core

An encrypted key-value store with TTLs, pub/sub cache-invalidation events
and three persistence modes (memory, append-only file, on-disk store),
written in Verus: the logic is executable Rust whose behaviour is stated in
`requires`/`ensures` contracts and proved.

## Layout

- `src/` — the verified library.
  - `engine.rs`: the engine; each operation's effect is a spec predicate
    (`set_effect`, `get_effect`, `delete_effect`, `expire_effect`,
    `clear_effect`, `sweep_effect`) over the model of the engine: the
    entries of each database, the TTL index, the subscriptions and the
    operation counter.
  - `storage/`: the memory, append-only-file and disk backends, the
    factory, the store's key order, and the framing of the append-only file.
  - `ttl.rs`: the TTL index (expiry buckets kept consistent with the
    key → expiry table), `pubsub.rs`: channel patterns and delivery,
    `encryption.rs`: per-database keys and AES-256-GCM, `client.rs`: the
    client's settings, request heads, response bodies and paths.
  - `types.rs`, `collections.rs`, `sorted_set.rs`, `table.rs`, `pattern.rs`,
    `text.rs`, `time.rs`, `error.rs`: values, entries, the data structures
    and helpers.
  - `laws.rs`: properties relating several operations (read after write,
    read after delete, keys after write and clear, TTL bounds, the expiry
    sweep and runs of sweeps, encryption round trips, the append-only
    file's round trip, what a publish offers and keeps, the invalidation
    announced by a write, cleanup keeping subscriptions that were
    published to); `pattern.rs` also proves what a pattern with one `*`
    matches.
- `tests/` — tests of the library on concrete values.
- `app/` — the program around the library: files, sled, sockets, HTTP,
  background loops, serde forms and the Python bindings.

Calls into outside crates (AES-GCM, HKDF, base64, random numbers, the
clock, tokio channels, URL encoding) stand behind small trusted wrappers
whose contracts are stated next to them.
