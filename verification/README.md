# veilid_core (verified core)

The logic of a Veilid node, written in Verus: the functions in `src/`
carry contracts that Verus proves, and the properties the node relies on
are stated as proof functions next to the code. The calls into outside
crates (hashing, text encodings, key generation, the LRU caches and the
range sets) are made by small wrappers whose contracts are trusted, not
proved; each says in its doc comment what it claims of the crate.

## Layout

- `src/key.rs` — DHT keys, secrets, signatures and distances: bits and
  nibbles, ordering, base64url and hex text, BLAKE3 hashes, key generation.
- `src/value_data.rs`, `src/subkeys.rs` — subkey values and sets of subkeys.
- `src/watch_value.rs`, `src/operations.rs` — RPC operations built from and
  written back to their wire fields.
- `src/receipt_manager.rs` — outstanding receipts, their returns, expiry and
  cancellation.
- `src/connection_table.rs` — open connections: one least-recently-used
  cache per protocol, limits, eviction of idle connections, lookups.
- `src/network_manager.rs` — how a node is reached, envelope versions and
  timestamps, packet kinds, the relay whitelist, public address change
  detection and traffic accounting.
- `src/storage_manager.rs` — local and remote writes, consensus of outbound
  writes, watches, offline writes, the nodes holding a record, limits.
- `src/opened_records.rs` — the records a node has open, with their
  writers, safety selections and watches; record descriptors.
- `src/routing_table.rs`, `src/rpc.rs` — peer searches and RPC decisions.
- `src/client_api.rs` — registrations of API clients and their requests.
- `src/intf.rs` — random bytes from random words; the block store's state.
- `app/` — what stays outside verification: Ed25519 signing with a BLAKE3
  prehash, the clock and random source, JSON forms, error texts.
- `tests/` — tests of the library on concrete values.
