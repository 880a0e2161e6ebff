# abus

The coordination layer for a team of agents: a shared **board** of keyed
entries (`key → fields`, with who/when stamps and a leased **claim** so that
work is divided without collisions), and the JSON snapshot that mirrors it
across a restart. Pure logic over in-memory state, verified with Verus.

## Layout

- `src/keys.rs`: text keys in UTF-8 byte order, a strict total order.
- `src/sorted_map.rs`: `SortedMap<V>`, a key-ordered map kept as a sorted
  vector under a type invariant, with its view as a `Map`.
- `src/board.rs`: `Entry`, `Claim`, `Board` (`set`, `claim`, `release`,
  `get`, `list`, `del`), each specified over `EntryView` and spec functions.
- `src/json_tree.rs`: the trusted boundary to the `json` crate. What a
  `json::JsonValue` holds is named `json_tree`; each wrapper states what the
  crate's source shows of one call.
- `src/snapshot.rs`: entries as JSON values, the snapshot text, and reading a
  snapshot back.
- `src/laws.rs`: properties across operations (first claimant wins, leases
  lapse, only the holder's writes renew, read after write, repeating a
  `set` or a claim changes nothing further, the operations keep a board
  sound, and the snapshot round trip at the level of JSON values), proved.
  The round trip of the snapshot text is stated in `snapshot`'s `ensures`,
  resting on the trusted fact that `json::parse` reads back what `dump`
  wrote for plain values.
- `app/lib.rs`: `FileBoard`, the host side: loads a snapshot file, forwards
  operations, and writes the snapshot when the board reports a pending write.
- `tests/`: the behaviour on concrete values, run against the real `json`
  crate.
