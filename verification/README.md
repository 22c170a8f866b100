# cfx-minimal-execution

Storage and replay data for executing the Conflux chain again, with contracts that
Verus proves.

- `src/` is the verified library.
  - `state/`, `trie`, `incremental`, `snapshot`, `key_codec`, `store`: the state in three
    layers (snapshot, intermediate, delta), its keys, and its Merkle roots; `node_step`
    hashes single nodes whose records lie in a database.
  - `cfxpack/`: the packet format that carries blocks and transactions, the check of a
    packet, and the container files around packets.
  - `extract/`: making packets from the data of a node, packing them into containers, and
    patching containers that are already written.
  - `validate`: the replay plan of a packet.
- `tests/` runs the library with the crates that it calls.
- `app/` holds the command line, files, databases and threads.

Laws that relate several functions are the public proof functions whose names start
with `law_`: what is written reads back (`cfxpack/roundtrip.rs`, `cfxpack/container.rs`,
`key_codec.rs`, `extract/reward_law.rs`), what is checked agrees with what is read
(`cfxpack/verify.rs`, `validate.rs`), where flags stand and what setting them does
(`cfxpack/site_law.rs`, `extract/flag_law.rs`, `extract/flag_run.rs`), and how states
change (`state/laws.rs`).

What is taken on trust stands behind functions marked `external_body` with a comment that
names the function they call: Keccak-256 (`tiny-keccak`), Snappy (`snap`), RLP (`rlp`),
the parallel map (`rayon`) and the hash map of subtree hashes (`rustc-hash`).
