# my_dex

The core of a decentralised exchange node, written in Verus: the functions
in `src/` are verified against their contracts (a few, such as clock
readings and random values, can promise nothing of their result), and the
laws that tie functions together are proof functions beside them.

- `src/network`: Kademlia routing (XOR distance, k-buckets, routing table,
  key/value store with expiry and re-publishing, message handling), peer rate
  limiting and access rules, the replay-detecting security monitor.
- `src/matching_engine.rs`: hashed time-locked contracts and atomic swaps.
- `src/watchtower.rs`: fraud detection on payment channels, bans and votes.
- `src/shard_logic.rs`: shard replicas, subscriptions, failure handling and
  re-replication.
- `src/order.rs`: signed order cancellations (Ed25519).
- `src/storage`: an in-memory key/value store and a snapshot store whose
  snapshots are encoded with `bincode` (its layout of a version and a byte
  vector is stated and proved against).
- `src/security`, `src/settlement`, `src/sybil`: validation, layered AES-GCM
  encryption, settlement checks, proof of work.
- `src/utils/hlc.rs`, `src/node_logic.rs`: clock aggregation and the hybrid
  logical clock.
- `src/self_healing`, `src/voting`, `src/rest_api.rs`: service restarts,
  full-node votes, API answers.

Calls into `sha2`, `hex`, `aes-gcm`, `ed25519-dalek`, `bincode`, `rand` and the system
clock go through a few small trusted wrappers. Where a result depends only
on the arguments (hashes, encryption, signatures, encodings) the wrapper ties it to a
named function of those arguments, plus the few facts the crates document
(decryption undoes encryption; a signature verifies under its key pair's
public key); clock readings and random values are left unconstrained.

`app/` is the program around the library: files, processes, the console,
the network (TCP with Noise, SNTP), and the parts that compute with
floating-point amounts (order book, fees, balances). `tests/` exercises the library with concrete values.
