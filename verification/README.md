# qos

An external block-packing scheduler for a Solana validator that speaks the
Agave scheduler protocol over shared memory. The decision logic lives in a
library verified with Verus; a thin program around it does the shared-memory
and socket work.

## Layout

- `src/` — the verified library.
  - `protocol.rs`: the protocol's constants and the plain values the library
    reads from its messages.
  - `priority.rs`: a transaction's priority (reward per compute unit) and the
    order of priority identifiers.
  - `heap.rs`: the min-max heap of priority identifiers (`min-max-heap`).
  - `locks.rs`: per-pass account reservation (`hashbrown` map) and the proof
    that a pass never hands out two conflicting transactions.
  - `thread_locks.rs`: worker-aware account locks
    (`agave-scheduling-utils`), modelled as a multiset of grants.
  - `account_keys.rs`: parsing and sanitizing a transaction
    (`agave-transaction-view`) and which of its accounts it writes.
  - `greedy.rs`: the greedy scheduler: unchecked and checked heaps, checks,
    eviction, execution budget and execution passes, and the steps of a
    poll (making room for arrivals, the next check batch, the next
    worker's execution batch).
  - `legacy.rs` and `fifo.rs`: the FIFO scheduler: its queue, worker-aware
    locking, batches, and the handling of every worker answer.
  - `sim.rs`: the simulated validator's leader schedule, packet flags and
    worker answers.
  - `forward.rs`: the forwarding client's decoding (`bincode`) of arriving
    transactions and their batching.
- `tests/` — tests of the library, run against the real outside crates.
- `app/` — the program: `scheduler <path> [--scheduler greedy|legacy]` runs a
  scheduler against a validator; without arguments it runs the simulated
  validator and a forwarding client. Besides the crates in `Cargo.toml`, the
  simulated validator needs `solana-perf`, `solana-runtime`, `solana-sdk`,
  `solana-keypair`, `solana-genesis-config`, `solana-system-transaction`,
  `solana-signer`, `solana-message`, `solana-system-interface` and
  `solana-compute-budget-interface`; they are left out of `Cargo.toml` to
  keep the dependency graph small, so `app/` does not build as it stands.
