# blockchain_core

A small account-based blockchain, verified with Verus: accounts, signed
transfers, a nonce-ordered and fee-prioritised mempool, proof-of-work
blocks, a chain that executes blocks against a world state, and the
decisions of a peer-to-peer node.

## Layout

- `src/` — the verified library. Each public function carries a contract
  over a mathematical model (`View`s and spec functions); laws that relate
  several functions are public proof functions named `law_*`.
  - `account`, `transaction`, `block`, `state`, `blockchain`: the ledger.
  - `account_queue`, `priority`, `mempool`: the pool of pending
    transactions and the fee-first selection.
  - `miner`: mining the next block from the pool.
  - `network`: framing, the peer table and the per-peer task decisions.
  - `crypto`, `codec`, `map`: hashes and keys (SHA-256 and Ed25519 through
    `sha2` and `ed25519-dalek`), byte layouts, and a byte-keyed map.
- `tests/` — tests run against the compiled library.
- `app/` — the asynchronous TCP node (tokio), serde and error types for the
  wire, and display helpers; it calls the library for every decision.

Run `verus` on `src/lib.rs` to check the proofs.
