//! A small account-based blockchain: accounts, signed transfers, a
//! nonce-ordered and fee-prioritised mempool, proof-of-work blocks, a chain
//! that executes blocks against a world state, and the decisions of a
//! peer-to-peer node.
pub mod codec;
pub mod crypto;
pub mod map;
pub mod account;
pub mod error;
pub mod transaction;
pub mod block;
pub mod state;
pub mod blockchain;
pub mod account_queue;
pub mod priority;
pub mod mempool;
pub mod miner;
pub mod network;
pub mod constants;
