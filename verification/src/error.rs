//! The errors of accounts, transactions, blocks and the world state.
use vstd::prelude::*;
use crate::crypto::CryptoError;

verus! {

#[derive(Clone, Copy, Debug, PartialEq, Eq)]
pub enum AccountError {
    InsufficientBalance { required: u64, available: u64 },
    CostOverflow,
    BalanceOverflow,
    NonceOverflow,
    AccountNotFound,
}

#[derive(Clone, Copy, Debug, PartialEq, Eq)]
pub enum TransactionError {
    ZeroAmount,
    Account(AccountError),
    SelfTransfer,
    InvalidSignature(CryptoError),
    Duplicate,
    InvalidNonce { expected: u64, got: u64 },
    /// The transaction payload could not be encoded.
    Serialization,
}

#[derive(Clone, Copy, Debug, PartialEq, Eq)]
pub enum BlockError {
    InvalidTransactionHash(TransactionError),
    InvalidMerkleRoot,
    InvalidBlockHash,
    InvalidProofOfWork,
    InvalidDifficulty,
    InvalidTimestamp,
}

#[derive(Clone, Copy, Debug, PartialEq, Eq)]
pub enum StateError {
    Account(AccountError),
    Transaction(TransactionError),
    Block(BlockError),
    AccountNotFound,
    InvalidNonce { expected: u64, got: u64 },
    FeeOverflow,
    InvalidPreviousHash { expected: crate::crypto::Hash, got: crate::crypto::Hash },
    InvalidBlockHeight { current: u64, expected: u64, got: u64 },
}

} // verus!
