//! A small Merkle radix trie of Ethereum-style accounts, storage slots,
//! transactions and receipts, with hex-prefix path encoding.
pub mod types;
pub mod nibbles;
pub mod mpt;
pub mod rlp_codec;
pub mod hashing;
pub mod trie;
pub mod account;
pub mod storage;
pub mod execution;
pub mod transaction;
