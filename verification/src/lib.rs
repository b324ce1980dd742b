//! Zarza: proof-of-work hashing, transactions, blocks, wallets and the
//! ledger rules of the Zarza chain, with their contracts checked by Verus.

pub mod block;
pub mod blockchain;
pub mod codec;
pub mod crypto;
pub mod keyed;
pub mod miner;
pub mod network;
pub mod transaction;
pub mod utxo;
pub mod wallet;
pub mod zrzhash;
