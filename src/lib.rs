//! A small proof-of-work ledger: UTXO transactions, blocks, a chain with an
//! unspent-output index, and the decisions of mining and peer synchronisation.
//!
//! `codec` and `decode` fix the byte layout; `crypto` names the digests and
//! signatures that outside crates compute; `pow` holds the target test;
//! `transaction`, `block`, `utxo` and `chain` are the ledger; `miner`, `sync`
//! and `message` decide what a node does with what it receives; `laws` states
//! what holds across operations.

pub mod codec;
pub mod crypto;
pub mod pow;
pub mod error;
pub mod transaction;
pub mod wallet;
pub mod block;
pub mod utxo;
pub mod chain;
pub mod laws;
pub mod message;
pub mod sync;
pub mod miner;
pub mod bytes;
pub mod decode;
