//! The errors that ledger operations report.

use vstd::prelude::*;

verus! {

#[derive(Debug, Clone, Copy, PartialEq, Eq, Structural)]
pub enum BlockChainError {
    /// A transaction failed verification, spends an output that is not
    /// unspent, or spends one output twice.
    InvalidTransaction,
    /// The unspent outputs of the sender do not cover the amount.
    InsufficientFunds,
    /// A signature could not be made with the given key.
    InvalidSignature,
    /// An address is not valid base58 or is too short to hold a key hash.
    InvalidAddress,
    /// A block's digest is not the digest of its header, or does not meet its target.
    InvalidProofOfWork,
    /// A block does not extend the current tip.
    WrongPredecessor,
    /// A block's height is not the current height plus one.
    WrongHeight,
    /// The chain has no genesis block yet.
    EmptyChain,
    /// The chain already has a genesis block.
    AlreadyInitialized,
    /// The proof-of-work search ended without a block.
    NoBlockProduced,
    /// A stored value could not be read or written.
    StorageError,
    /// A peer could not be reached or rejected a request.
    NetworkError,
}

impl BlockChainError {
    /// Whether the error rejects a block.
    pub fn is_invalid_block(&self) -> (r: bool)
        ensures
            r == (*self == BlockChainError::InvalidProofOfWork || *self
                == BlockChainError::WrongPredecessor || *self == BlockChainError::WrongHeight),
    {
        match self {
            BlockChainError::InvalidProofOfWork => true,
            BlockChainError::WrongPredecessor => true,
            BlockChainError::WrongHeight => true,
            _ => false,
        }
    }
}

} // verus!
