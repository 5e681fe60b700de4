//! The ways in which the chain state engine refuses its input.
use vstd::prelude::*;

verus! {

/// Why a block or a transaction was refused.
#[derive(Clone, Copy, Debug, PartialEq, Eq, Structural)]
pub enum BtcError {
    /// Linkage, proof of work, Merkle root or timestamp of a block is wrong.
    InvalidBlock,
    /// A transaction spends an unknown output, spends one twice, gives out
    /// more than it takes in, or a coinbase is malformed.
    InvalidTransaction,
    /// A signature does not verify against the owner of the spent output.
    InvalidSignature,
    /// Stored bytes are not the encoding of what was to be read.
    IoError,
    /// Bytes from the wire are not the encoding of a message.
    NetworkError,
}

impl BtcError {
    /// A short description of the error.
    pub fn message(&self) -> (text: &'static str)
        ensures
            text@ == match *self {
                BtcError::InvalidBlock => "invalid block"@,
                BtcError::InvalidTransaction => "invalid transaction"@,
                BtcError::InvalidSignature => "invalid signature"@,
                BtcError::IoError => "malformed stored data"@,
                BtcError::NetworkError => "malformed message"@,
            },
    {
        match self {
            BtcError::InvalidBlock => "invalid block",
            BtcError::InvalidTransaction => "invalid transaction",
            BtcError::InvalidSignature => "invalid signature",
            BtcError::IoError => "malformed stored data",
            BtcError::NetworkError => "malformed message",
        }
    }
}

} // verus!
