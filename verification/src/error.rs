//! The errors that validation reports.

use vstd::prelude::*;

verus! {

/// Why a block, a transaction or an encoding was rejected.
#[derive(Clone, Copy, Debug, PartialEq, Eq, Structural)]
pub enum BtcError {
    /// A transaction spends what is not there, spends it twice, pays out more than it
    /// takes in, or a coinbase is malformed or pays the wrong amount.
    InvalidTransaction,
    /// A block does not follow the tip, misses its target, or is not later than the tip.
    InvalidBlock,
    /// The Merkle root in a header is not that of the block's transactions.
    InvalidMerkleRoot,
    /// A signature does not verify under the key of the output it spends.
    InvalidSignature,
    /// An encoding could not be read.
    IoError,
}

impl BtcError {
    /// A short description of the error.
    pub fn describe(&self) -> (text: &'static str)
        ensures
            text@ == match *self {
                BtcError::InvalidTransaction => "Invalid transaction"@,
                BtcError::InvalidBlock => "Invalid block"@,
                BtcError::InvalidMerkleRoot => "Invalid Merkle root"@,
                BtcError::InvalidSignature => "Invalid signature"@,
                BtcError::IoError => "Invalid encoding"@,
            },
    {
        match self {
            BtcError::InvalidTransaction => "Invalid transaction",
            BtcError::InvalidBlock => "Invalid block",
            BtcError::InvalidMerkleRoot => "Invalid Merkle root",
            BtcError::InvalidSignature => "Invalid signature",
            BtcError::IoError => "Invalid encoding",
        }
    }
}

} // verus!
