//! Tagged failure values carrying the offending block's identity.

use vstd::prelude::*;

verus! {

/// The identity of the failing logical block together with a human-readable
/// description of what went wrong.
#[derive(Debug, PartialEq)]
pub struct LogicalBlockError {
    pub logical_block_id: String,
    pub description: String,
}

/// A failure of the update pipeline. Every kind is fatal: the driver
/// surfaces the first failure and stops.
#[derive(Debug, PartialEq)]
pub enum UpdateError {
    /// The destination write failed or wrote fewer bytes than requested.
    LogicalBlockWrite(LogicalBlockError),
    /// The source stream or the destination read-back failed or came short.
    LogicalBlockRead(LogicalBlockError),
    /// The manifest references an id that the memory map does not define.
    MissingLogicalBlock(LogicalBlockError),
    /// The number of bytes delivered by the archive differs from the
    /// declared region size.
    LogicalBlockSize(LogicalBlockError),
    /// RSA-PSS rejected the destination bytes.
    VerificationFailed(LogicalBlockError),
}

/// The mathematical shadow of `UpdateError`: the kind and the block id,
/// with the prose description abstracted away.
pub enum UpdateFault {
    BlockWrite(Seq<char>),
    BlockRead(Seq<char>),
    MissingBlock(Seq<char>),
    BlockSize(Seq<char>),
    Verification(Seq<char>),
}

impl UpdateError {
    /// The kind of the error and the id it carries.
    pub open spec fn fault(self) -> UpdateFault {
        match self {
            UpdateError::LogicalBlockWrite(e) => UpdateFault::BlockWrite(e.logical_block_id@),
            UpdateError::LogicalBlockRead(e) => UpdateFault::BlockRead(e.logical_block_id@),
            UpdateError::MissingLogicalBlock(e) => UpdateFault::MissingBlock(e.logical_block_id@),
            UpdateError::LogicalBlockSize(e) => UpdateFault::BlockSize(e.logical_block_id@),
            UpdateError::VerificationFailed(e) => UpdateFault::Verification(e.logical_block_id@),
        }
    }

}

impl LogicalBlockError {
    /// Bundle a block id with a description.
    pub fn new(logical_block_id: String, description: &str) -> (r: LogicalBlockError)
        ensures
            r.logical_block_id@ == logical_block_id@,
            r.description@ == description@,
    {
        LogicalBlockError { logical_block_id, description: description.to_owned() }
    }
}

} // verus!
