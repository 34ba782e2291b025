//! What can go wrong when a table is built or read.

use vstd::prelude::*;

verus! {

/// The failures of this library.
#[derive(Debug, Clone, Copy, PartialEq, Eq, Structural)]
pub enum Error {
    /// The checksum stored after a block is not the checksum of its bytes.
    ChecksumMismatch,
    /// The bytes of a block, of the block index or of a table as a whole do
    /// not have the shape of what they should hold.
    Corrupted,
    /// The table has grown past what the four bytes of a stored offset can
    /// address.
    TableTooLarge,
}

impl Error {
    /// A short description of the failure.
    pub fn message(&self) -> (text: &'static str)
        ensures
            text@ == match self {
                Error::ChecksumMismatch => "block checksum mismatch"@,
                Error::Corrupted => "malformed table or block"@,
                Error::TableTooLarge => "table larger than a 32-bit offset can address"@,
            },
    {
        match self {
            Error::ChecksumMismatch => "block checksum mismatch",
            Error::Corrupted => "malformed table or block",
            Error::TableTooLarge => "table larger than a 32-bit offset can address",
        }
    }
}

} // verus!
