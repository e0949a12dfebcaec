//! What can go wrong while an archive is read or written.

use vstd::prelude::*;

verus! {

/// The ways in which reading or writing an archive fails.
#[derive(Clone, Copy, Debug, PartialEq, Eq, Structural)]
pub enum ArchiveError {
    /// A read ran past the end of the archive.
    UnexpectedEof,
    /// The bytes of a PAK entry's name are not UTF-8.
    InvalidName,
    /// zlib refused a stream.
    Codec,
    /// An offset, a size or the entry count does not fit in 32 bits.
    TooLarge,
}

} // verus!
