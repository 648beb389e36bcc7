//! Errors of exFAT operations.

use vstd::prelude::*;

verus! {

/// What can go wrong with an exFAT volume.
#[derive(Debug, Clone, Copy, PartialEq, Eq, Structural)]
pub enum ExFatError {
    /// The device failed, or the volume reaches beyond its end.
    Io,
    /// The boot sector is not one of exFAT, or its numbers are not possible.
    InvalidBootSector,
    /// A checksum does not match.
    InvalidChecksum {
        /// What the volume says.
        expected: u32,
        /// What the data gives.
        found: u32,
    },
    /// The up-case table is larger than the volume.
    UpcaseExceedsVolume,
    /// The up-case table is larger than any can be.
    UpcaseTooLarge,
    /// The up-case table is fragmented.
    UpcaseFragmented,
    /// A cluster number is not one of the volume.
    InvalidCluster(u32),
    /// A FAT chain leads in a circle.
    ChainLoop,
    /// The name is empty, too long or has a character that is not allowed.
    InvalidFilename,
    /// The path has no component, or one that leads upward.
    InvalidPath,
    /// No such file or directory.
    EntryNotFound,
    /// A file or directory of that name is already there.
    AlreadyExists,
    /// A directory where a file is needed.
    NotAFile,
    /// A file where a directory is needed.
    NotADirectory,
    /// The directory has entries.
    DirectoryNotEmpty,
    /// The directory has no room for the entry.
    DirectoryFull,
    /// No cluster is free.
    NoFreeSpace,
    /// The position lies outside the file.
    InvalidInput,
    /// The file ends too early.
    UnexpectedEof,
    /// Nothing could be written.
    WriteZero,
}

} // verus!
