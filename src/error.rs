use vstd::prelude::*;

use crate::path::RelPath;

verus! {

/// What can go wrong while indexing, copying or removing files.
#[derive(Debug)]
pub enum Error {
    /// An I/O failure on a path: the failure's message, then the path.
    Io(String, String),
    /// A failure while copying: the message, the source, the temporary target.
    Cp(String, String, String),
    /// A failure while renaming: the message, the temporary file, the final path.
    Mv(String, String, String),
    /// The folder is not a live data folder: no message database, or it is an archive.
    NotWhatsAppFolder(String),
    /// The folder is neither an archive nor empty.
    NewArchiveFolderNotEmpty(String),
    /// A finished copy did not carry the metadata expected of it.
    FileMismatch(RelPath),
    /// A path asked to be removed is not in the index.
    FileMissing(RelPath),
    /// A path asked to be mirrored is not in the source index.
    IndexEntryMissing,
    /// The database folder holds no full backup to rotate against.
    NoCurrentDatabase,
}

} // verus!
