//! Failure kinds of the note-writing core.

use vstd::prelude::*;

verus! {

/// Everything that can go wrong while resolving a path or writing a note.
///
/// Each variant carries at most the bytes of the path or subject it concerns,
/// so a caller can render a useful message. The taxonomy is flat: no nested
/// causes.
#[derive(Debug)]
pub enum Error {
    /// The root or parent directory could not be determined; the payload
    /// names which one.
    CannotFindDir(Vec<u8>),
    /// Path construction failed before any directory was created.
    CannotBuildPath,
    /// The date directory could not be created.
    CannotCreateDir(Vec<u8>),
    /// The note file could not be opened or created.
    CannotOpenOrCreatePath(Vec<u8>),
    /// The note file could not be read back for a tag merge.
    CannotReadFile(Vec<u8>),
    /// The header delimiter or the tags line is missing or malformed.
    CannotParseMetaData,
    /// The merged contents or the entry line could not be persisted.
    CannotWriteToFile(Vec<u8>),
    /// No command was supplied on the command line.
    CannotProcessArgs,
}

impl Error {
    /// A short fixed description of the failure kind, for messages.
    pub fn describe(&self) -> (r: &'static str)
    {
        match self {
            Error::CannotFindDir(_) => "cannot find directory",
            Error::CannotBuildPath => "cannot build path",
            Error::CannotCreateDir(_) => "cannot create directory",
            Error::CannotOpenOrCreatePath(_) => "cannot open or create path",
            Error::CannotReadFile(_) => "cannot read file",
            Error::CannotParseMetaData => "cannot parse metadata",
            Error::CannotWriteToFile(_) => "cannot write to file",
            Error::CannotProcessArgs => "cannot process arguments",
        }
    }
}

} // verus!
