//! The failures a pipeline pass can report.

use vstd::prelude::*;

verus! {

/// The parameter whose absence stops an operation before the file is touched.
#[derive(Clone, Copy, Debug, PartialEq, Eq, Structural)]
pub enum MissingKind {
    /// No file was named.
    Filename,
    /// The operation needs a chunk type tag and none was given.
    ChunkType,
    /// Update and Delete address an occurrence, and position 0 is invalid.
    Position,
    /// Write and Update need payload bytes and none were given.
    Data,
}

/// A fatal failure of one pipeline pass.  A target chunk that is never found
/// is not an error: mutating operations report it as a `found == false`
/// outcome beside a faithfully rebuilt file.
#[derive(Clone, Copy, Debug, PartialEq, Eq, Structural)]
pub enum PngError {
    /// The first eight bytes are not the PNG signature.
    NotAPngFile,
    /// A required parameter is absent for the requested operation.
    MissingParameter(MissingKind),
    /// Fewer bytes remain than a chunk header declares.
    TruncatedChunk,
    /// The pre-mutation safety copy could not be made; the source was left alone.
    BackupFailed,
}

impl PngError {
    /// A short diagnostic line for the operator.
    pub fn describe(&self) -> (r: &'static str)
        ensures
            r@ == match self {
                PngError::NotAPngFile => "File is not png"@,
                PngError::MissingParameter(MissingKind::Filename) => "No filename provided"@,
                PngError::MissingParameter(MissingKind::ChunkType) => "No chunk type provided"@,
                PngError::MissingParameter(MissingKind::Position) => "No position provided"@,
                PngError::MissingParameter(MissingKind::Data) => "No data provided"@,
                PngError::TruncatedChunk => "Chunk is truncated"@,
                PngError::BackupFailed => "Failed to create backup"@,
            },
    {
        match self {
            PngError::NotAPngFile => "File is not png",
            PngError::MissingParameter(MissingKind::Filename) => "No filename provided",
            PngError::MissingParameter(MissingKind::ChunkType) => "No chunk type provided",
            PngError::MissingParameter(MissingKind::Position) => "No position provided",
            PngError::MissingParameter(MissingKind::Data) => "No data provided",
            PngError::TruncatedChunk => "Chunk is truncated",
            PngError::BackupFailed => "Failed to create backup",
        }
    }
}

} // verus!
