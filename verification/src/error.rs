//! What can go wrong around a chunking run, and how it is reported.

use vstd::prelude::*;

verus! {

/// The step at which the byte source failed.
#[derive(Clone, Copy, Debug, PartialEq, Eq, Structural)]
pub enum SourceStep {
    /// The file could not be opened.
    Opening,
    /// The file could not be mapped into memory.
    Mapping,
}

/// A failed chunking run. Each run reports at most one failure, as a single
/// message; nothing is retried.
#[derive(Clone, Debug, PartialEq, Eq)]
pub enum ChunkError {
    /// The chunk sizes cannot be used.
    Configuration,
    /// The storage target could not be created or a chunk could not be
    /// written; the text is the system's description.
    Io(String),
    /// The byte source failed before chunking began.
    SourceUnavailable(SourceStep, String),
}

impl ChunkError {
    /// The message that describes this failure to the caller.
    pub open spec fn message_text(self) -> Seq<char> {
        match self {
            ChunkError::Configuration => "Failed to process chunks: invalid chunk sizes"@,
            ChunkError::Io(detail) => "Failed to process chunks: "@ + detail@,
            ChunkError::SourceUnavailable(SourceStep::Opening, detail) => "Failed to open file: "@
                + detail@,
            ChunkError::SourceUnavailable(SourceStep::Mapping, detail) => "Failed to mmap file: "@
                + detail@,
        }
    }

    /// Builds the message that describes this failure to the caller.
    pub fn message(&self) -> (text: String)
        ensures
            text@ == self.message_text(),
    {
        match self {
            ChunkError::Configuration => String::from_str(
                "Failed to process chunks: invalid chunk sizes",
            ),
            ChunkError::Io(detail) => String::from_str("Failed to process chunks: ").concat(
                detail.as_str(),
            ),
            ChunkError::SourceUnavailable(SourceStep::Opening, detail) => String::from_str(
                "Failed to open file: ",
            ).concat(detail.as_str()),
            ChunkError::SourceUnavailable(SourceStep::Mapping, detail) => String::from_str(
                "Failed to mmap file: ",
            ).concat(detail.as_str()),
        }
    }
}

} // verus!
