//! The errors of the storage layer.

use vstd::prelude::*;

use crate::chunk::ChunkId;

verus! {

#[verifier::external_type_specification]
#[verifier::external_body]
pub struct ExIoError(std::io::Error);

/// Everything that can go wrong while cutting a file into chunks or putting
/// it back together.
#[derive(Debug)]
#[allow(inconsistent_fields)]
pub enum StorageError {
    /// Reading the input failed.
    Io(std::io::Error),
    /// The path does not end in a file name that is valid UTF-8.
    InvalidName(String),
    /// A chunk size of zero was asked for.
    InvalidChunkSize,
    /// The bytes of a chunk do not hash to the chunk's own id.
    CorruptedChunk { index: u64, expected: ChunkId, actual: ChunkId },
    /// The chunk at this position does not carry the position as its index,
    /// or not the id that the manifest lists there.
    ChunkMismatch { position: usize },
    /// The manifest lists another number of chunks than was given.
    ChunkCount { expected: usize, actual: usize },
    /// The chunks add up to another size than the manifest records.
    SizeMismatch { expected: u64, actual: u64 },
    /// The SHA-256 of the reassembled file differs from the manifest's.
    FileChecksumMismatch,
}

/// The result of the storage layer's operations.
pub type Result<T> = core::result::Result<T, StorageError>;

} // verus!
