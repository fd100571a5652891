//! Content-addressed file chunking: a file is cut into fixed-size chunks,
//! each chunk is named by the SHA-256 of its bytes, and a manifest records
//! the chunk names in order together with the size and SHA-256 of the file.

use vstd::prelude::*;

pub mod chunk;
pub mod chunker;
pub mod digest;
pub mod error;
pub mod manifest;
pub mod primitive;
pub mod reorder;
pub mod source;

pub use chunk::{to_hex, ChunkId, FileChunk};
pub use chunker::chunk_reader;
pub use digest::{calculate_checksum, sha256_spec, Sha256Hash};
pub use error::{Result, StorageError};
pub use manifest::FileManifest;
pub use primitive::FilePrimitive;
pub use source::ByteSource;

verus! {

/// The chunk size used when none is given: 1 MiB.
pub const CHUNK_SIZE: usize = 1024 * 1024;

} // verus!
