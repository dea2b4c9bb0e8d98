//! Core of a container-image filesystem layering system.
//!
//! Two subsystems share one data model of immutable blobs split into
//! content-addressed chunks, referenced by nodes of a layered filesystem
//! tree:
//!
//! * a bootstrap merger ([`merge::Merger`]) that overlays several per-layer
//!   manifests into a single image-level manifest, unifying the blob table
//!   and rewriting every chunk's blob index; and
//! * a blob cache ([`cache`]) that serves random-access chunk reads over a
//!   byte-range backend, with decompression and digest validation.

use vstd::prelude::*;

pub mod cache;
pub mod compress;
pub mod digest;
pub mod hexstr;
pub mod merge;
pub mod model;
pub mod tree;

verus! {

/// Errors surfaced by the merger.
#[derive(Debug, Clone, PartialEq, Eq, Structural)]
pub enum MergeError {
    /// Argument arity, empty sources, or mode conflicts.
    InputValidation,
    /// Mismatched chunk size, compressor, digester, or version across inputs.
    IncompatibleManifest,
    /// A layer contributes more than one non-dictionary data blob.
    BlobConstraint,
    /// A supplied digest override is not a 64-digit hex string.
    BadDigest,
}

/// Errors surfaced by the blob cache read path.
#[derive(Debug, Clone, PartialEq, Eq, Structural)]
pub enum StorageError {
    /// Short read, transport failure, or blob not found.
    BackendIo,
    /// The codec rejected its input.
    Decompression,
    /// Validation enabled and a chunk digest does not match its block id.
    DigestMismatch,
    /// A decompressed chunk does not have the declared size.
    SizeMismatch,
    /// Prefetch requested while prefetch is disabled.
    Unsupported,
    /// Invalid argument, such as an empty IO vector.
    InvalidInput,
}

} // verus!
