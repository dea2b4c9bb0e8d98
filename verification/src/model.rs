//! Shared data model: chunks, blob descriptors, and small byte helpers.

use vstd::prelude::*;

use crate::compress;
use crate::digest;

verus! {

/// Description of one immutable, content-addressed unit of blob data.
///
/// `block_id` is the 32-byte digest of the *decompressed* chunk bytes; two
/// chunks with equal `block_id` are interchangeable.
#[derive(Clone, Debug)]
pub struct ChunkInfo {
    /// Index of the chunk within its blob.
    pub index: u32,
    /// 32-byte digest of the decompressed chunk bytes.
    pub block_id: Vec<u8>,
    /// Position of the chunk in the compressed blob.
    pub compress_offset: u64,
    /// Size of the chunk as stored in the blob.
    pub compress_size: u32,
    /// Size of the chunk once decompressed.
    pub decompress_size: u32,
    /// Whether the stored bytes are compressed with the blob's compressor.
    pub is_compressed: bool,
}

impl ChunkInfo {
    /// A chunk descriptor is well formed when its block id has digest width.
    pub open spec fn wf(self) -> bool {
        self.block_id@.len() == 32
    }
}

/// Feature bits of a blob that the core reads.
#[derive(Clone, Copy, Debug)]
pub struct BlobFeatures {
    /// Blob data and its metadata header are two distinct backend objects.
    pub separate: bool,
    /// The blob is a plain tar stream serving as the filesystem payload.
    pub tarfs: bool,
}

/// Immutable per-blob descriptor as found in a loaded manifest.
#[derive(Clone, Debug)]
pub struct BlobInfo {
    /// Textual identifier of the blob object in the backend, as bytes.
    pub blob_id: Vec<u8>,
    /// Feature bits of the blob.
    pub features: BlobFeatures,
    /// Compression algorithm of the blob's chunks.
    pub compressor: compress::Algorithm,
    /// Digest algorithm of the blob's chunks.
    pub digester: digest::Algorithm,
    /// Size of the compressed blob object.
    pub compressed_size: u64,
    /// Digest of the blob's metadata header.
    pub blob_meta_digest: Vec<u8>,
    /// Size of the blob's metadata header.
    pub blob_meta_size: u64,
    /// Digest of the blob's table of contents.
    pub blob_toc_digest: Vec<u8>,
    /// Size of the blob's table of contents.
    pub blob_toc_size: u32,
    /// Upper bound on decompressed chunk sizes; shared by all chunks of the blob.
    pub chunk_size: u64,
}

/// Compare two byte vectors for equality of their contents.
pub fn bytes_eq(a: &Vec<u8>, b: &Vec<u8>) -> (r: bool)
    ensures
        r == (a@ == b@),
{
    if a.len() != b.len() {
        assert(a@ != b@);
        return false;
    }
    let n: usize = a.len();
    let mut i: usize = 0;
    while i < n
        invariant
            n == a@.len() == b@.len(),
            0 <= i <= n,
            forall|k: int| 0 <= k < i ==> a@[k] == b@[k],
        decreases n - i,
    {
        if a[i] != b[i] {
            assert(a@ != b@);
            return false;
        }
        i += 1;
    }
    assert(a@ =~= b@);
    true
}

/// Copy the byte range `[from, to)` of `v` into a fresh vector.
pub fn sub_bytes(v: &Vec<u8>, from: usize, to: usize) -> (r: Vec<u8>)
    requires
        from <= to <= v@.len(),
    ensures
        r@ == v@.subrange(from as int, to as int),
{
    let mut out: Vec<u8> = Vec::new();
    let mut i: usize = from;
    while i < to
        invariant
            from <= i <= to <= v@.len(),
            out@ =~= v@.subrange(from as int, i as int),
        decreases to - i,
    {
        out.push(v[i]);
        assert(out@ =~= v@.subrange(from as int, i + 1));
        i += 1;
    }
    out
}

} // verus!
