//! The blob cache: serving logical chunk reads over a byte-range backend,
//! with decompression and digest validation.
//!
//! [`RafsCache`] is the per-blob read capability; [`DummyCache`] is the
//! degenerate implementation that holds no local data and goes to the
//! backend for every read. [`BlobReader`] and [`BlobBackend`] are the
//! backend capabilities, with an in-memory implementation for tests and as
//! the reference.

use vstd::prelude::*;

use crate::compress;
use crate::digest;
use crate::merge::idviews;
use crate::model::{sub_bytes, ChunkInfo};
use crate::StorageError;

verus! {

/// A segment of user data within one chunk.
#[derive(Clone, Copy, Debug)]
pub struct ChunkSegment {
    /// Offset within the chunk at which user data starts.
    pub offset: u32,
    /// Length of the user data within the chunk.
    pub len: u32,
}

impl ChunkSegment {
    /// Describe user data covering `[offset, offset + len)` of a chunk.
    pub fn new(offset: u32, len: u32) -> (r: Self)
        ensures
            r.offset == offset,
            r.len == len,
    {
        Self { offset, len }
    }
}

/// Whether a chunk of a batched request serves user io or internal io.
#[derive(Clone, Copy, Debug)]
pub enum IoInitiator {
    /// Serves a user request, covering this segment of the chunk.
    User(ChunkSegment),
    /// Serves an internal need, with the chunk's index and compressed
    /// offset.
    Internal(u32, u64),
}

/// One logical chunk read request against a blob.
pub struct BlobIoDesc {
    /// The chunk to read.
    pub chunkinfo: ChunkInfo,
    /// Offset into the caller's scatter buffers at which the batch starts;
    /// read from the first descriptor of a batch.
    pub offset: u32,
    /// Number of bytes of this chunk the caller asked for.
    pub size: u32,
    /// Whether the descriptor serves a user request.
    pub user_io: bool,
}

/// A prefetch hint for a byte range of a blob.
pub struct BlobPrefetchRequest {
    /// Identifier of the blob.
    pub blob_id: Vec<u8>,
    /// Start of the range.
    pub offset: u64,
    /// Length of the range.
    pub len: u32,
}

/// Several contiguous chunk requests merged into one backend request.
#[derive(Debug)]
pub struct MergedBackendRequest {
    /// The chunks of the request, contiguous in the blob.
    pub chunks: Vec<ChunkInfo>,
    /// The initiator of each chunk, parallel to `chunks`.
    pub chunk_tags: Vec<IoInitiator>,
    /// Start of the merged range in the compressed blob.
    pub blob_offset: u64,
    /// Length of the merged range.
    pub blob_size: u32,
    /// The blob the request goes to.
    pub blob: crate::model::BlobInfo,
}

/// The initiator tag a request descriptor contributes.
pub open spec fn tag_of(cki: ChunkInfo, bio: BlobIoDesc) -> IoInitiator {
    if bio.user_io {
        IoInitiator::User(ChunkSegment { offset: bio.offset, len: bio.size })
    } else {
        IoInitiator::Internal(cki.index, cki.compress_offset)
    }
}

impl MergedBackendRequest {
    /// Open a merged request with its first chunk.
    pub fn new(first_cki: ChunkInfo, blob: crate::model::BlobInfo, bio: &BlobIoDesc) -> (r: Self)
        ensures
            r.blob_offset == first_cki.compress_offset,
            r.blob_size == first_cki.compress_size,
            r.chunks@.len() == 1 && r.chunks@[0] == first_cki,
            r.chunk_tags@.len() == 1 && r.chunk_tags@[0] == tag_of(first_cki, *bio),
            r.blob == blob,
    {
        let blob_size = first_cki.compress_size;
        let blob_offset = first_cki.compress_offset;
        let tag = if bio.user_io {
            IoInitiator::User(ChunkSegment::new(bio.offset, bio.size))
        } else {
            IoInitiator::Internal(first_cki.index, first_cki.compress_offset)
        };
        let mut chunks: Vec<ChunkInfo> = Vec::new();
        let mut tags: Vec<IoInitiator> = Vec::new();
        chunks.push(first_cki);
        tags.push(tag);
        MergedBackendRequest { chunks, chunk_tags: tags, blob_offset, blob_size, blob }
    }

    /// Extend the merged request by one contiguous chunk.
    pub fn merge_one_chunk(&mut self, cki: ChunkInfo, bio: &BlobIoDesc)
        requires
            old(self).blob_size + cki.compress_size <= u32::MAX,
        ensures
            final(self).blob_size == old(self).blob_size + cki.compress_size,
            final(self).chunks@ == old(self).chunks@.push(cki),
            final(self).chunk_tags@ == old(self).chunk_tags@.push(tag_of(cki, *bio)),
            final(self).blob_offset == old(self).blob_offset,
            final(self).blob == old(self).blob,
    {
        self.blob_size = self.blob_size + cki.compress_size;
        let tag = if bio.user_io {
            IoInitiator::User(ChunkSegment::new(bio.offset, bio.size))
        } else {
            IoInitiator::Internal(cki.index, cki.compress_offset)
        };
        self.chunks.push(cki);
        self.chunk_tags.push(tag);
    }
}

/// Configuration for blob data prefetching.
#[derive(Clone, Copy, Debug, Default)]
pub struct PrefetchWorker {
    /// Whether to prefetch blob data at all.
    pub enable: bool,
    /// Number of prefetching worker threads.
    pub threads_count: usize,
    /// Largest size of a merged prefetch request.
    pub merging_size: usize,
    /// Network bandwidth limit in bytes per second; zero means no limit.
    pub bandwidth_rate: u32,
}

/// Configuration a cache manager is created from.
#[derive(Clone, Copy, Debug)]
pub struct CacheConfig {
    /// Whether chunk digests are validated on every read.
    pub cache_validate: bool,
}

/// Byte-range read access to one blob object.
pub trait BlobReader: Sized {
    /// The bytes of the blob object.
    spec fn data(&self) -> Seq<u8>;

    /// Size of the blob object.
    fn blob_size(&self) -> (r: Result<u64, StorageError>)
        ensures
            r is Ok ==> r->Ok_0 == self.data().len(),
    ;

    /// Read exactly `len` bytes starting at `offset`, or fail.
    fn read(&self, offset: u64, len: usize) -> (r: Result<Vec<u8>, StorageError>)
        ensures
            r is Ok ==> offset + len <= self.data().len() && r->Ok_0@ == self.data().subrange(
                offset as int,
                offset + len,
            ),
    ;

    /// Hand the backend an advisory prefetch hint; nothing is promised.
    fn prefetch_blob_data_range(&self, offset: u64, len: u32) -> (r: Result<(), StorageError>);
}

/// Access to the blob store: readers for named blobs.
pub trait BlobBackend: Sized {
    /// The reader type handed out.
    type Reader: BlobReader;

    /// The bytes stored under a blob id.
    spec fn blob_data(&self, id: Seq<u8>) -> Seq<u8>;

    /// Obtain a reader over the blob named `blob_id`.
    fn get_reader(&self, blob_id: &Vec<u8>) -> (r: Result<Self::Reader, StorageError>)
        ensures
            r is Ok ==> r->Ok_0.data() == self.blob_data(blob_id@),
    ;

    /// Shut the backend down.
    fn shutdown(&self);
}

/// An in-memory blob reader over owned bytes.
pub struct MemReader {
    /// The blob's bytes.
    pub bytes: Vec<u8>,
}

impl BlobReader for MemReader {
    open spec fn data(&self) -> Seq<u8> {
        self.bytes@
    }

    fn blob_size(&self) -> (r: Result<u64, StorageError>) {
        Ok(self.bytes.len() as u64)
    }

    fn read(&self, offset: u64, len: usize) -> (r: Result<Vec<u8>, StorageError>) {
        if offset > self.bytes.len() as u64 {
            return Err(StorageError::BackendIo);
        }
        let off = offset as usize;
        if len > self.bytes.len() - off {
            return Err(StorageError::BackendIo);
        }
        Ok(sub_bytes(&self.bytes, off, off + len))
    }

    fn prefetch_blob_data_range(&self, _offset: u64, _len: u32) -> (r: Result<(), StorageError>) {
        Ok(())
    }
}

/// An in-memory blob store keyed by blob id.
pub struct MemBackend {
    /// The stored blobs, as (id, bytes) pairs; the first pair with a given
    /// id wins.
    pub blobs: Vec<(Vec<u8>, Vec<u8>)>,
}

/// Index of the first stored pair bearing `id`, or -1.
pub open spec fn find_pair(s: Seq<(Vec<u8>, Vec<u8>)>, id: Seq<u8>) -> int
    decreases s.len(),
{
    if s.len() == 0 {
        -1
    } else if s[0].0@ == id {
        0
    } else {
        let r = find_pair(s.drop_first(), id);
        if r == -1 {
            -1
        } else {
            r + 1
        }
    }
}

proof fn lemma_find_pair(s: Seq<(Vec<u8>, Vec<u8>)>, id: Seq<u8>)
    ensures
        find_pair(s, id) == -1 ==> forall|k: int| 0 <= k < s.len() ==> (#[trigger] s[k]).0@ != id,
        find_pair(s, id) != -1 ==> {
            let r = find_pair(s, id);
            &&& 0 <= r < s.len()
            &&& s[r].0@ == id
            &&& forall|k: int| 0 <= k < r ==> (#[trigger] s[k]).0@ != id
        },
    decreases s.len(),
{
    if s.len() > 0 {
        lemma_find_pair(s.drop_first(), id);
        assert(forall|k: int| 1 <= k < s.len() ==> #[trigger] s[k] == s.drop_first()[k - 1]);
    }
}

impl MemBackend {
    /// An empty in-memory store.
    pub fn new() -> (r: Self)
        ensures
            r.blobs@.len() == 0,
    {
        MemBackend { blobs: Vec::new() }
    }

    /// Store bytes under a blob id.
    pub fn add_blob(&mut self, id: Vec<u8>, bytes: Vec<u8>)
        ensures
            final(self).blobs@ == old(self).blobs@.push((id, bytes)),
    {
        self.blobs.push((id, bytes));
    }
}

impl BlobBackend for MemBackend {
    type Reader = MemReader;

    open spec fn blob_data(&self, id: Seq<u8>) -> Seq<u8> {
        if find_pair(self.blobs@, id) != -1 {
            self.blobs@[find_pair(self.blobs@, id)].1@
        } else {
            Seq::empty()
        }
    }

    fn get_reader(&self, blob_id: &Vec<u8>) -> (r: Result<Self::Reader, StorageError>) {
        proof {
            lemma_find_pair(self.blobs@, blob_id@);
        }
        let n = self.blobs.len();
        let mut i: usize = 0;
        while i < n
            invariant
                n == self.blobs@.len(),
                0 <= i <= n,
                forall|k: int| 0 <= k < i ==> (#[trigger] self.blobs@[k]).0@ != blob_id@,
            decreases n - i,
        {
            if crate::model::bytes_eq(&self.blobs[i].0, blob_id) {
                proof {
                    lemma_find_pair(self.blobs@, blob_id@);
                    assert(find_pair(self.blobs@, blob_id@) == i as int);
                }
                return Ok(MemReader { bytes: crate::merge::copy_bytes(&self.blobs[i].1) });
            }
            i += 1;
        }
        Err(StorageError::BackendIo)
    }

    fn shutdown(&self) {
    }
}

/// The decompressed bytes of one chunk, cut from the blob's bytes; `None`
/// when the chunk lies outside the blob or the codec rejects it.
pub open spec fn chunk_bytes(data: Seq<u8>, alg: compress::Algorithm, cki: ChunkInfo) -> Option<
    Seq<u8>,
> {
    if cki.is_compressed {
        if cki.compress_offset + cki.compress_size <= data.len() {
            compress::decode(
                alg,
                data.subrange(
                    cki.compress_offset as int,
                    cki.compress_offset + cki.compress_size,
                ),
            )
        } else {
            Option::None
        }
    } else {
        if cki.compress_offset + cki.decompress_size <= data.len() {
            Option::Some(
                data.subrange(
                    cki.compress_offset as int,
                    cki.compress_offset + cki.decompress_size,
                ),
            )
        } else {
            Option::None
        }
    }
}

/// A chunk as the read path must deliver it: present in the blob, of its
/// declared decompressed size, and — under validation — matching its
/// digest.
pub open spec fn good_chunk(
    data: Seq<u8>,
    alg: compress::Algorithm,
    dig: digest::Algorithm,
    validate: bool,
    cki: ChunkInfo,
) -> bool {
    &&& chunk_bytes(data, alg, cki) is Some
    &&& chunk_bytes(data, alg, cki)->Some_0.len() == cki.decompress_size
    &&& (validate ==> digest::digest_of(dig, chunk_bytes(data, alg, cki)->Some_0)
        == cki.block_id@)
}

/// What cooking one raw chunk yields: the decompressed bytes, or the exact
/// error.
pub open spec fn process_spec(
    compressor: compress::Algorithm,
    digester: digest::Algorithm,
    cki: ChunkInfo,
    raw: Seq<u8>,
    need_decompress: bool,
    need_validate: bool,
) -> Result<Seq<u8>, StorageError> {
    let d = if need_decompress {
        compress::decode(compressor, raw)
    } else {
        Option::Some(raw)
    };
    match d {
        Option::None => Result::Err(StorageError::Decompression),
        Option::Some(bytes) => {
            if bytes.len() != cki.decompress_size {
                Result::Err(StorageError::SizeMismatch)
            } else if need_validate && digest::digest_of(digester, bytes) != cki.block_id@ {
                Result::Err(StorageError::DigestMismatch)
            } else {
                Result::Ok(bytes)
            }
        },
    }
}

/// Cook one raw chunk fetched from the backend: decompress it if asked,
/// check its size against the chunk description, and validate its digest
/// if asked.
pub fn process_raw_chunk(
    compressor: compress::Algorithm,
    digester: digest::Algorithm,
    cki: &ChunkInfo,
    raw: &Vec<u8>,
    need_decompress: bool,
    need_validate: bool,
) -> (r: Result<Vec<u8>, StorageError>)
    ensures
        match process_spec(compressor, digester, *cki, raw@, need_decompress, need_validate) {
            Result::Ok(d) => r is Ok && r->Ok_0@ == d,
            Result::Err(e) => r == Result::<Vec<u8>, StorageError>::Err(e),
        },
{
    let chunk = if need_decompress {
        match compress::decompress(compressor, raw) {
            Ok(c) => c,
            Err(e) => {
                return Err(e);
            },
        }
    } else {
        crate::merge::copy_bytes(raw)
    };
    if chunk.len() != cki.decompress_size as usize {
        return Err(StorageError::SizeMismatch);
    }
    if need_validate && !digest::digest_check(&chunk, &cki.block_id, digester) {
        return Err(StorageError::DigestMismatch);
    }
    Ok(chunk)
}

/// The per-blob cache capability: the read path of one blob.
pub trait RafsCache: Sized {
    /// The bytes of the underlying blob object.
    spec fn data(&self) -> Seq<u8>;

    /// The blob's compression algorithm.
    spec fn compressor_spec(&self) -> compress::Algorithm;

    /// The blob's digest algorithm.
    spec fn digester_spec(&self) -> digest::Algorithm;

    /// Whether reads validate chunk digests.
    spec fn validate_spec(&self) -> bool;

    /// Whether prefetching is enabled.
    spec fn prefetch_spec(&self) -> bool;

    /// Whether chunks count as locally resident.
    spec fn cached_spec(&self) -> bool;

    /// Data compression algorithm of the underlying blob.
    fn compressor(&self) -> (r: compress::Algorithm)
        ensures
            r == self.compressor_spec(),
    ;

    /// Message digest algorithm of the underlying blob.
    fn digester(&self) -> (r: digest::Algorithm)
        ensures
            r == self.digester_spec(),
    ;

    /// Whether chunk data must be validated on read.
    fn need_validate(&self) -> (r: bool)
        ensures
            r == self.validate_spec(),
    ;

    /// Whether a chunk's data is already locally resident.
    fn is_chunk_ready(&self, chunk: &ChunkInfo) -> (r: bool)
        ensures
            r == self.cached_spec(),
    ;

    /// Size of the underlying blob object.
    fn blob_size(&self) -> (r: Result<u64, StorageError>)
        ensures
            r is Ok ==> r->Ok_0 == self.data().len(),
    ;

    /// Read exactly `len` raw bytes of the blob starting at `offset`.
    fn read_raw(&self, offset: u64, len: usize) -> (r: Result<Vec<u8>, StorageError>)
        ensures
            r is Ok ==> offset + len <= self.data().len() && r->Ok_0@ == self.data().subrange(
                offset as int,
                offset + len,
            ),
    ;

    /// Issue advisory prefetch hints; returns how many the backend took.
    fn prefetch(&self, prefetches: &Vec<BlobPrefetchRequest>, bios: &Vec<BlobIoDesc>) -> (r:
        Result<usize, StorageError>)
        requires
            prefetches@.len() + bios@.len() <= usize::MAX,
        ensures
            !self.prefetch_spec() ==> r == Result::<usize, StorageError>::Err(
                StorageError::Unsupported,
            ),
            self.prefetch_spec() ==> r is Ok && r->Ok_0 <= prefetches@.len() + bios@.len(),
    ;

    /// Cancel outstanding prefetch hints; best effort.
    fn stop_prefetch(&self) -> (r: Result<(), StorageError>)
        ensures
            r is Ok,
    ;
}

/// Read one whole chunk from the backend, decompressing it and validating
/// it as the cache is configured.
pub fn read_backend_chunk<C: RafsCache>(cache: &C, cki: &ChunkInfo) -> (r: Result<
    Vec<u8>,
    StorageError,
>)
    ensures
        r is Ok ==> good_chunk(
            cache.data(),
            cache.compressor_spec(),
            cache.digester_spec(),
            cache.validate_spec(),
            *cki,
        ) && r->Ok_0@ == chunk_bytes(cache.data(), cache.compressor_spec(), *cki)->Some_0,
{
    let offset = cki.compress_offset;
    if cki.is_compressed {
        match cache.read_raw(offset, cki.compress_size as usize) {
            Err(e) => Err(e),
            Ok(raw) => {
                let r = process_raw_chunk(
                    cache.compressor(),
                    cache.digester(),
                    cki,
                    &raw,
                    true,
                    cache.need_validate(),
                );
                proof {
                    assert(raw@ == cache.data().subrange(
                        cki.compress_offset as int,
                        cki.compress_offset + cki.compress_size,
                    ));
                }
                r
            },
        }
    } else {
        match cache.read_raw(offset, cki.decompress_size as usize) {
            Err(e) => Err(e),
            Ok(raw) => {
                let r = process_raw_chunk(
                    cache.compressor(),
                    cache.digester(),
                    cki,
                    &raw,
                    false,
                    cache.need_validate(),
                );
                proof {
                    assert(raw@ == cache.data().subrange(
                        cki.compress_offset as int,
                        cki.compress_offset + cki.decompress_size,
                    ));
                }
                r
            },
        }
    }
}

/// Sum of the compressed sizes of the first `k` chunks.
pub open spec fn chunks_prefix(cs: Seq<ChunkInfo>, k: int) -> int
    decreases k,
{
    if k <= 0 {
        0
    } else {
        chunks_prefix(cs, k - 1) + cs[k - 1].compress_size
    }
}

proof fn lemma_chunks_prefix_nonneg(cs: Seq<ChunkInfo>, k: int)
    requires
        0 <= k,
    ensures
        chunks_prefix(cs, k) >= 0,
        forall|j: int| 0 <= j <= k ==> #[trigger] chunks_prefix(cs, j) <= chunks_prefix(cs, k),
    decreases k,
{
    if k > 0 {
        lemma_chunks_prefix_nonneg(cs, k - 1);
    }
}

/// The chunks are sorted, contiguous, and exactly cover
/// `[blob_offset, blob_offset + blob_size)` of the compressed blob.
pub open spec fn covers(cs: Seq<ChunkInfo>, blob_offset: u64, blob_size: int) -> bool {
    &&& forall|i: int|
        0 <= i < cs.len() ==> (#[trigger] cs[i]).compress_offset == blob_offset + chunks_prefix(
            cs,
            i,
        )
    &&& chunks_prefix(cs, cs.len() as int) == blob_size
}

/// Read a contiguous run of whole chunks from the backend in one request,
/// handing back one decompressed buffer per chunk.
#[verifier::rlimit(80)]
pub fn read_chunks<C: RafsCache>(
    cache: &C,
    blob_offset: u64,
    blob_size: usize,
    cki_set: &Vec<ChunkInfo>,
) -> (r: Result<Vec<Vec<u8>>, StorageError>)
    requires
        covers(cki_set@, blob_offset, blob_size as int),
        blob_offset + blob_size <= u64::MAX,
    ensures
        r is Ok ==> {
            &&& r->Ok_0@.len() == cki_set@.len()
            &&& blob_offset + blob_size <= cache.data().len()
            &&& forall|i: int|
                0 <= i < cki_set@.len() ==> good_chunk(
                    cache.data(),
                    cache.compressor_spec(),
                    cache.digester_spec(),
                    cache.validate_spec(),
                    #[trigger] cki_set@[i],
                ) && r->Ok_0@[i]@ == chunk_bytes(
                    cache.data(),
                    cache.compressor_spec(),
                    cki_set@[i],
                )->Some_0
        },
{
    let c_buf = match cache.read_raw(blob_offset, blob_size) {
        Err(e) => {
            return Err(e);
        },
        Ok(b) => b,
    };
    let n = cki_set.len();
    let mut chunks: Vec<Vec<u8>> = Vec::new();
    let mut i: usize = 0;
    while i < n
        invariant
            n == cki_set@.len(),
            0 <= i <= n,
            chunks@.len() == i,
            covers(cki_set@, blob_offset, blob_size as int),
            blob_offset + blob_size <= cache.data().len(),
            c_buf@ == cache.data().subrange(blob_offset as int, blob_offset + blob_size),
            forall|k: int|
                0 <= k < i ==> good_chunk(
                    cache.data(),
                    cache.compressor_spec(),
                    cache.digester_spec(),
                    cache.validate_spec(),
                    #[trigger] cki_set@[k],
                ) && chunks@[k]@ == chunk_bytes(
                    cache.data(),
                    cache.compressor_spec(),
                    cki_set@[k],
                )->Some_0,
        decreases n - i,
    {
        let cki = &cki_set[i];
        proof {
            lemma_chunks_prefix_nonneg(cki_set@, i as int);
            lemma_chunks_prefix_nonneg(cki_set@, n as int);
            assert(chunks_prefix(cki_set@, i + 1) == chunks_prefix(cki_set@, i as int)
                + cki_set@[i as int].compress_size);
            assert(chunks_prefix(cki_set@, i + 1) <= chunks_prefix(cki_set@, n as int));
        }
        let offset_merged = (cki.compress_offset - blob_offset) as usize;
        let size_merged = cki.compress_size as usize;
        let raw = sub_bytes(&c_buf, offset_merged, offset_merged + size_merged);
        proof {
            assert(raw@ =~= cache.data().subrange(
                cki.compress_offset as int,
                cki.compress_offset + cki.compress_size,
            ));
        }
        let chunk = match process_raw_chunk(
            cache.compressor(),
            cache.digester(),
            cki,
            &raw,
            cki.is_compressed,
            cache.need_validate(),
        ) {
            Err(e) => {
                return Err(e);
            },
            Ok(c) => c,
        };
        proof {
            if !cki.is_compressed {
                // An uncompressed chunk passes the size check only if its
                // compressed and decompressed extents agree.
                assert(cki_set@[i as int].compress_size == cki_set@[i as int].decompress_size);
                assert(chunk@ =~= chunk_bytes(
                    cache.data(),
                    cache.compressor_spec(),
                    cki_set@[i as int],
                )->Some_0);
            }
        }
        chunks.push(chunk);
        i += 1;
    }
    Ok(chunks)
}

/// Total length of the first `k` scatter buffers.
pub open spec fn prefix_len(bufs: Seq<Seq<u8>>, k: int) -> int
    decreases k,
{
    if k <= 0 {
        0
    } else {
        prefix_len(bufs, k - 1) + bufs[k - 1].len()
    }
}

proof fn lemma_prefix_len_nonneg(bufs: Seq<Seq<u8>>, k: int)
    requires
        0 <= k,
    ensures
        prefix_len(bufs, k) >= 0,
        forall|j: int| 0 <= j <= k ==> #[trigger] prefix_len(bufs, j) <= prefix_len(bufs, k),
    decreases k,
{
    if k > 0 {
        lemma_prefix_len_nonneg(bufs, k - 1);
    }
}

proof fn lemma_prefix_len_congruent(a: Seq<Seq<u8>>, b: Seq<Seq<u8>>, k: int)
    requires
        0 <= k <= a.len(),
        a.len() == b.len(),
        forall|j: int| 0 <= j < a.len() ==> (#[trigger] a[j]).len() == b[j].len(),
    ensures
        prefix_len(a, k) == prefix_len(b, k),
    decreases k,
{
    if k > 0 {
        lemma_prefix_len_congruent(a, b, k - 1);
    }
}

/// Copy `count` bytes of `src` into the scatter buffers `dst`, starting at
/// global byte position `offset`; buffer sizes stay as they are. Fails,
/// leaving the buffers untouched, exactly when the copy would run past the
/// buffers' total capacity.
#[verifier::loop_isolation(false)]
#[verifier::rlimit(100)]
pub fn copyv(src: &Vec<u8>, dst: &mut Vec<Vec<u8>>, offset: usize, count: usize) -> (r: Result<
    usize,
    StorageError,
>)
    requires
        count <= src@.len(),
        prefix_len(idviews(old(dst)@), old(dst)@.len() as int) <= usize::MAX,
    ensures
        final(dst)@.len() == old(dst)@.len(),
        forall|k: int|
            0 <= k < old(dst)@.len() ==> (#[trigger] final(dst)@[k])@.len() == old(dst)@[k]@.len(),
        offset + count > prefix_len(idviews(old(dst)@), old(dst)@.len() as int) ==> r
            == Result::<usize, StorageError>::Err(StorageError::InvalidInput) && final(dst)@
            == old(dst)@,
        offset + count <= prefix_len(idviews(old(dst)@), old(dst)@.len() as int) ==> r
            == Result::<usize, StorageError>::Ok(count) && forall|k: int, p: int|
            0 <= k < old(dst)@.len() && 0 <= p < old(dst)@[k]@.len()
                ==> (#[trigger] final(dst)@[k]@[p]) == {
                let g = prefix_len(idviews(old(dst)@), k) + p;
                if offset <= g < offset + count {
                    src@[g - offset]
                } else {
                    old(dst)@[k]@[p]
                }
            },
{
    let ghost d0 = idviews(old(dst)@);
    let nd = dst.len();
    // Total capacity of the scatter buffers.
    let mut total: usize = 0;
    let mut j: usize = 0;
    while j < nd
        invariant
            0 <= j <= nd,
            total == prefix_len(d0, j as int),
        decreases nd - j,
    {
        proof {
            lemma_prefix_len_nonneg(d0, nd as int);
            lemma_prefix_len_nonneg(d0, j + 1);
        }
        total = total + dst[j].len();
        j += 1;
    }
    if offset > total || count > total - offset {
        return Err(StorageError::InvalidInput);
    }
    let mut k: usize = 0;
    let mut pos: usize = 0;
    while k < nd
        invariant
            0 <= k <= nd,
            dst@.len() == nd,
            pos == prefix_len(d0, k as int),
            pos <= total,
            forall|kk: int| k <= kk < nd ==> (#[trigger] dst@[kk]) == old(dst)@[kk],
            forall|kk: int| 0 <= kk < k ==> (#[trigger] dst@[kk])@.len() == d0[kk].len(),
            forall|kk: int, p: int|
                0 <= kk < k && 0 <= p < d0[kk].len() ==> (#[trigger] dst@[kk]@[p]) == {
                    let g = prefix_len(d0, kk) + p;
                    if offset <= g < offset + count {
                        src@[g - offset]
                    } else {
                        d0[kk][p]
                    }
                },
        decreases nd - k,
    {
        let blen = dst[k].len();
        proof {
            lemma_prefix_len_nonneg(d0, nd as int);
            lemma_prefix_len_nonneg(d0, k + 1);
            assert(prefix_len(d0, k + 1) == pos + blen);
        }
        if pos < offset + count && offset < pos + blen {
            let mut nb: Vec<u8> = Vec::new();
            let mut p: usize = 0;
            while p < blen
                invariant
                    0 <= p <= blen,
                    nb@.len() == p,
                    dst@.len() == nd,
                    dst@[k as int] == old(dst)@[k as int],
                    forall|pp: int|
                        0 <= pp < p ==> (#[trigger] nb@[pp]) == {
                            let g = pos + pp;
                            if offset <= g < offset + count {
                                src@[g - offset]
                            } else {
                                d0[k as int][pp]
                            }
                        },
                decreases blen - p,
            {
                let g = pos + p;
                let byte = if g >= offset && g < offset + count {
                    src[g - offset]
                } else {
                    dst[k][p]
                };
                nb.push(byte);
                p += 1;
            }
            dst.set(k, nb);
        }
        pos = pos + blen;
        k += 1;
    }
    Ok(count)
}

/// Total user-io bytes requested by a batch, in descriptor order.
pub open spec fn user_sum(bios: Seq<BlobIoDesc>) -> int
    decreases bios.len(),
{
    if bios.len() == 0 {
        0
    } else {
        user_sum(bios.drop_last()) + if bios.last().user_io {
            bios.last().size as int
        } else {
            0
        }
    }
}

/// Concatenation of the decompressed user-io chunks of a batch, in
/// descriptor order.
pub open spec fn concat_user(data: Seq<u8>, alg: compress::Algorithm, bios: Seq<BlobIoDesc>) -> Seq<
    u8,
>
    decreases bios.len(),
{
    if bios.len() == 0 {
        Seq::empty()
    } else {
        concat_user(data, alg, bios.drop_last()) + if bios.last().user_io {
            chunk_bytes(data, alg, bios.last().chunkinfo)->Some_0
        } else {
            Seq::empty()
        }
    }
}

/// A batched read that can serve the caller's buffer directly: one
/// descriptor, one buffer large enough for the whole chunk, no offset.
pub open spec fn fast_path(bios: Seq<BlobIoDesc>, bufs: Seq<Seq<u8>>) -> bool {
    bios.len() == 1 && bufs.len() == 1 && bios[0].offset == 0 && bufs[0].len()
        >= bios[0].chunkinfo.decompress_size
}

/// The reference cache that holds no local data: every read goes straight
/// to the backend, is decompressed, and — as configured — validated.
pub struct DummyCache<R: BlobReader> {
    /// Reader over the underlying blob object.
    pub reader: R,
    /// What `is_chunk_ready` reports; statically configured.
    pub cached: bool,
    /// The blob's compression algorithm.
    pub compressor: compress::Algorithm,
    /// The blob's digest algorithm.
    pub digester: digest::Algorithm,
    /// Whether prefetch hints are accepted.
    pub prefetch: bool,
    /// Whether chunk digests are validated on read.
    pub validate: bool,
}

impl<R: BlobReader> DummyCache<R> {
    /// The reader over the underlying blob object.
    pub fn reader(&self) -> (r: &R)
        ensures
            r == &self.reader,
    {
        &self.reader
    }

    /// Serve a batched logical read into the caller's scatter buffers.
    ///
    /// A single whole-chunk request is decompressed straight into the
    /// caller's buffer; anything else is read chunk by chunk and
    /// gather-copied into the buffers at the batch's offset.
    #[verifier::loop_isolation(false)]
    #[verifier::rlimit(100)]
    pub fn read(&self, bios: &Vec<BlobIoDesc>, bufs: &mut Vec<Vec<u8>>) -> (r: Result<
        usize,
        StorageError,
    >)
        requires
            forall|i: int|
                0 <= i < bios@.len() && (#[trigger] bios@[i]).user_io ==> bios@[i].size
                    <= bios@[i].chunkinfo.decompress_size,
            user_sum(bios@) <= usize::MAX,
            prefix_len(idviews(old(bufs)@), old(bufs)@.len() as int) <= usize::MAX,
        ensures
            final(bufs)@.len() == old(bufs)@.len(),
            forall|k: int|
                0 <= k < old(bufs)@.len() ==> (#[trigger] final(bufs)@[k])@.len()
                    == old(bufs)@[k]@.len(),
            bios@.len() == 0 ==> r == Result::<usize, StorageError>::Err(
                StorageError::InvalidInput,
            ),
            r is Err ==> final(bufs)@ == old(bufs)@,
            fast_path(bios@, idviews(old(bufs)@)) && !bios@[0].user_io ==> r == Result::<
                usize,
                StorageError,
            >::Ok(0) && final(bufs)@ == old(bufs)@,
            bios@.len() > 0 && !fast_path(bios@, idviews(old(bufs)@)) && (forall|i: int|
                0 <= i < bios@.len() ==> !(#[trigger] bios@[i]).user_io) && bios@[0].offset
                <= prefix_len(idviews(old(bufs)@), old(bufs)@.len() as int) ==> r == Result::<
                usize,
                StorageError,
            >::Ok(0),
            r is Ok && fast_path(bios@, idviews(old(bufs)@)) && bios@[0].user_io ==> r->Ok_0
                == bios@[0].chunkinfo.decompress_size && good_chunk(
                self.reader.data(),
                self.compressor,
                self.digester,
                self.validate,
                bios@[0].chunkinfo,
            ) && final(bufs)@[0]@ == chunk_bytes(
                self.reader.data(),
                self.compressor,
                bios@[0].chunkinfo,
            )->Some_0 + old(bufs)@[0]@.skip(bios@[0].chunkinfo.decompress_size as int),
            r is Ok && bios@.len() > 0 && !fast_path(bios@, idviews(old(bufs)@)) ==> {
                &&& r->Ok_0 == user_sum(bios@)
                &&& (forall|i: int|
                    0 <= i < bios@.len() && (#[trigger] bios@[i]).user_io ==> good_chunk(
                        self.reader.data(),
                        self.compressor,
                        self.digester,
                        self.validate,
                        bios@[i].chunkinfo,
                    ))
                &&& bios@[0].offset + user_sum(bios@) <= prefix_len(
                    idviews(old(bufs)@),
                    old(bufs)@.len() as int,
                )
                &&& (forall|k: int, p: int|
                    0 <= k < old(bufs)@.len() && 0 <= p < old(bufs)@[k]@.len()
                        ==> (#[trigger] final(bufs)@[k]@[p]) == {
                        let g = prefix_len(idviews(old(bufs)@), k) + p;
                        if bios@[0].offset <= g < bios@[0].offset + user_sum(bios@) {
                            concat_user(self.reader.data(), self.compressor, bios@)[g - bios@[0].offset]
                        } else {
                            old(bufs)@[k]@[p]
                        }
                    })
            },
    {
        if bios.len() == 0 {
            return Err(StorageError::InvalidInput);
        }
        let offset = bios[0].offset;
        let d_size = bios[0].chunkinfo.decompress_size as usize;
        if bufs.len() == 1 && bios.len() == 1 && offset == 0 && bufs[0].len() >= d_size {
            proof {
                assert(fast_path(bios@, idviews(old(bufs)@)));
            }
            if !bios[0].user_io {
                return Ok(0);
            }
            let chunk = match read_backend_chunk(self, &bios[0].chunkinfo) {
                Err(e) => {
                    return Err(e);
                },
                Ok(c) => c,
            };
            let b0len = bufs[0].len();
            let ghost chunk0 = chunk@;
            let mut nb = chunk;
            let mut p: usize = d_size;
            while p < b0len
                invariant
                    d_size <= p <= b0len,
                    bufs@.len() == 1,
                    bufs@[0] == old(bufs)@[0],
                    b0len == old(bufs)@[0]@.len(),
                    nb@ =~= chunk0 + old(bufs)@[0]@.subrange(d_size as int, p as int),
                decreases b0len - p,
            {
                let byte = bufs[0][p];
                nb.push(byte);
                assert(nb@ =~= chunk0 + old(bufs)@[0]@.subrange(d_size as int, p + 1));
                p += 1;
            }
            bufs.set(0, nb);
            proof {
                assert(final(bufs)@[0]@ =~= chunk0 + old(bufs)@[0]@.skip(d_size as int));
            }
            return Ok(d_size);
        }
        // Gather every user chunk, decompressed, in descriptor order.
        let n = bios.len();
        let mut gathered: Vec<u8> = Vec::new();
        let mut user_size: u64 = 0;
        let mut i: usize = 0;
        proof {
            assert(bios@.take(0) =~= Seq::<BlobIoDesc>::empty());
        }
        while i < n
            invariant
                0 <= i <= n,
                n == bios@.len(),
                bufs@ == old(bufs)@,
                user_size == user_sum(bios@.take(i as int)),
                gathered@ == concat_user(self.reader.data(), self.compressor, bios@.take(i as int)),
                gathered@.len() >= user_size,
                forall|ii: int|
                    0 <= ii < i && (#[trigger] bios@[ii]).user_io ==> good_chunk(
                        self.reader.data(),
                        self.compressor,
                        self.digester,
                        self.validate,
                        bios@[ii].chunkinfo,
                    ),
            decreases n - i,
        {
            let ghost t1 = bios@.take(i + 1);
            proof {
                assert(t1.drop_last() =~= bios@.take(i as int));
                assert(t1.last() == bios@[i as int]);
                lemma_user_sum_mono(bios@, i + 1);
            }
            let bio = &bios[i];
            if bio.user_io {
                let d = match read_backend_chunk(self, &bio.chunkinfo) {
                    Err(e) => {
                        return Err(e);
                    },
                    Ok(c) => c,
                };
                user_size = user_size + bio.size as u64;
                let mut dm = d;
                gathered.append(&mut dm);
            }
            i += 1;
        }
        proof {
            assert(bios@.take(n as int) =~= bios@);
            if forall|ii: int| 0 <= ii < bios@.len() ==> !(#[trigger] bios@[ii]).user_io {
                lemma_user_sum_zero(bios@);
            }
        }
        let count = user_size as usize;
        match copyv(&gathered, bufs, offset as usize, count) {
            Err(e) => {
                proof {
                    lemma_prefix_len_congruent(
                        idviews(old(bufs)@),
                        idviews(old(bufs)@),
                        old(bufs)@.len() as int,
                    );
                }
                Err(e)
            },
            Ok(nn) => Ok(nn),
        }
    }
}

/// The user-io total of a prefix never exceeds the whole batch's.
proof fn lemma_user_sum_mono(bios: Seq<BlobIoDesc>, k: int)
    requires
        0 <= k <= bios.len(),
    ensures
        user_sum(bios.take(k)) <= user_sum(bios),
        user_sum(bios.take(k)) >= 0,
    decreases bios.len(),
{
    if bios.len() == 0 || k == bios.len() {
        assert(bios.take(k) =~= bios);
        lemma_user_sum_nonneg(bios);
    } else {
        lemma_user_sum_mono(bios.drop_last(), k);
        assert(bios.drop_last().take(k) =~= bios.take(k));
        lemma_user_sum_nonneg(bios);
    }
}

proof fn lemma_user_sum_nonneg(bios: Seq<BlobIoDesc>)
    ensures
        user_sum(bios) >= 0,
    decreases bios.len(),
{
    if bios.len() > 0 {
        lemma_user_sum_nonneg(bios.drop_last());
    }
}

/// A batch without user-io descriptors asks for no bytes.
proof fn lemma_user_sum_zero(bios: Seq<BlobIoDesc>)
    requires
        forall|i: int| 0 <= i < bios.len() ==> !(#[trigger] bios[i]).user_io,
    ensures
        user_sum(bios) == 0,
    decreases bios.len(),
{
    if bios.len() > 0 {
        lemma_user_sum_zero(bios.drop_last());
    }
}

impl<R: BlobReader> RafsCache for DummyCache<R> {
    open spec fn data(&self) -> Seq<u8> {
        self.reader.data()
    }

    open spec fn compressor_spec(&self) -> compress::Algorithm {
        self.compressor
    }

    open spec fn digester_spec(&self) -> digest::Algorithm {
        self.digester
    }

    open spec fn validate_spec(&self) -> bool {
        self.validate
    }

    open spec fn prefetch_spec(&self) -> bool {
        self.prefetch
    }

    open spec fn cached_spec(&self) -> bool {
        self.cached
    }

    fn compressor(&self) -> (r: compress::Algorithm) {
        self.compressor
    }

    fn digester(&self) -> (r: digest::Algorithm) {
        self.digester
    }

    fn need_validate(&self) -> (r: bool) {
        self.validate
    }

    fn is_chunk_ready(&self, _chunk: &ChunkInfo) -> (r: bool) {
        self.cached
    }

    fn blob_size(&self) -> (r: Result<u64, StorageError>) {
        self.reader.blob_size()
    }

    fn read_raw(&self, offset: u64, len: usize) -> (r: Result<Vec<u8>, StorageError>) {
        self.reader.read(offset, len)
    }

    fn prefetch(&self, prefetches: &Vec<BlobPrefetchRequest>, bios: &Vec<BlobIoDesc>) -> (r:
        Result<usize, StorageError>) {
        if !self.prefetch {
            return Err(StorageError::Unsupported);
        }
        let mut cnt: usize = 0;
        let np = prefetches.len();
        let mut i: usize = 0;
        while i < np
            invariant
                0 <= i <= np,
                np == prefetches@.len(),
                cnt <= i,
            decreases np - i,
        {
            if self.reader.prefetch_blob_data_range(
                prefetches[i].offset,
                prefetches[i].len,
            ).is_ok() {
                cnt += 1;
            }
            i += 1;
        }
        let nb = bios.len();
        let mut j: usize = 0;
        while j < nb
            invariant
                0 <= j <= nb,
                nb == bios@.len(),
                cnt <= np + j,
                np == prefetches@.len(),
                np + nb <= usize::MAX,
            decreases nb - j,
        {
            if self.reader.prefetch_blob_data_range(
                bios[j].chunkinfo.compress_offset,
                bios[j].size,
            ).is_ok() {
                cnt += 1;
            }
            j += 1;
        }
        Ok(cnt)
    }

    fn stop_prefetch(&self) -> (r: Result<(), StorageError>) {
        Ok(())
    }
}

/// Factory for [`DummyCache`] instances: owns the backend and the global
/// cache settings, and hands out one cache per blob.
pub struct DummyCacheMgr<B: BlobBackend> {
    /// The shared backend.
    pub backend: B,
    /// What the caches report as chunk residency.
    pub cached: bool,
    /// Whether the caches accept prefetch hints.
    pub prefetch: bool,
    /// Whether the caches validate chunk digests.
    pub validate: bool,
}

impl<B: BlobBackend> DummyCacheMgr<B> {
    /// Create a manager over `backend` with the given cache settings.
    pub fn new(config: CacheConfig, backend: B, cached: bool, enable_prefetch: bool) -> (r: Result<
        DummyCacheMgr<B>,
        StorageError,
    >)
        ensures
            r is Ok,
            r->Ok_0.cached == cached,
            r->Ok_0.prefetch == enable_prefetch,
            r->Ok_0.validate == config.cache_validate,
            r->Ok_0.backend == backend,
    {
        Ok(
            DummyCacheMgr {
                backend,
                cached,
                validate: config.cache_validate,
                prefetch: enable_prefetch,
            },
        )
    }

    /// Prepare the manager; the reference manager has nothing to do.
    pub fn init(&self) -> (r: Result<(), StorageError>)
        ensures
            r is Ok,
    {
        Ok(())
    }

    /// Shut the manager and its backend down.
    pub fn destroy(&self) {
        self.backend.shutdown()
    }

    /// The underlying backend.
    pub fn backend(&self) -> (r: &B)
        ensures
            r == &self.backend,
    {
        &self.backend
    }

    /// Obtain the cache serving one blob: a reader over the blob's object,
    /// configured with the blob's algorithms and the manager's settings.
    pub fn get_blob_cache(&self, blob_info: &crate::model::BlobInfo) -> (r: Result<
        DummyCache<B::Reader>,
        StorageError,
    >)
        ensures
            r is Ok ==> {
                let c = r->Ok_0;
                &&& c.reader.data() == self.backend.blob_data(blob_info.blob_id@)
                &&& c.compressor == blob_info.compressor
                &&& c.digester == blob_info.digester
                &&& c.validate == self.validate
                &&& c.cached == self.cached
                &&& c.prefetch == self.prefetch
            },
    {
        let reader = match self.backend.get_reader(&blob_info.blob_id) {
            Err(e) => {
                return Err(e);
            },
            Ok(rd) => rd,
        };
        Ok(
            DummyCache {
                reader,
                cached: self.cached,
                compressor: blob_info.compressor,
                digester: blob_info.digester,
                prefetch: self.prefetch,
                validate: self.validate,
            },
        )
    }
}

} // verus!
