use nydus_core::cache::{
    read_backend_chunk, read_chunks, BlobBackend, BlobIoDesc, BlobPrefetchRequest, CacheConfig,
    ChunkSegment, DummyCacheMgr, IoInitiator, MemBackend, MergedBackendRequest, RafsCache,
};
use nydus_core::compress;
use nydus_core::digest;
use nydus_core::model::{BlobFeatures, BlobInfo, ChunkInfo};
use nydus_core::StorageError;

fn blob_info(id: &[u8]) -> BlobInfo {
    BlobInfo {
        blob_id: id.to_vec(),
        features: BlobFeatures { separate: false, tarfs: false },
        compressor: compress::Algorithm::Rle,
        digester: digest::Algorithm::XorFold,
        compressed_size: 0,
        blob_meta_digest: vec![0u8; 32],
        blob_meta_size: 0,
        blob_toc_digest: vec![0u8; 32],
        blob_toc_size: 0,
        chunk_size: 0x1000,
    }
}

/// One compressed chunk appended to a blob byte stream.
fn push_chunk(blob: &mut Vec<u8>, data: &[u8]) -> ChunkInfo {
    let raw = compress::compress(compress::Algorithm::Rle, &data.to_vec());
    let cki = ChunkInfo {
        index: 0,
        block_id: digest::digest(digest::Algorithm::XorFold, &data.to_vec()),
        compress_offset: blob.len() as u64,
        compress_size: raw.len() as u32,
        decompress_size: data.len() as u32,
        is_compressed: true,
    };
    blob.extend_from_slice(&raw);
    cki
}

fn bio(cki: ChunkInfo, offset: u32, size: u32, user_io: bool) -> BlobIoDesc {
    BlobIoDesc { chunkinfo: cki, offset, size, user_io }
}

fn mgr_with_blob(
    id: &[u8],
    bytes: Vec<u8>,
    validate: bool,
    prefetch: bool,
) -> DummyCacheMgr<MemBackend> {
    let mut backend = MemBackend::new();
    backend.add_blob(id.to_vec(), bytes);
    DummyCacheMgr::new(CacheConfig { cache_validate: validate }, backend, false, prefetch).unwrap()
}

#[test]
fn read_zero_copy_fast_path() {
    let data = b"hello hello hello!!!";
    let mut blob = Vec::new();
    let cki = push_chunk(&mut blob, data);
    let mgr = mgr_with_blob(b"b1", blob, true, false);
    let cache = mgr.get_blob_cache(&blob_info(b"b1")).unwrap();
    let mut bufs = vec![vec![0u8; data.len() + 4]];
    let n = cache.read(&vec![bio(cki, 0, data.len() as u32, true)], &mut bufs).unwrap();
    assert_eq!(n, data.len());
    assert_eq!(&bufs[0][..data.len()], data);
    assert_eq!(&bufs[0][data.len()..], &[0u8; 4]);
}

#[test]
fn read_fast_path_internal_io_copies_nothing() {
    let data = b"aaaabbbb";
    let mut blob = Vec::new();
    let cki = push_chunk(&mut blob, data);
    let mgr = mgr_with_blob(b"b1", blob, false, false);
    let cache = mgr.get_blob_cache(&blob_info(b"b1")).unwrap();
    let mut bufs = vec![vec![7u8; 16]];
    let n = cache.read(&vec![bio(cki, 0, 8, false)], &mut bufs).unwrap();
    assert_eq!(n, 0);
    assert_eq!(bufs[0], vec![7u8; 16]);
}

#[test]
fn read_validate_mismatch() {
    let data = b"payload payload xyz";
    let mut blob = Vec::new();
    let cki = push_chunk(&mut blob, data);
    // Flip one bit of the backend's stored bytes.
    let last = blob.len() - 1;
    blob[last] ^= 0x01;
    let mgr = mgr_with_blob(b"b1", blob, true, false);
    let cache = mgr.get_blob_cache(&blob_info(b"b1")).unwrap();
    let mut bufs = vec![vec![0u8; data.len()]];
    let r = cache.read(&vec![bio(cki, 0, data.len() as u32, true)], &mut bufs);
    assert!(matches!(
        r,
        Err(StorageError::DigestMismatch) | Err(StorageError::Decompression) | Err(
            StorageError::SizeMismatch
        )
    ));
}

#[test]
fn read_validate_mismatch_uncompressed() {
    // An uncompressed chunk: corruption can only surface as a digest error.
    let data = b"0123456789abcdef";
    let mut blob = data.to_vec();
    let cki = ChunkInfo {
        index: 0,
        block_id: digest::digest(digest::Algorithm::XorFold, &data.to_vec()),
        compress_offset: 0,
        compress_size: data.len() as u32,
        decompress_size: data.len() as u32,
        is_compressed: false,
    };
    blob[3] ^= 0x40;
    let mgr = mgr_with_blob(b"b1", blob, true, false);
    let cache = mgr.get_blob_cache(&blob_info(b"b1")).unwrap();
    let mut bufs = vec![vec![0u8; data.len()]];
    let r = cache.read(&vec![bio(cki, 0, data.len() as u32, true)], &mut bufs);
    assert_eq!(r, Err(StorageError::DigestMismatch));
}

#[test]
fn read_gather_scatter_slow_path() {
    let d1 = b"first-chunk-data";
    let d2 = b"second-chunk-bytes!!";
    let mut blob = Vec::new();
    let c1 = push_chunk(&mut blob, d1);
    let c2 = push_chunk(&mut blob, d2);
    let mgr = mgr_with_blob(b"b1", blob, true, false);
    let cache = mgr.get_blob_cache(&blob_info(b"b1")).unwrap();
    // Two small scatter buffers; the batch starts at offset 3.
    let total = d1.len() + d2.len();
    let mut bufs = vec![vec![9u8; 10], vec![9u8; total + 3]];
    let bios = vec![
        bio(c1, 3, d1.len() as u32, true),
        bio(c2, 0, d2.len() as u32, true),
    ];
    let n = cache.read(&bios, &mut bufs).unwrap();
    assert_eq!(n, total);
    let mut flat: Vec<u8> = Vec::new();
    flat.extend_from_slice(&bufs[0]);
    flat.extend_from_slice(&bufs[1]);
    assert_eq!(&flat[..3], &[9u8, 9u8, 9u8]);
    let mut expected: Vec<u8> = Vec::new();
    expected.extend_from_slice(d1);
    expected.extend_from_slice(d2);
    assert_eq!(&flat[3..3 + total], &expected[..]);
    assert_eq!(&flat[3 + total..], &[9u8, 9u8, 9u8, 9u8, 9u8, 9u8, 9u8, 9u8, 9u8, 9u8]);
}

#[test]
fn read_skips_internal_io_chunks() {
    let d1 = b"user-visible-data";
    let d2 = b"internal-only-bytes";
    let mut blob = Vec::new();
    let c1 = push_chunk(&mut blob, d1);
    let c2 = push_chunk(&mut blob, d2);
    let mgr = mgr_with_blob(b"b1", blob, false, false);
    let cache = mgr.get_blob_cache(&blob_info(b"b1")).unwrap();
    let mut bufs = vec![vec![0u8; d1.len()], vec![0u8; 8]];
    let bios = vec![
        bio(c1, 0, d1.len() as u32, true),
        bio(c2, 0, d2.len() as u32, false),
    ];
    let n = cache.read(&bios, &mut bufs).unwrap();
    assert_eq!(n, d1.len());
    assert_eq!(&bufs[0][..], d1);
}

#[test]
fn read_all_internal_io_slow_path() {
    let d1 = b"only-internal-one";
    let d2 = b"only-internal-two";
    let mut blob = Vec::new();
    let c1 = push_chunk(&mut blob, d1);
    let c2 = push_chunk(&mut blob, d2);
    let mgr = mgr_with_blob(b"b1", blob, false, false);
    let cache = mgr.get_blob_cache(&blob_info(b"b1")).unwrap();
    let mut bufs = vec![vec![5u8; 8]];
    let bios = vec![
        bio(c1, 0, d1.len() as u32, false),
        bio(c2, 0, d2.len() as u32, false),
    ];
    let n = cache.read(&bios, &mut bufs).unwrap();
    assert_eq!(n, 0);
    assert_eq!(bufs[0], vec![5u8; 8]);
}

#[test]
fn read_empty_bios_rejected() {
    let mgr = mgr_with_blob(b"b1", vec![1u8, 2u8], false, false);
    let cache = mgr.get_blob_cache(&blob_info(b"b1")).unwrap();
    let mut bufs = vec![vec![0u8; 4]];
    assert_eq!(cache.read(&Vec::new(), &mut bufs), Err(StorageError::InvalidInput));
}

#[test]
fn read_chunks_contiguous_run() {
    let d1 = b"alpha-chunk";
    let d2 = b"beta-chunk-data";
    let mut blob = Vec::new();
    let c1 = push_chunk(&mut blob, d1);
    let c2 = push_chunk(&mut blob, d2);
    let size = blob.len();
    let mgr = mgr_with_blob(b"b1", blob, true, false);
    let cache = mgr.get_blob_cache(&blob_info(b"b1")).unwrap();
    let out = read_chunks(&cache, 0, size, &vec![c1, c2]).unwrap();
    assert_eq!(out.len(), 2);
    assert_eq!(out[0], d1.to_vec());
    assert_eq!(out[1], d2.to_vec());
}

#[test]
fn read_backend_chunk_decompresses() {
    let data = b"zzzzzzzzzzzyyyyxw";
    let mut blob = Vec::new();
    let cki = push_chunk(&mut blob, data);
    let mgr = mgr_with_blob(b"b1", blob, true, false);
    let cache = mgr.get_blob_cache(&blob_info(b"b1")).unwrap();
    let out = read_backend_chunk(&cache, &cki).unwrap();
    assert_eq!(out, data.to_vec());
}

#[test]
fn wrong_decompress_size_is_error() {
    let data = b"sixteen-byte-str";
    let mut blob = Vec::new();
    let mut cki = push_chunk(&mut blob, data);
    cki.decompress_size += 1;
    let mgr = mgr_with_blob(b"b1", blob, false, false);
    let cache = mgr.get_blob_cache(&blob_info(b"b1")).unwrap();
    assert_eq!(read_backend_chunk(&cache, &cki), Err(StorageError::SizeMismatch));
}

#[test]
fn corrupt_stream_is_decompression_error() {
    let blob = vec![0u8, 5u8]; // zero run length is invalid
    let cki = ChunkInfo {
        index: 0,
        block_id: vec![0u8; 32],
        compress_offset: 0,
        compress_size: 2,
        decompress_size: 5,
        is_compressed: true,
    };
    let mgr = mgr_with_blob(b"b1", blob, false, false);
    let cache = mgr.get_blob_cache(&blob_info(b"b1")).unwrap();
    assert_eq!(read_backend_chunk(&cache, &cki), Err(StorageError::Decompression));
}

#[test]
fn prefetch_disabled_is_unsupported() {
    let mgr = mgr_with_blob(b"b1", vec![1u8], false, false);
    let cache = mgr.get_blob_cache(&blob_info(b"b1")).unwrap();
    let r = cache.prefetch(&Vec::new(), &Vec::new());
    assert_eq!(r, Err(StorageError::Unsupported));
    assert!(cache.stop_prefetch().is_ok());
}

#[test]
fn prefetch_counts_accepted_hints() {
    let data = b"prefetch-me";
    let mut blob = Vec::new();
    let cki = push_chunk(&mut blob, data);
    let mgr = mgr_with_blob(b"b1", blob, false, true);
    let cache = mgr.get_blob_cache(&blob_info(b"b1")).unwrap();
    let reqs = vec![BlobPrefetchRequest { blob_id: b"b1".to_vec(), offset: 0, len: 4 }];
    let bios = vec![bio(cki, 0, 4, true)];
    let r = cache.prefetch(&reqs, &bios).unwrap();
    assert_eq!(r, 2);
}

#[test]
fn blob_size_and_readiness() {
    let mgr = mgr_with_blob(b"b1", vec![1u8, 2u8, 3u8], false, false);
    let cache = mgr.get_blob_cache(&blob_info(b"b1")).unwrap();
    assert_eq!(cache.blob_size().unwrap(), 3);
    let cki = ChunkInfo {
        index: 0,
        block_id: vec![0u8; 32],
        compress_offset: 0,
        compress_size: 3,
        decompress_size: 3,
        is_compressed: false,
    };
    assert!(!cache.is_chunk_ready(&cki));
    assert!(mgr.init().is_ok());
    mgr.destroy();
}

#[test]
fn missing_blob_is_backend_error() {
    let mgr = mgr_with_blob(b"b1", vec![1u8], false, false);
    assert!(mgr.get_blob_cache(&blob_info(b"nope")).is_err());
}

#[test]
fn merged_request_accumulates_chunks() {
    let d1 = b"one";
    let d2 = b"two";
    let mut blob = Vec::new();
    let c1 = push_chunk(&mut blob, d1);
    let c2 = push_chunk(&mut blob, d2);
    let b1 = bio(c1.clone(), 0, 3, true);
    let b2 = bio(c2.clone(), 0, 3, false);
    let mut req = MergedBackendRequest::new(c1.clone(), blob_info(b"b1"), &b1);
    assert_eq!(req.blob_offset, c1.compress_offset);
    assert_eq!(req.blob_size, c1.compress_size);
    assert_eq!(req.chunks.len(), 1);
    req.merge_one_chunk(c2.clone(), &b2);
    assert_eq!(req.blob_size, c1.compress_size + c2.compress_size);
    assert_eq!(req.chunks.len(), 2);
    assert!(matches!(req.chunk_tags[0], IoInitiator::User(ChunkSegment { offset: 0, len: 3 })));
    assert!(matches!(req.chunk_tags[1], IoInitiator::Internal(_, _)));
}
