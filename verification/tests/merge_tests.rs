use nydus_core::compress;
use nydus_core::digest;
use nydus_core::merge::{BuildContext, Manifest, Merger, Version};
use nydus_core::model::{BlobFeatures, BlobInfo, ChunkInfo};
use nydus_core::tree::{Node, NodeChunk, Overlay};
use nydus_core::MergeError;

fn chunk(blob_index: u32, index: u32, id_byte: u8) -> NodeChunk {
    NodeChunk {
        blob_index,
        inner: ChunkInfo {
            index,
            block_id: vec![id_byte; 32],
            compress_offset: 0,
            compress_size: 8,
            decompress_size: 16,
            is_compressed: true,
        },
    }
}

fn file_node(name: &[u8], chunks: Vec<NodeChunk>) -> Node {
    Node {
        name: name.to_vec(),
        mode: 0o644,
        uid: 0,
        gid: 0,
        size: 16,
        is_dir: false,
        whiteout: false,
        opaque: false,
        layer_idx: 0,
        overlay: Overlay::Lower,
        chunks,
        children: Vec::new(),
    }
}

fn dir_node(name: &[u8], children: Vec<Node>) -> Node {
    Node {
        name: name.to_vec(),
        mode: 0o755,
        uid: 0,
        gid: 0,
        size: 0,
        is_dir: true,
        whiteout: false,
        opaque: false,
        layer_idx: 0,
        overlay: Overlay::Lower,
        chunks: Vec::new(),
        children,
    }
}

fn blob(id: &[u8], chunk_size: u64) -> BlobInfo {
    BlobInfo {
        blob_id: id.to_vec(),
        features: BlobFeatures { separate: false, tarfs: false },
        compressor: compress::Algorithm::Rle,
        digester: digest::Algorithm::XorFold,
        compressed_size: 64,
        blob_meta_digest: vec![0u8; 32],
        blob_meta_size: 0,
        blob_toc_digest: vec![0u8; 32],
        blob_toc_size: 0,
        chunk_size,
    }
}

fn manifest(blobs: Vec<BlobInfo>, root: Node) -> Manifest {
    Manifest {
        version: Version::V6,
        compressor: compress::Algorithm::Rle,
        digester: digest::Algorithm::XorFold,
        explicit_uidgid: true,
        tarfs_mode: false,
        blobs,
        root,
        path_blob_id: b"pathid".to_vec(),
    }
}

fn ctx() -> BuildContext {
    BuildContext {
        compressor: compress::Algorithm::Rle,
        digester: digest::Algorithm::XorFold,
        explicit_uidgid: true,
        blob_accessible: true,
        tarfs_conversion: false,
        fs_version: Version::V6,
        chunk_size: 0,
    }
}

fn merge_simple(
    parent: Option<Manifest>,
    sources: Vec<Manifest>,
    chunk_dict: Option<Manifest>,
) -> Result<nydus_core::merge::BuildOutput, MergeError> {
    let mut c = ctx();
    Merger::merge(&mut c, parent, sources, None, None, None, None, chunk_dict)
}

#[test]
fn single_layer_no_parent_no_dict() {
    let b1 = blob(b"aa11", 0x100000);
    let root = dir_node(
        b"",
        vec![
            file_node(b"f1", vec![chunk(0, 0, 1)]),
            file_node(b"f2", vec![chunk(0, 1, 2)]),
        ],
    );
    let out = merge_simple(None, vec![manifest(vec![b1], root)], None).unwrap();
    assert_eq!(out.blob_ids, vec![b"aa11".to_vec()]);
    assert_eq!(out.manifest.blobs.len(), 1);
    assert_eq!(out.manifest.root.children.len(), 2);
    assert_eq!(out.manifest.root.children[0].name, b"f1".to_vec());
    assert_eq!(out.manifest.root.children[1].name, b"f2".to_vec());
    assert_eq!(out.manifest.root.children[0].layer_idx, 0);
    assert_eq!(out.manifest.root.children[1].layer_idx, 0);
    assert_eq!(out.manifest.root.children[0].chunks[0].blob_index, 0);
}

#[test]
fn two_layers_upper_overrides() {
    let l1 = manifest(
        vec![blob(b"b1", 4096)],
        dir_node(b"", vec![file_node(b"a", vec![chunk(0, 0, 1)])]),
    );
    let l2 = manifest(
        vec![blob(b"b2", 4096)],
        dir_node(b"", vec![file_node(b"a", vec![chunk(0, 0, 9)])]),
    );
    let out = merge_simple(None, vec![l1, l2], None).unwrap();
    assert_eq!(out.blob_ids, vec![b"b1".to_vec(), b"b2".to_vec()]);
    assert_eq!(out.manifest.root.children.len(), 1);
    let a = &out.manifest.root.children[0];
    assert_eq!(a.name, b"a".to_vec());
    assert_eq!(a.layer_idx, 1);
    assert_eq!(a.chunks[0].blob_index, 1);
    assert_eq!(a.chunks[0].inner.block_id, vec![9u8; 32]);
}

#[test]
fn whiteout_deletes_lower_entry() {
    let l1 = manifest(
        vec![blob(b"b1", 4096)],
        dir_node(
            b"",
            vec![dir_node(b"dir", vec![file_node(b"x", vec![chunk(0, 0, 1)])])],
        ),
    );
    let mut wh = file_node(b"x", Vec::new());
    wh.whiteout = true;
    let l2 = manifest(
        vec![blob(b"b2", 4096)],
        dir_node(b"", vec![dir_node(b"dir", vec![wh])]),
    );
    let out = merge_simple(None, vec![l1, l2], None).unwrap();
    assert_eq!(out.manifest.root.children.len(), 1);
    let dir = &out.manifest.root.children[0];
    assert_eq!(dir.name, b"dir".to_vec());
    assert!(dir.is_dir);
    assert_eq!(dir.children.len(), 0);
}

#[test]
fn opaque_directory_hides_lower_children() {
    let l1 = manifest(
        vec![blob(b"b1", 4096)],
        dir_node(
            b"",
            vec![dir_node(
                b"d",
                vec![
                    file_node(b"a", vec![chunk(0, 0, 1)]),
                    file_node(b"b", vec![chunk(0, 1, 2)]),
                ],
            )],
        ),
    );
    let mut upper_d = dir_node(b"d", vec![file_node(b"c", vec![chunk(0, 0, 3)])]);
    upper_d.opaque = true;
    let l2 = manifest(vec![blob(b"b2", 4096)], dir_node(b"", vec![upper_d]));
    let out = merge_simple(None, vec![l1, l2], None).unwrap();
    let d = &out.manifest.root.children[0];
    assert_eq!(d.name, b"d".to_vec());
    assert_eq!(d.children.len(), 1);
    assert_eq!(d.children[0].name, b"c".to_vec());
    assert_eq!(d.children[0].chunks[0].blob_index, 1);
}

#[test]
fn chunk_dict_blob_not_counted() {
    let dict = manifest(vec![blob(b"dd", 4096)], dir_node(b"", Vec::new()));
    let l1 = manifest(
        vec![blob(b"dd", 4096), blob(b"b1", 4096)],
        dir_node(
            b"",
            vec![file_node(b"f", vec![chunk(0, 0, 1), chunk(1, 0, 2)])],
        ),
    );
    let out = merge_simple(None, vec![l1], Some(dict)).unwrap();
    assert_eq!(out.blob_ids, vec![b"dd".to_vec(), b"b1".to_vec()]);
    let f = &out.manifest.root.children[0];
    assert_eq!(f.chunks[0].blob_index, 0);
    assert_eq!(f.chunks[1].blob_index, 1);
}

#[test]
fn two_non_dict_blobs_fail() {
    let l1 = manifest(
        vec![blob(b"b1", 4096), blob(b"b2", 4096)],
        dir_node(b"", vec![file_node(b"f", vec![chunk(0, 0, 1)])]),
    );
    let r = merge_simple(None, vec![l1], None);
    assert_eq!(r.err(), Some(MergeError::BlobConstraint));
}

#[test]
fn empty_sources_rejected() {
    let r = merge_simple(None, Vec::new(), None);
    assert_eq!(r.err(), Some(MergeError::InputValidation));
}

#[test]
fn digest_arity_mismatch_rejected() {
    let l1 = manifest(
        vec![blob(b"b1", 4096)],
        dir_node(b"", vec![file_node(b"f", vec![chunk(0, 0, 1)])]),
    );
    let mut c = ctx();
    let r = Merger::merge(
        &mut c,
        None,
        vec![l1],
        Some(vec![b"aa".to_vec(), b"bb".to_vec()]),
        None,
        None,
        None,
        None,
    );
    assert_eq!(r.err(), Some(MergeError::InputValidation));
}

#[test]
fn mixed_chunk_sizes_fail() {
    let l1 = manifest(
        vec![blob(b"b1", 4096)],
        dir_node(b"", vec![file_node(b"f", vec![chunk(0, 0, 1)])]),
    );
    let l2 = manifest(
        vec![blob(b"b2", 8192)],
        dir_node(b"", vec![file_node(b"g", vec![chunk(0, 0, 2)])]),
    );
    let r = merge_simple(None, vec![l1, l2], None);
    assert_eq!(r.err(), Some(MergeError::IncompatibleManifest));
}

#[test]
fn incompatible_digester_fails() {
    let l1 = manifest(
        vec![blob(b"b1", 4096)],
        dir_node(b"", vec![file_node(b"f", vec![chunk(0, 0, 1)])]),
    );
    let mut l2 = manifest(
        vec![blob(b"b2", 4096)],
        dir_node(b"", vec![file_node(b"g", vec![chunk(0, 0, 2)])]),
    );
    l2.digester = digest::Algorithm::SumFold;
    let r = merge_simple(None, vec![l1, l2], None);
    assert_eq!(r.err(), Some(MergeError::IncompatibleManifest));
}

#[test]
fn digest_override_rewrites_blob_id() {
    // The override digest travels as hex text; the blob id becomes its
    // lowercase re-encoding, so upper-case input comes out lower-case.
    let l1 = manifest(
        vec![blob(b"b1", 4096)],
        dir_node(b"", vec![file_node(b"f", vec![chunk(0, 0, 1)])]),
    );
    let hexdigest: Vec<u8> = b"AB".repeat(32);
    let mut c = ctx();
    let out = Merger::merge(
        &mut c,
        None,
        vec![l1],
        Some(vec![hexdigest]),
        Some(vec![777u64]),
        None,
        None,
        None,
    )
    .unwrap();
    assert_eq!(out.blob_ids, vec![b"ab".repeat(32)]);
    assert_eq!(out.manifest.blobs[0].compressed_size, 777);
}

#[test]
fn bad_digest_override_rejected() {
    let l1 = manifest(
        vec![blob(b"b1", 4096)],
        dir_node(b"", vec![file_node(b"f", vec![chunk(0, 0, 1)])]),
    );
    let mut c = ctx();
    let r = Merger::merge(
        &mut c,
        None,
        vec![l1],
        Some(vec![b"zz".repeat(32)]),
        None,
        None,
        None,
        None,
    );
    assert_eq!(r.err(), Some(MergeError::InputValidation));
}

#[test]
fn separate_blob_takes_meta_digest() {
    let mut b = blob(b"b1", 4096);
    b.features.separate = true;
    let l1 = manifest(
        vec![b],
        dir_node(b"", vec![file_node(b"f", vec![chunk(0, 0, 1)])]),
    );
    let hexdigest: Vec<u8> = b"11".repeat(32);
    let mut c = ctx();
    let out = Merger::merge(
        &mut c,
        None,
        vec![l1],
        Some(vec![hexdigest]),
        Some(vec![555u64]),
        None,
        None,
        None,
    )
    .unwrap();
    // The canonical blob id stays; the metadata digest and size change.
    assert_eq!(out.blob_ids, vec![b"b1".to_vec()]);
    assert_eq!(out.manifest.blobs[0].blob_meta_digest, vec![0x11u8; 32]);
    assert_eq!(out.manifest.blobs[0].blob_meta_size, 555);
}

#[test]
fn tarfs_with_chunk_dict_fails() {
    let mut dict = manifest(vec![blob(b"dd", 4096)], dir_node(b"", Vec::new()));
    dict.tarfs_mode = true;
    let l1 = manifest(
        vec![blob(b"dd", 4096), blob(b"b1", 4096)],
        dir_node(b"", vec![file_node(b"f", vec![chunk(1, 0, 1)])]),
    );
    let r = merge_simple(None, vec![l1], Some(dict));
    assert_eq!(r.err(), Some(MergeError::InputValidation));
}

#[test]
fn parent_chunk_size_mismatch_fails() {
    let parent = manifest(
        vec![blob(b"p1", 8192)],
        dir_node(b"", vec![file_node(b"old", vec![chunk(0, 0, 7)])]),
    );
    let l1 = manifest(
        vec![blob(b"b1", 4096)],
        dir_node(b"", vec![file_node(b"new", vec![chunk(0, 0, 8)])]),
    );
    let r = merge_simple(Some(parent), vec![l1], None);
    assert_eq!(r.err(), Some(MergeError::IncompatibleManifest));
}

#[test]
fn parent_blobs_stay_first() {
    let parent = manifest(
        vec![blob(b"p1", 4096)],
        dir_node(b"", vec![file_node(b"old", vec![chunk(0, 0, 7)])]),
    );
    let l1 = manifest(
        vec![blob(b"b1", 4096)],
        dir_node(b"", vec![file_node(b"new", vec![chunk(0, 0, 8)])]),
    );
    let out = merge_simple(Some(parent), vec![l1], None).unwrap();
    assert_eq!(out.blob_ids, vec![b"p1".to_vec(), b"b1".to_vec()]);
    assert_eq!(out.manifest.root.children.len(), 2);
    let newf = out
        .manifest
        .root
        .children
        .iter()
        .find(|n| n.name == b"new".to_vec())
        .unwrap();
    assert_eq!(newf.chunks[0].blob_index, 1);
    assert_eq!(newf.layer_idx, 1);
    let oldf = out
        .manifest
        .root
        .children
        .iter()
        .find(|n| n.name == b"old".to_vec())
        .unwrap();
    assert_eq!(oldf.chunks[0].blob_index, 0);
}

#[test]
fn remerging_a_merged_manifest_keeps_it() {
    let b1 = blob(b"aa11", 0x100000);
    let root = dir_node(
        b"",
        vec![
            file_node(b"f1", vec![chunk(0, 0, 1)]),
            file_node(b"f2", vec![chunk(0, 1, 2)]),
        ],
    );
    let once = merge_simple(None, vec![manifest(vec![b1], root)], None).unwrap();
    let twice = merge_simple(None, vec![once.manifest], None).unwrap();
    assert_eq!(twice.blob_ids, once.blob_ids);
    assert_eq!(twice.manifest.root.children.len(), 2);
    assert_eq!(twice.manifest.root.children[0].name, b"f1".to_vec());
    assert_eq!(twice.manifest.root.children[0].chunks[0].blob_index, 0);
    assert_eq!(
        twice.manifest.root.children[0].chunks[0].inner.block_id,
        vec![1u8; 32]
    );
    assert_eq!(twice.manifest.root.children[1].name, b"f2".to_vec());
}
