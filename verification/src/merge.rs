//! The bootstrap merger: overlays per-layer manifests into one image-level
//! manifest, unifying the blob table and rewriting every chunk's blob index.

use vstd::prelude::*;

use crate::compress;
use crate::digest;
use crate::hexstr;
use crate::model::{BlobInfo, BlobFeatures};
use crate::tree::{
    block_ids, kids_ids, lemma_node_ok_mono, lemma_overlay_node_ids, lemma_overlay_node_ok,
    lemma_views, node_ok, overlay_node, views, ChunkV, Node, NodeV, Overlay, Tree,
};
use crate::MergeError;

verus! {

/// Supported manifest format versions.
#[derive(Clone, Copy, Debug, PartialEq, Eq, Structural)]
pub enum Version {
    /// The older manifest format.
    V5,
    /// The current manifest format.
    V6,
}

/// Where a blob entry of the merged table came from.
#[derive(Clone, Copy, Debug, PartialEq, Eq, Structural)]
pub enum ChunkSource {
    /// Built from a source layer of this merge.
    Build,
    /// Taken over from the parent manifest.
    Parent,
    /// Referenced through the chunk dictionary.
    Dict,
}

/// A loaded manifest: its configuration, blob table, and filesystem tree.
pub struct Manifest {
    /// Manifest format version.
    pub version: Version,
    /// Compression algorithm of the manifest's blobs.
    pub compressor: compress::Algorithm,
    /// Digest algorithm of the manifest's blobs.
    pub digester: digest::Algorithm,
    /// Whether explicit uid/gid values are recorded.
    pub explicit_uidgid: bool,
    /// Whether the manifest describes a plain tar blob.
    pub tarfs_mode: bool,
    /// The ordered blob table.
    pub blobs: Vec<BlobInfo>,
    /// Root of the filesystem tree.
    pub root: Node,
    /// Blob id derived by the loader from the manifest's storage path: the
    /// whole-object hash of the layer's tar blob.
    pub path_blob_id: Vec<u8>,
}

/// The configuration facets that must agree across merged manifests.
#[derive(Clone, Copy, Debug)]
pub struct Config {
    /// Manifest format version.
    pub version: Version,
    /// Compression algorithm.
    pub compressor: compress::Algorithm,
    /// Digest algorithm.
    pub digester: digest::Algorithm,
    /// Whether explicit uid/gid values are recorded.
    pub explicit_uidgid: bool,
    /// Whether the manifest describes a plain tar blob.
    pub tarfs_mode: bool,
}

impl Manifest {
    /// The configuration facets of this manifest.
    pub open spec fn config_spec(&self) -> Config {
        Config {
            version: self.version,
            compressor: self.compressor,
            digester: self.digester,
            explicit_uidgid: self.explicit_uidgid,
            tarfs_mode: self.tarfs_mode,
        }
    }

    /// Extract the configuration facets.
    pub fn get_config(&self) -> (r: Config)
        ensures
            r == self.config_spec(),
    {
        Config {
            version: self.version,
            compressor: self.compressor,
            digester: self.digester,
            explicit_uidgid: self.explicit_uidgid,
            tarfs_mode: self.tarfs_mode,
        }
    }
}

/// Whether two configurations may be merged: all facets but tar mode agree.
pub open spec fn compatible(a: Config, b: Config) -> bool {
    a.version == b.version && a.compressor == b.compressor && a.digester == b.digester
        && a.explicit_uidgid == b.explicit_uidgid
}

/// Check two configurations for compatibility.
pub fn check_compatibility(a: &Config, b: &Config) -> (r: bool)
    ensures
        r == compatible(*a, *b),
{
    a.version == b.version && a.compressor == b.compressor && a.digester == b.digester
        && a.explicit_uidgid == b.explicit_uidgid
}

/// Global build state threaded through a merge.
pub struct BuildContext {
    /// Compression algorithm, adopted from the layers.
    pub compressor: compress::Algorithm,
    /// Digest algorithm, adopted from the layers.
    pub digester: digest::Algorithm,
    /// Whether explicit uid/gid values are recorded.
    pub explicit_uidgid: bool,
    /// Whether blobs are directly accessible to the runtime under their
    /// recorded ids.
    pub blob_accessible: bool,
    /// Whether the merge runs in tar mode.
    pub tarfs_conversion: bool,
    /// Manifest format version of the output.
    pub fs_version: Version,
    /// Common chunk size of the merged blobs.
    pub chunk_size: u64,
}

/// One entry of the merged blob table under construction.
pub struct BlobContext {
    /// Identifier of the blob object, possibly overridden.
    pub blob_id: Vec<u8>,
    /// Feature bits of the blob.
    pub features: BlobFeatures,
    /// Compression algorithm of the blob's chunks.
    pub compressor: compress::Algorithm,
    /// Digest algorithm of the blob's chunks.
    pub digester: digest::Algorithm,
    /// Upper bound on decompressed chunk sizes of the blob.
    pub chunk_size: u64,
    /// Size of the compressed blob object.
    pub compressed_blob_size: u64,
    /// Digest of the blob's metadata header.
    pub blob_meta_digest: Vec<u8>,
    /// Size of the blob's metadata header.
    pub blob_meta_size: u64,
    /// Digest of the blob's table of contents.
    pub blob_toc_digest: Vec<u8>,
    /// Size of the blob's table of contents.
    pub blob_toc_size: u32,
    /// Where the entry came from.
    pub source: ChunkSource,
}

/// Copy a byte vector.
pub fn copy_bytes(v: &Vec<u8>) -> (r: Vec<u8>)
    ensures
        r@ == v@,
{
    let r = v.clone();
    proof {
        assert(r@ =~= v@);
    }
    r
}

impl BlobContext {
    /// Build a table entry from a loaded blob descriptor, copying its
    /// attributes unchanged.
    pub fn from(blob: &BlobInfo, source: ChunkSource) -> (r: BlobContext)
        ensures
            r.blob_id@ == blob.blob_id@,
            r.features == blob.features,
            r.compressor == blob.compressor,
            r.digester == blob.digester,
            r.chunk_size == blob.chunk_size,
            r.compressed_blob_size == blob.compressed_size,
            r.blob_meta_digest@ == blob.blob_meta_digest@,
            r.blob_meta_size == blob.blob_meta_size,
            r.blob_toc_digest@ == blob.blob_toc_digest@,
            r.blob_toc_size == blob.blob_toc_size,
            r.source == source,
    {
        BlobContext {
            blob_id: copy_bytes(&blob.blob_id),
            features: blob.features,
            compressor: blob.compressor,
            digester: blob.digester,
            chunk_size: blob.chunk_size,
            compressed_blob_size: blob.compressed_size,
            blob_meta_digest: copy_bytes(&blob.blob_meta_digest),
            blob_meta_size: blob.blob_meta_size,
            blob_toc_digest: copy_bytes(&blob.blob_toc_digest),
            blob_toc_size: blob.blob_toc_size,
            source,
        }
    }

    /// Turn a table entry back into a blob descriptor for the output
    /// manifest.
    pub fn to_blob_info(&self) -> (r: BlobInfo)
        ensures
            r.blob_id@ == self.blob_id@,
            r.features == self.features,
            r.compressor == self.compressor,
            r.digester == self.digester,
            r.chunk_size == self.chunk_size,
            r.compressed_size == self.compressed_blob_size,
            r.blob_meta_digest@ == self.blob_meta_digest@,
            r.blob_meta_size == self.blob_meta_size,
            r.blob_toc_digest@ == self.blob_toc_digest@,
            r.blob_toc_size == self.blob_toc_size,
    {
        BlobInfo {
            blob_id: copy_bytes(&self.blob_id),
            features: self.features,
            compressor: self.compressor,
            digester: self.digester,
            compressed_size: self.compressed_blob_size,
            blob_meta_digest: copy_bytes(&self.blob_meta_digest),
            blob_meta_size: self.blob_meta_size,
            blob_toc_digest: copy_bytes(&self.blob_toc_digest),
            blob_toc_size: self.blob_toc_size,
            chunk_size: self.chunk_size,
        }
    }
}

/// What a successful merge returns: the merged manifest and the final blob
/// ids, parallel to its blob table.
pub struct BuildOutput {
    /// The merged manifest, ready to be dumped by the caller.
    pub manifest: Manifest,
    /// The identifier of each blob of the merged table, in table order.
    pub blob_ids: Vec<Vec<u8>>,
}

/// The byte views of a sequence of byte vectors.
pub open spec fn idviews(v: Seq<Vec<u8>>) -> Seq<Seq<u8>> {
    Seq::new(v.len(), |i: int| v[i]@)
}

/// The blob ids of a blob table.
pub open spec fn bids_of(blobs: Seq<BlobInfo>) -> Seq<Seq<u8>> {
    Seq::new(blobs.len(), |i: int| blobs[i].blob_id@)
}

/// No id occurs twice.
pub open spec fn unique_ids(ids: Seq<Seq<u8>>) -> bool {
    forall|i: int, j: int| 0 <= i < j < ids.len() ==> ids[i] != ids[j]
}

/// Index of the first occurrence of `id`, or -1 when absent.
pub open spec fn find_id(ids: Seq<Seq<u8>>, id: Seq<u8>) -> int
    decreases ids.len(),
{
    if ids.len() == 0 {
        -1
    } else if ids[0] == id {
        0
    } else {
        let r = find_id(ids.drop_first(), id);
        if r == -1 {
            -1
        } else {
            r + 1
        }
    }
}

/// `find_id` returns the first index bearing `id`, or -1 when none does.
pub proof fn lemma_find_id(ids: Seq<Seq<u8>>, id: Seq<u8>)
    ensures
        find_id(ids, id) == -1 ==> forall|k: int| 0 <= k < ids.len() ==> ids[k] != id,
        find_id(ids, id) != -1 ==> {
            let r = find_id(ids, id);
            &&& 0 <= r < ids.len()
            &&& ids[r] == id
            &&& forall|k: int| 0 <= k < r ==> ids[k] != id
        },
    decreases ids.len(),
{
    if ids.len() > 0 {
        lemma_find_id(ids.drop_first(), id);
        assert(forall|k: int| 1 <= k < ids.len() ==> ids[k] == ids.drop_first()[k - 1]);
    }
}

/// Appending a fresh id leaves earlier lookups unchanged and makes the new
/// id findable.
pub proof fn lemma_find_id_push(ids: Seq<Seq<u8>>, id: Seq<u8>, x: Seq<u8>)
    ensures
        find_id(ids, id) != -1 ==> find_id(ids.push(x), id) == find_id(ids, id),
        find_id(ids, id) == -1 && x == id ==> find_id(ids.push(x), id) == ids.len(),
        find_id(ids, id) == -1 && x != id ==> find_id(ids.push(x), id) == -1,
    decreases ids.len(),
{
    if ids.len() == 0 {
        assert(ids.push(x)[0] == x);
        assert(ids.push(x).drop_first() =~= Seq::<Seq<u8>>::empty());
        if x == id {
            assert(find_id(ids.push(x), id) == 0);
        } else {
            assert(find_id(Seq::<Seq<u8>>::empty(), id) == -1);
            assert(find_id(ids.push(x), id) == -1);
        }
    } else {
        lemma_find_id_push(ids.drop_first(), id, x);
        lemma_find_id(ids.drop_first(), id);
        lemma_find_id(ids, id);
        assert(ids.push(x)[0] == ids[0]);
        assert(ids.push(x).drop_first() =~= ids.drop_first().push(x));
        if ids[0] != id {
            let t = find_id(ids.drop_first().push(x), id);
            assert(find_id(ids.push(x), id) == (if t == -1 {
                -1int
            } else {
                t + 1
            }));
        }
    }
}

/// Find `id` in a vector of ids.
pub fn find_id_exec(ids: &Vec<Vec<u8>>, id: &Vec<u8>) -> (r: Option<usize>)
    ensures
        match r {
            Some(j) => find_id(idviews(ids@), id@) == j as int,
            None => find_id(idviews(ids@), id@) == -1,
        },
{
    proof {
        lemma_find_id(idviews(ids@), id@);
    }
    let n = ids.len();
    let mut i: usize = 0;
    while i < n
        invariant
            n == ids@.len(),
            0 <= i <= n,
            forall|k: int| 0 <= k < i ==> idviews(ids@)[k] != id@,
        decreases n - i,
    {
        if crate::model::bytes_eq(&ids[i], id) {
            assert(idviews(ids@)[i as int] == id@);
            proof {
                lemma_find_id(idviews(ids@), id@);
            }
            return Some(i);
        }
        assert(idviews(ids@)[i as int] != id@);
        i += 1;
    }
    proof {
        lemma_find_id(idviews(ids@), id@);
        if find_id(idviews(ids@), id@) != -1 {
            let r = find_id(idviews(ids@), id@);
            assert(idviews(ids@)[r] != id@);
            assert(false);
        }
    }
    None
}

/// One chunk reference with its blob index rewritten from the layer's blob
/// ordering to the merged table's ordering.
pub open spec fn rewrite_chunk(c: ChunkV, layer_ids: Seq<Seq<u8>>, keys: Seq<Seq<u8>>) -> ChunkV {
    if 0 <= (c.blob_index as int) < layer_ids.len() && find_id(
        keys,
        layer_ids[c.blob_index as int],
    ) != -1 {
        ChunkV { blob_index: find_id(keys, layer_ids[c.blob_index as int]) as u32, ..c }
    } else {
        c
    }
}

/// A layer's node prepared for the merged tree: chunk references rewritten
/// against the merged table, the layer index stamped, and the overlay state
/// reset to an upper addition.
pub open spec fn rewrite_node_spec(n: NodeV, layer_ids: Seq<Seq<u8>>, keys: Seq<Seq<u8>>, li: u16) -> NodeV
    decreases n,
{
    NodeV {
        layer_idx: li,
        overlay: Overlay::UpperAddition,
        chunks: Seq::new(n.chunks.len(), |i: int| rewrite_chunk(n.chunks[i], layer_ids, keys)),
        children: rewrite_nodes_spec(n.children, layer_ids, keys, li),
        ..n
    }
}

/// [`rewrite_node_spec`] over a sequence of children.
pub open spec fn rewrite_nodes_spec(
    cs: Seq<NodeV>,
    layer_ids: Seq<Seq<u8>>,
    keys: Seq<Seq<u8>>,
    li: u16,
) -> Seq<NodeV>
    decreases cs,
{
    if cs.len() == 0 {
        Seq::empty()
    } else {
        seq![rewrite_node_spec(cs[0], layer_ids, keys, li)] + rewrite_nodes_spec(
            cs.drop_first(),
            layer_ids,
            keys,
            li,
        )
    }
}

/// Index form of [`rewrite_nodes_spec`].
pub proof fn lemma_rewrite_nodes(cs: Seq<NodeV>, layer_ids: Seq<Seq<u8>>, keys: Seq<Seq<u8>>, li: u16)
    ensures
        rewrite_nodes_spec(cs, layer_ids, keys, li).len() == cs.len(),
        forall|i: int|
            0 <= i < cs.len() ==> rewrite_nodes_spec(cs, layer_ids, keys, li)[i]
                == rewrite_node_spec(#[trigger] cs[i], layer_ids, keys, li),
    decreases cs,
{
    if cs.len() > 0 {
        lemma_rewrite_nodes(cs.drop_first(), layer_ids, keys, li);
        assert(forall|i: int| 1 <= i < cs.len() ==> #[trigger] cs[i] == cs.drop_first()[i - 1]);
    }
}

/// Rewriting keeps every chunk reference inside the merged table and stamps
/// the given layer index, provided every layer blob id is in the table.
pub proof fn lemma_rewrite_ok(n: NodeV, layer_ids: Seq<Seq<u8>>, keys: Seq<Seq<u8>>, li: u16)
    requires
        node_ok(n, layer_ids.len() as int, 0x10000),
        forall|k: int| 0 <= k < layer_ids.len() ==> find_id(keys, #[trigger] layer_ids[k]) != -1,
    ensures
        node_ok(rewrite_node_spec(n, layer_ids, keys, li), keys.len() as int, li + 1),
    decreases n,
{
    let r = rewrite_node_spec(n, layer_ids, keys, li);
    assert forall|i: int| 0 <= i < r.chunks.len() implies (#[trigger] r.chunks[i]).blob_index
        < keys.len() by {
        let c = n.chunks[i];
        assert(c.blob_index < layer_ids.len());
        lemma_find_id(keys, layer_ids[c.blob_index as int]);
    }
    lemma_rewrite_nodes(n.children, layer_ids, keys, li);
    assert forall|i: int| 0 <= i < r.children.len() implies node_ok(
        #[trigger] r.children[i],
        keys.len() as int,
        li + 1,
    ) by {
        lemma_rewrite_ok(n.children[i], layer_ids, keys, li);
    }
}

/// Rewriting blob indices changes no referenced block id.
pub proof fn lemma_rewrite_ids(n: NodeV, layer_ids: Seq<Seq<u8>>, keys: Seq<Seq<u8>>, li: u16)
    ensures
        block_ids(rewrite_node_spec(n, layer_ids, keys, li)) == block_ids(n),
    decreases n,
{
    let r = rewrite_node_spec(n, layer_ids, keys, li);
    lemma_rewrite_kids_ids(n.children, layer_ids, keys, li);
    assert(r.children == rewrite_nodes_spec(n.children, layer_ids, keys, li));
    assert(kids_ids(r.children) == kids_ids(n.children));
    assert(r.chunks.len() == n.chunks.len());
    assert(forall|i: int|
        0 <= i < n.chunks.len() ==> (#[trigger] r.chunks[i]).block_id == n.chunks[i].block_id);
    assert forall|b: Seq<u8>| block_ids(r).contains(b) implies block_ids(n).contains(b) by {
        if !kids_ids(r.children).contains(b) {
            let i = choose|i: int|
                0 <= i < r.chunks.len() && (#[trigger] r.chunks[i]).block_id == b;
            assert(n.chunks[i].block_id == b);
        }
    }
    assert forall|b: Seq<u8>| block_ids(n).contains(b) implies block_ids(r).contains(b) by {
        if !kids_ids(n.children).contains(b) {
            let i = choose|i: int|
                0 <= i < n.chunks.len() && (#[trigger] n.chunks[i]).block_id == b;
            assert(r.chunks[i].block_id == b);
        }
    }
    assert(block_ids(r) =~= block_ids(n));
}

proof fn lemma_rewrite_kids_ids(cs: Seq<NodeV>, layer_ids: Seq<Seq<u8>>, keys: Seq<Seq<u8>>, li: u16)
    ensures
        kids_ids(rewrite_nodes_spec(cs, layer_ids, keys, li)) == kids_ids(cs),
    decreases cs,
{
    if cs.len() > 0 {
        lemma_rewrite_ids(cs[0], layer_ids, keys, li);
        lemma_rewrite_kids_ids(cs.drop_first(), layer_ids, keys, li);
        let rw = rewrite_nodes_spec(cs, layer_ids, keys, li);
        assert(rw[0] == rewrite_node_spec(cs[0], layer_ids, keys, li));
        assert(rw.drop_first() =~= rewrite_nodes_spec(cs.drop_first(), layer_ids, keys, li));
        assert(kids_ids(rw) =~= kids_ids(cs));
    } else {
        assert(kids_ids(rewrite_nodes_spec(cs, layer_ids, keys, li)) =~= kids_ids(cs));
    }
}

/// Two nodes carry the same tree: equal names, attributes, and chunk
/// references throughout, differing at most in layer stamps and overlay
/// marks.
pub open spec fn same_shape(a: NodeV, b: NodeV) -> bool
    decreases b,
{
    &&& a.name == b.name
    &&& a.mode == b.mode
    &&& a.uid == b.uid
    &&& a.gid == b.gid
    &&& a.size == b.size
    &&& a.is_dir == b.is_dir
    &&& a.whiteout == b.whiteout
    &&& a.opaque == b.opaque
    &&& a.chunks == b.chunks
    &&& a.children.len() == b.children.len()
    &&& forall|i: int|
        0 <= i < b.children.len() ==> same_shape(a.children[i], #[trigger] b.children[i])
}

/// Merging a single already-merged manifest reproduces it: when the merged
/// table adopts the layer's own blob ordering, and that ordering has no
/// duplicate ids, the rewrite maps every chunk's blob index to the index
/// it already had, so the tree keeps its shape — only layer stamps and
/// overlay marks are renewed.
pub proof fn lemma_rewrite_identity(n: NodeV, ids: Seq<Seq<u8>>, li: u16)
    requires
        unique_ids(ids),
        node_ok(n, ids.len() as int, 0x10000),
    ensures
        same_shape(rewrite_node_spec(n, ids, ids, li), n),
    decreases n,
{
    let r = rewrite_node_spec(n, ids, ids, li);
    assert forall|i: int| 0 <= i < n.chunks.len() implies r.chunks[i] == #[trigger] n.chunks[i] by {
        let c = n.chunks[i];
        assert(c.blob_index < ids.len());
        lemma_find_id(ids, ids[c.blob_index as int]);
        let f = find_id(ids, ids[c.blob_index as int]);
        assert(f != -1 && ids[f] == ids[c.blob_index as int]);
        assert(f == c.blob_index as int) by {
            if f < c.blob_index as int {
                assert(ids[f] != ids[c.blob_index as int]);
            }
            if f > c.blob_index as int {
                assert(forall|k: int| 0 <= k < f ==> ids[k] != ids[f]);
            }
        }
        assert(rewrite_chunk(c, ids, ids) =~= c);
    }
    assert(r.chunks =~= n.chunks);
    lemma_rewrite_nodes(n.children, ids, ids, li);
    assert forall|i: int| 0 <= i < n.children.len() implies same_shape(
        r.children[i],
        #[trigger] n.children[i],
    ) by {
        lemma_rewrite_identity(n.children[i], ids, li);
    }
}

/// Rewrite one layer's tree against the merged blob table: every chunk's
/// blob index is re-mapped from the layer's blob ordering to the table's,
/// the layer index is stamped, and the overlay state reset.
#[verifier::loop_isolation(false)]
fn rewrite_node(n: Node, layers: &Vec<BlobInfo>, keys: &Vec<Vec<u8>>, li: u16) -> (r: Node)
    requires
        node_ok(n@, layers@.len() as int, 0x10000),
        forall|k: int|
            0 <= k < layers@.len() ==> find_id(idviews(keys@), #[trigger] bids_of(layers@)[k])
                != -1,
        keys@.len() <= 0xFFFF_FFFF,
    ensures
        r@ == rewrite_node_spec(n@, bids_of(layers@), idviews(keys@), li),
    decreases crate::tree::heightv(n@),
{
    let ghost nv = n@;
    let ghost lids = bids_of(layers@);
    let ghost kv = idviews(keys@);
    let Node {
        name,
        mode,
        uid,
        gid,
        size,
        is_dir,
        whiteout,
        opaque,
        layer_idx: _,
        overlay: _,
        chunks,
        children,
    } = n;
    // Rewrite the chunk references.
    let mut new_chunks: Vec<crate::tree::NodeChunk> = Vec::new();
    let nc = chunks.len();
    let mut ci: usize = 0;
    while ci < nc
        invariant
            nc == chunks@.len(),
            0 <= ci <= nc,
            new_chunks@.len() == ci,
            forall|k: int|
                0 <= k < ci ==> (#[trigger] new_chunks@[k])@ == rewrite_chunk(
                    chunks@[k]@,
                    lids,
                    kv,
                ),
        decreases nc - ci,
    {
        let c = &chunks[ci];
        proof {
            assert(nv.chunks[ci as int] == chunks@[ci as int]@);
            assert(c@.blob_index < layers@.len());
            assert(bids_of(layers@)[c.blob_index as int] == layers@[c.blob_index as int].blob_id@);
        }
        let bid = &layers[c.blob_index as usize].blob_id;
        let found = find_id_exec(keys, bid);
        proof {
            assert(find_id(kv, lids[c@.blob_index as int]) != -1);
            lemma_find_id(kv, lids[c@.blob_index as int]);
        }
        let j = match found {
            Some(j) => j,
            None => {
                proof {
                    assert(false);
                }
                0
            },
        };
        let nk = crate::tree::NodeChunk {
            blob_index: j as u32,
            inner: crate::model::ChunkInfo {
                index: c.inner.index,
                block_id: copy_bytes(&c.inner.block_id),
                compress_offset: c.inner.compress_offset,
                compress_size: c.inner.compress_size,
                decompress_size: c.inner.decompress_size,
                is_compressed: c.inner.is_compressed,
            },
        };
        proof {
            assert(nk@ =~= rewrite_chunk(chunks@[ci as int]@, lids, kv));
        }
        new_chunks.push(nk);
        ci += 1;
    }
    // Rewrite the children recursively.
    let mut rest = children;
    let mut out: Vec<Node> = Vec::new();
    let ghost cv = nv.children;
    proof {
        assert(cv == views(rest@));
        lemma_views(rest@);
        assert forall|k: int| 0 <= k < views(rest@).len() implies crate::tree::heightv(
            #[trigger] views(rest@)[k],
        ) < crate::tree::heightv(nv) by {
            crate::tree::lemma_heights_bound(cv, k);
        }
        assert(rewrite_nodes_spec(Seq::<NodeV>::empty(), lids, kv, li) =~= Seq::<NodeV>::empty());
    }
    while rest.len() > 0
        invariant
            rewrite_nodes_spec(cv, lids, kv, li) =~= views(out@) + rewrite_nodes_spec(
                views(rest@),
                lids,
                kv,
                li,
            ),
            forall|k: int| 0 <= k < views(rest@).len() ==> crate::tree::heightv(
                #[trigger] views(rest@)[k],
            ) < crate::tree::heightv(nv),
            forall|k: int|
                0 <= k < views(rest@).len() ==> node_ok(#[trigger] views(rest@)[k], lids.len() as int, 0x10000),
            views(rest@).len() == rest@.len(),
        decreases rest@.len(),
    {
        let ghost rest0 = views(rest@);
        let ghost orn = rest@;
        let c0 = rest.remove(0);
        proof {
            assert(c0 == orn[0]);
            assert(rest0[0] == c0@);
            assert(rest@ =~= orn.drop_first());
            lemma_views(orn);
            lemma_views(rest@);
            assert forall|k: int| 0 <= k < rest@.len() implies views(rest@)[k]
                == rest0.drop_first()[k] by {
                assert(rest@[k] == orn[k + 1]);
            }
            assert(views(rest@) =~= rest0.drop_first());
            assert(crate::tree::heightv(c0@) < crate::tree::heightv(nv));
            assert(node_ok(c0@, lids.len() as int, 0x10000));
        }
        let r0 = rewrite_node(c0, layers, keys, li);
        let ghost out0 = out@;
        out.push(r0);
        proof {
            crate::tree::lemma_views_push(out0, r0);
            assert(rewrite_nodes_spec(rest0, lids, kv, li) == seq![
                rewrite_node_spec(c0@, lids, kv, li),
            ] + rewrite_nodes_spec(views(rest@), lids, kv, li));
            assert(views(out@) + rewrite_nodes_spec(views(rest@), lids, kv, li) =~= (views(out0)
                + seq![rewrite_node_spec(c0@, lids, kv, li)]) + rewrite_nodes_spec(
                views(rest@),
                lids,
                kv,
                li,
            ));
            assert((views(out0) + seq![rewrite_node_spec(c0@, lids, kv, li)])
                + rewrite_nodes_spec(views(rest@), lids, kv, li) =~= views(out0) + (seq![
                rewrite_node_spec(c0@, lids, kv, li),
            ] + rewrite_nodes_spec(views(rest@), lids, kv, li)));
        }
    }
    let r = Node {
        name,
        mode,
        uid,
        gid,
        size,
        is_dir,
        whiteout,
        opaque,
        layer_idx: li,
        overlay: Overlay::UpperAddition,
        chunks: new_chunks,
        children: out,
    };
    proof {
        assert(views(rest@) =~= Seq::<NodeV>::empty());
        assert(rewrite_nodes_spec(cv, lids, kv, li) =~= views(out@));
        assert(r@.chunks =~= rewrite_node_spec(nv, lids, kv, li).chunks);
        assert(r@ =~= rewrite_node_spec(nv, lids, kv, li));
    }
    r
}

/// Number of blobs of the parent manifest, or zero without a parent.
pub open spec fn parent_blob_len(p: Option<Manifest>) -> int {
    match p {
        Option::Some(m) => m.blobs@.len() as int,
        Option::None => 0,
    }
}

/// Total number of blobs over all source manifests.
pub open spec fn sum_blobs(ss: Seq<Manifest>) -> int
    decreases ss,
{
    if ss.len() == 0 {
        0
    } else {
        ss[0].blobs@.len() + sum_blobs(ss.drop_first())
    }
}

proof fn lemma_sum_blobs_nonneg(ss: Seq<Manifest>)
    ensures
        sum_blobs(ss) >= 0,
    decreases ss,
{
    if ss.len() > 0 {
        lemma_sum_blobs_nonneg(ss.drop_first());
    }
}

proof fn lemma_sum_blobs_skip(ss: Seq<Manifest>, i: int)
    requires
        0 <= i < ss.len(),
    ensures
        sum_blobs(ss.skip(i)) == ss[i].blobs@.len() + sum_blobs(ss.skip(i + 1)),
{
    let t = ss.skip(i);
    assert(t.len() > 0);
    assert(t[0] == ss[i]);
    assert(t.drop_first() =~= ss.skip(i + 1));
}

/// Every source manifest's tree references only the manifest's own blobs.
pub open spec fn srcs_ok(ss: Seq<Manifest>) -> bool {
    forall|i: int|
        0 <= i < ss.len() ==> node_ok((#[trigger] ss[i]).root@, ss[i].blobs@.len() as int, 0x10000)
}

/// The block ids referenced by any source manifest's tree.
pub open spec fn sources_ids_union(ss: Seq<Manifest>) -> Set<Seq<u8>>
    decreases ss,
{
    if ss.len() == 0 {
        Set::empty()
    } else {
        block_ids(ss[0].root@) + sources_ids_union(ss.drop_first())
    }
}

proof fn lemma_sources_union_elem(ss: Seq<Manifest>, j: int)
    requires
        0 <= j < ss.len(),
    ensures
        block_ids(ss[j].root@).subset_of(sources_ids_union(ss)),
    decreases ss.len(),
{
    if j > 0 {
        lemma_sources_union_elem(ss.drop_first(), j - 1);
        assert(ss.drop_first()[j - 1] == ss[j]);
    }
}

/// The block ids referenced by any input of the merge.
pub open spec fn input_ids(p: Option<Manifest>, ss: Seq<Manifest>) -> Set<Seq<u8>> {
    (match p {
        Option::Some(m) => block_ids(m.root@),
        Option::None => Set::empty(),
    }) + sources_ids_union(ss)
}

/// An optional parallel array has one entry per source.
pub open spec fn arity_ok<T>(o: Option<Vec<T>>, n: int) -> bool {
    match o {
        Option::Some(v) => v@.len() == n,
        Option::None => true,
    }
}

/// Every blob of every source manifest declares chunk size `cs`.
pub open spec fn all_sizes(ss: Seq<Manifest>, cs: u64) -> bool {
    forall|a: int, b: int|
        0 <= a < ss.len() && 0 <= b < ss[a].blobs@.len() ==> (#[trigger] ss[a].blobs@[b]).chunk_size
            == cs
}

/// All blobs across all source manifests agree on one chunk size.
pub open spec fn uniform_sizes(ss: Seq<Manifest>) -> bool {
    forall|a: int, b: int, c: int, d: int|
        0 <= a < ss.len() && 0 <= b < ss[a].blobs@.len() && 0 <= c < ss.len() && 0 <= d
            < ss[c].blobs@.len() ==> (#[trigger] ss[a].blobs@[b]).chunk_size == (
        #[trigger] ss[c].blobs@[d]).chunk_size
}

/// The blob ids of the chunk dictionary, or none without a dictionary.
pub open spec fn dict_ids_spec(d: Option<Manifest>) -> Seq<Seq<u8>> {
    match d {
        Option::Some(m) => bids_of(m.blobs@),
        Option::None => Seq::empty(),
    }
}

/// The configuration every layer must be compatible with: the chunk
/// dictionary's when one is given, else the first layer's.
pub open spec fn base_config(d: Option<Manifest>, ss: Seq<Manifest>) -> Config {
    match d {
        Option::Some(m) => m.config_spec(),
        Option::None => ss[0].config_spec(),
    }
}

/// A layer owns at most one data blob that is not in the dictionary.
pub open spec fn layer_nd_ok(m: Manifest, dids: Seq<Seq<u8>>) -> bool {
    forall|i: int, j: int|
        0 <= i < j < m.blobs@.len() ==> !(find_id(dids, (#[trigger] m.blobs@[i]).blob_id@) == -1
            && find_id(dids, (#[trigger] m.blobs@[j]).blob_id@) == -1)
}

/// The blob ids of the parent manifest's table, or none without a parent.
pub open spec fn parent_key_ids(p: Option<Manifest>) -> Seq<Seq<u8>> {
    match p {
        Option::Some(m) => bids_of(m.blobs@),
        Option::None => Seq::empty(),
    }
}

/// `keys` extended, in order, by each blob's id that is not yet present.
pub open spec fn push_new_ids(keys: Seq<Seq<u8>>, blobs: Seq<BlobInfo>) -> Seq<Seq<u8>>
    decreases blobs.len(),
{
    if blobs.len() == 0 {
        keys
    } else {
        let k2 = if find_id(keys, blobs[0].blob_id@) == -1 {
            keys.push(blobs[0].blob_id@)
        } else {
            keys
        };
        push_new_ids(k2, blobs.drop_first())
    }
}

/// `keys` extended by every source layer's blob ids, layer by layer.
pub open spec fn keys_after(keys: Seq<Seq<u8>>, ss: Seq<Manifest>) -> Seq<Seq<u8>>
    decreases ss.len(),
{
    if ss.len() == 0 {
        keys
    } else {
        keys_after(push_new_ids(keys, ss[0].blobs@), ss.drop_first())
    }
}

/// The key table of a merge: parent blob ids first, then each layer's ids
/// in first-occurrence order. Chunk references of the merged tree are
/// rewritten against this table.
pub open spec fn merged_keys(p: Option<Manifest>, ss: Seq<Manifest>) -> Seq<Seq<u8>> {
    keys_after(parent_key_ids(p), ss)
}

/// The accumulator a merge starts from: the parent's tree, if any.
pub open spec fn parent_root(p: Option<Manifest>) -> Option<NodeV> {
    match p {
        Option::Some(m) => Option::Some(m.root@),
        Option::None => Option::None,
    }
}

/// The merged tree: each layer's root rewritten against the key table and
/// stamped with its image-wide layer index, folded onto the accumulator by
/// the overlay rules.
pub open spec fn fold_tree(
    acc: Option<NodeV>,
    ss: Seq<Manifest>,
    keys: Seq<Seq<u8>>,
    li: int,
) -> Option<NodeV>
    decreases ss.len(),
{
    if ss.len() == 0 {
        acc
    } else {
        let up = rewrite_node_spec(ss[0].root@, bids_of(ss[0].blobs@), keys, li as u16);
        let acc2 = match acc {
            Option::None => Option::Some(up),
            Option::Some(t) => Option::Some(overlay_node(t, up)),
        };
        fold_tree(acc2, ss.drop_first(), keys, li + 1)
    }
}

/// What the merged manifest's tree is, as a function of the inputs.
pub open spec fn merged_tree(p: Option<Manifest>, ss: Seq<Manifest>) -> Option<NodeV> {
    fold_tree(parent_root(p), ss, merged_keys(p, ss), parent_blob_len(p))
}

/// `a` is the first part of `b`.
pub open spec fn id_prefix(a: Seq<Seq<u8>>, b: Seq<Seq<u8>>) -> bool {
    a.len() <= b.len() && forall|j: int| 0 <= j < a.len() ==> a[j] == b[j]
}

/// A lookup that succeeds in a table keeps its answer in any extension:
/// ids are found at their first occurrence.
proof fn lemma_find_id_prefix(a: Seq<Seq<u8>>, b: Seq<Seq<u8>>, id: Seq<u8>)
    requires
        id_prefix(a, b),
        find_id(a, id) != -1,
    ensures
        find_id(b, id) == find_id(a, id),
    decreases a.len(),
{
    lemma_find_id(a, id);
    assert(a.len() > 0);
    assert(b[0] == a[0]);
    if a[0] != id {
        assert(id_prefix(a.drop_first(), b.drop_first())) by {
            assert(forall|j: int|
                0 <= j < a.len() - 1 ==> a.drop_first()[j] == a[j + 1] && b.drop_first()[j] == b[j
                    + 1]);
        }
        lemma_find_id(a.drop_first(), id);
        lemma_find_id_prefix(a.drop_first(), b.drop_first(), id);
    }
}

proof fn lemma_push_new_ids_prefix(keys: Seq<Seq<u8>>, blobs: Seq<BlobInfo>)
    ensures
        id_prefix(keys, push_new_ids(keys, blobs)),
    decreases blobs.len(),
{
    if blobs.len() > 0 {
        let k2 = if find_id(keys, blobs[0].blob_id@) == -1 {
            keys.push(blobs[0].blob_id@)
        } else {
            keys
        };
        lemma_push_new_ids_prefix(k2, blobs.drop_first());
        assert(id_prefix(keys, k2));
    }
}

proof fn lemma_keys_after_prefix(keys: Seq<Seq<u8>>, ss: Seq<Manifest>)
    ensures
        id_prefix(keys, keys_after(keys, ss)),
    decreases ss.len(),
{
    if ss.len() > 0 {
        let k2 = push_new_ids(keys, ss[0].blobs@);
        lemma_push_new_ids_prefix(keys, ss[0].blobs@);
        lemma_keys_after_prefix(k2, ss.drop_first());
    }
}

/// Rewriting depends on the key table only through the lookups of the
/// layer's own blob ids.
proof fn lemma_rewrite_keys_agree(
    n: NodeV,
    lids: Seq<Seq<u8>>,
    k1: Seq<Seq<u8>>,
    k2: Seq<Seq<u8>>,
    li: u16,
)
    requires
        forall|j: int| 0 <= j < lids.len() ==> find_id(k1, #[trigger] lids[j]) == find_id(
            k2,
            lids[j],
        ),
    ensures
        rewrite_node_spec(n, lids, k1, li) == rewrite_node_spec(n, lids, k2, li),
    decreases n,
{
    let a = rewrite_node_spec(n, lids, k1, li);
    let b = rewrite_node_spec(n, lids, k2, li);
    assert forall|i: int| 0 <= i < n.chunks.len() implies a.chunks[i] == b.chunks[i] by {
        let c = n.chunks[i];
        if 0 <= (c.blob_index as int) < lids.len() {
            assert(find_id(k1, lids[c.blob_index as int]) == find_id(
                k2,
                lids[c.blob_index as int],
            ));
        }
    }
    assert(a.chunks =~= b.chunks);
    lemma_rewrite_nodes_keys_agree(n.children, lids, k1, k2, li);
    assert(a =~= b);
}

proof fn lemma_rewrite_nodes_keys_agree(
    cs: Seq<NodeV>,
    lids: Seq<Seq<u8>>,
    k1: Seq<Seq<u8>>,
    k2: Seq<Seq<u8>>,
    li: u16,
)
    requires
        forall|j: int| 0 <= j < lids.len() ==> find_id(k1, #[trigger] lids[j]) == find_id(
            k2,
            lids[j],
        ),
    ensures
        rewrite_nodes_spec(cs, lids, k1, li) == rewrite_nodes_spec(cs, lids, k2, li),
    decreases cs,
{
    if cs.len() > 0 {
        lemma_rewrite_keys_agree(cs[0], lids, k1, k2, li);
        lemma_rewrite_nodes_keys_agree(cs.drop_first(), lids, k1, k2, li);
    }
}

/// The acceptance conditions of a merge without digest overrides, apart
/// from the one-new-blob-per-layer constraint.
pub open spec fn merge_accepts_base(
    ctx: BuildContext,
    parent: Option<Manifest>,
    ss: Seq<Manifest>,
    blob_digests: Option<Vec<Vec<u8>>>,
    blob_sizes: Option<Vec<u64>>,
    blob_toc_digests: Option<Vec<Vec<u8>>>,
    blob_toc_sizes: Option<Vec<u64>>,
    dict: Option<Manifest>,
) -> bool {
    &&& ss.len() > 0
    &&& blob_digests is None
    &&& blob_toc_digests is None
    &&& arity_ok(blob_sizes, ss.len() as int)
    &&& arity_ok(blob_toc_sizes, ss.len() as int)
    &&& !ctx.tarfs_conversion
    &&& forall|a: int|
        0 <= a < ss.len() ==> compatible(base_config(dict, ss), (#[trigger] ss[a]).config_spec())
    &&& uniform_sizes(ss)
    &&& (match parent {
        Option::Some(p) => (forall|k: int, k2: int|
            0 <= k < p.blobs@.len() && 0 <= k2 < p.blobs@.len() ==> (
            #[trigger] p.blobs@[k]).chunk_size == (#[trigger] p.blobs@[k2]).chunk_size) && (forall|
            k: int,
            a: int,
            b: int,
        |
            0 <= k < p.blobs@.len() && 0 <= a < ss.len() && 0 <= b < ss[a].blobs@.len() ==> (
            #[trigger] p.blobs@[k]).chunk_size == (#[trigger] ss[a].blobs@[b]).chunk_size),
        Option::None => true,
    })
    &&& parent_blob_len(parent) + ss.len() <= 0x10000
    &&& (base_config(dict, ss).tarfs_mode ==> parent is None && dict_ids_spec(dict).len() == 0)
}

/// Inputs on which a merge without digest overrides is sure to succeed.
pub open spec fn merge_accepts_plain(
    ctx: BuildContext,
    parent: Option<Manifest>,
    ss: Seq<Manifest>,
    blob_digests: Option<Vec<Vec<u8>>>,
    blob_sizes: Option<Vec<u64>>,
    blob_toc_digests: Option<Vec<Vec<u8>>>,
    blob_toc_sizes: Option<Vec<u64>>,
    dict: Option<Manifest>,
) -> bool {
    &&& merge_accepts_base(
        ctx,
        parent,
        ss,
        blob_digests,
        blob_sizes,
        blob_toc_digests,
        blob_toc_sizes,
        dict,
    )
    &&& forall|a: int| 0 <= a < ss.len() ==> layer_nd_ok(#[trigger] ss[a], dict_ids_spec(dict))
}

/// Generator of the merged image-level manifest.
///
/// A container image carries one manifest per layer; merging them under the
/// overlay rules yields one image-level manifest, so the image can be
/// served without stacking layer filesystems.
pub struct Merger {}

impl Merger {
    /// Pick the digest override for layer `idx` out of the optional
    /// parallel array, decoding it from hex text.
    pub fn get_digest_from_list(digests: &Option<Vec<Vec<u8>>>, idx: usize) -> (r: Result<
        Option<Vec<u8>>,
        MergeError,
    >)
        ensures
            match *digests {
                Option::None => r == Result::<Option<Vec<u8>>, MergeError>::Ok(
                    Option::<Vec<u8>>::None,
                ),
                Option::Some(list) => {
                    if idx < list@.len() && list@[idx as int]@.len() == 64 && hexstr::is_hex(
                        list@[idx as int]@,
                    ) {
                        r is Ok && r->Ok_0 is Some && r->Ok_0->0@ == hexstr::hex_decoded(
                            list@[idx as int]@,
                        ) && r->Ok_0->0@.len() == 32
                    } else {
                        r == Result::<Option<Vec<u8>>, MergeError>::Err(MergeError::InputValidation)
                    }
                },
            },
    {
        match digests {
            Option::None => Ok(None),
            Option::Some(list) => {
                if idx >= list.len() {
                    return Err(MergeError::InputValidation);
                }
                let entry = &list[idx];
                if entry.len() != 64 {
                    return Err(MergeError::InputValidation);
                }
                match hexstr::hex_decode(entry) {
                    Option::None => Err(MergeError::InputValidation),
                    Option::Some(b) => {
                        assert(b@.len() == 32);
                        Ok(Some(b))
                    },
                }
            },
        }
    }

    /// Pick the size override for layer `idx` out of the optional parallel
    /// array.
    pub fn get_size_from_list(sizes: &Option<Vec<u64>>, idx: usize) -> (r: Result<
        Option<u64>,
        MergeError,
    >)
        ensures
            match *sizes {
                Option::None => r == Result::<Option<u64>, MergeError>::Ok(Option::<u64>::None),
                Option::Some(list) => {
                    if idx < list@.len() {
                        r == Result::<Option<u64>, MergeError>::Ok(
                            Option::Some(list@[idx as int]),
                        )
                    } else {
                        r == Result::<Option<u64>, MergeError>::Err(MergeError::InputValidation)
                    }
                },
            },
    {
        match sizes {
            Option::None => Ok(None),
            Option::Some(list) => {
                if idx >= list.len() {
                    return Err(MergeError::InputValidation);
                }
                Ok(Some(list[idx]))
            },
        }
    }

    /// Overlay the source manifests, lower to higher, optionally on top of
    /// a parent manifest, into one merged image-level manifest.
    ///
    /// The blob tables of the parent and of every layer are unified into
    /// one table (parent blobs first, then each layer's blobs in order,
    /// first occurrence of an id winning), every chunk reference is
    /// rewritten to point into that table, each layer's nodes are stamped
    /// with their image-wide layer index, and the trees are composed under
    /// the overlay rules. Externally supplied digests and sizes override
    /// the per-layer data blob's recorded ones.
    #[verifier::loop_isolation(false)]
    #[verifier::rlimit(100)]
    pub fn merge(
        ctx: &mut BuildContext,
        parent: Option<Manifest>,
        sources: Vec<Manifest>,
        blob_digests: Option<Vec<Vec<u8>>>,
        blob_sizes: Option<Vec<u64>>,
        blob_toc_digests: Option<Vec<Vec<u8>>>,
        blob_toc_sizes: Option<Vec<u64>>,
        chunk_dict: Option<Manifest>,
    ) -> (r: Result<BuildOutput, MergeError>)
        requires
            (match parent {
                Option::Some(p) => node_ok(p.root@, p.blobs@.len() as int, p.blobs@.len() as int)
                    && unique_ids(bids_of(p.blobs@)),
                Option::None => true,
            }),
            srcs_ok(sources@),
            parent_blob_len(parent) + sum_blobs(sources@) <= 0xFFFF_FFFF,
        ensures
            sources@.len() == 0 ==> r == Result::<BuildOutput, MergeError>::Err(
                MergeError::InputValidation,
            ),
            r is Ok ==> sources@.len() > 0 && arity_ok(blob_digests, sources@.len() as int)
                && arity_ok(blob_sizes, sources@.len() as int) && arity_ok(
                blob_toc_digests,
                sources@.len() as int,
            ) && arity_ok(blob_toc_sizes, sources@.len() as int) && parent_blob_len(parent)
                + sources@.len() <= 0x10000 && uniform_sizes(sources@),
            r is Ok ==> {
                let out = r->Ok_0;
                &&& out.manifest.blobs@.len() == out.blob_ids@.len()
                &&& forall|k: int|
                    0 <= k < out.blob_ids@.len() ==> (#[trigger] out.blob_ids@[k])@
                        == out.manifest.blobs@[k].blob_id@
                &&& node_ok(
                    out.manifest.root@,
                    out.manifest.blobs@.len() as int,
                    parent_blob_len(parent) + sources@.len(),
                )
                &&& block_ids(out.manifest.root@).subset_of(input_ids(parent, sources@))
                &&& (match parent {
                    Option::Some(p) => out.manifest.blobs@.len() >= p.blobs@.len() && forall|k: int|
                        0 <= k < p.blobs@.len() ==> (#[trigger] out.manifest.blobs@[k]).blob_id@
                            == p.blobs@[k].blob_id@,
                    Option::None => true,
                })
            },
            r is Ok && old(ctx).blob_accessible && blob_digests is None ==> unique_ids(
                bids_of(r->Ok_0.manifest.blobs@),
            ) && forall|a: int, b: int|
                0 <= a < sources@.len() && 0 <= b < sources@[a].blobs@.len() ==> find_id(
                    bids_of(r->Ok_0.manifest.blobs@),
                    (#[trigger] sources@[a].blobs@[b]).blob_id@,
                ) != -1,
            r is Ok ==> Option::Some(r->Ok_0.manifest.root@) == merged_tree(parent, sources@),
            r is Ok ==> r->Ok_0.manifest.blobs@.len() == merged_keys(parent, sources@).len(),
            r is Ok && old(ctx).blob_accessible && blob_digests is None ==> bids_of(
                r->Ok_0.manifest.blobs@,
            ) == merged_keys(parent, sources@),
            r is Ok ==> forall|a: int|
                0 <= a < sources@.len() ==> layer_nd_ok(
                    #[trigger] sources@[a],
                    dict_ids_spec(chunk_dict),
                ),
            r is Ok && parent is Some ==> (forall|k: int, k2: int|
                0 <= k < parent->Some_0.blobs@.len() && 0 <= k2 < parent->Some_0.blobs@.len()
                    ==> (#[trigger] parent->Some_0.blobs@[k]).chunk_size == (
                #[trigger] parent->Some_0.blobs@[k2]).chunk_size) && (forall|
                k: int,
                a: int,
                b: int,
            |
                0 <= k < parent->Some_0.blobs@.len() && 0 <= a < sources@.len() && 0 <= b
                    < sources@[a].blobs@.len() ==> (
                #[trigger] parent->Some_0.blobs@[k]).chunk_size == (
                #[trigger] sources@[a].blobs@[b]).chunk_size),
            r is Ok && sources@.len() > 0 && sources@[0].blobs@.len() > 0 ==> all_sizes(
                sources@,
                sources@[0].blobs@[0].chunk_size,
            ) && final(ctx).chunk_size == sources@[0].blobs@[0].chunk_size,
            merge_accepts_plain(
                *old(ctx),
                parent,
                sources@,
                blob_digests,
                blob_sizes,
                blob_toc_digests,
                blob_toc_sizes,
                chunk_dict,
            ) ==> r is Ok,
            merge_accepts_base(
                *old(ctx),
                parent,
                sources@,
                blob_digests,
                blob_sizes,
                blob_toc_digests,
                blob_toc_sizes,
                chunk_dict,
            ) && !(forall|a: int|
                0 <= a < sources@.len() ==> layer_nd_ok(
                    #[trigger] sources@[a],
                    dict_ids_spec(chunk_dict),
                )) ==> r == Result::<BuildOutput, MergeError>::Err(MergeError::BlobConstraint),
    {
        let ghost srcs = sources@;
        let ghost pl = parent_blob_len(parent);
        let ghost accepts = merge_accepts_plain(
            *old(ctx),
            parent,
            srcs,
            blob_digests,
            blob_sizes,
            blob_toc_digests,
            blob_toc_sizes,
            chunk_dict,
        );
        let ghost accepts_base = merge_accepts_base(
            *old(ctx),
            parent,
            srcs,
            blob_digests,
            blob_sizes,
            blob_toc_digests,
            blob_toc_sizes,
            chunk_dict,
        );
        if sources.is_empty() {
            return Err(MergeError::InputValidation);
        }
        if let Some(d) = &blob_digests {
            if d.len() != sources.len() {
                return Err(MergeError::InputValidation);
            }
        }
        if let Some(s) = &blob_sizes {
            if s.len() != sources.len() {
                return Err(MergeError::InputValidation);
            }
        }
        if let Some(d) = &blob_toc_digests {
            if d.len() != sources.len() {
                return Err(MergeError::InputValidation);
            }
        }
        if let Some(s) = &blob_toc_sizes {
            if s.len() != sources.len() {
                return Err(MergeError::InputValidation);
            }
        }

        let mut table: Vec<BlobContext> = Vec::new();
        let mut keys: Vec<Vec<u8>> = Vec::new();
        let mut tree_opt: Option<Tree> = None;
        let mut parent_layers: usize = 0;
        let mut chunk_size: Option<u64> = None;
        let ghost mut wp: bool = false;
        let ghost mut wa: int = 0;
        let ghost mut wb: int = 0;

        // Ingest the parent manifest: its blobs seed the table, its tree
        // seeds the accumulator.
        if let Some(p) = parent {
            let Manifest { blobs: pblobs, root: proot, .. } = p;
            let np = pblobs.len();
            let mut pi: usize = 0;
            while pi < np
                invariant
                    0 <= pi <= np,
                    np == pblobs@.len(),
                    pblobs@ == parent->Some_0.blobs@,
                    keys@.len() == pi,
                    table@.len() == pi,
                    forall|k: int|
                        0 <= k < pi ==> idviews(keys@)[k] == (#[trigger] pblobs@[k]).blob_id@,
                    forall|k: int|
                        0 <= k < pi ==> (#[trigger] table@[k]).blob_id@ == pblobs@[k].blob_id@,
                    (match chunk_size {
                        Option::None => pi == 0,
                        Option::Some(cs) => (forall|k: int|
                            0 <= k < pi ==> (#[trigger] pblobs@[k]).chunk_size == cs) && wp && 0
                            <= wb < pi && pblobs@[wb].chunk_size == cs,
                    }),
                decreases np - pi,
            {
                let b = &pblobs[pi];
                let bc = BlobContext::from(b, ChunkSource::Parent);
                match chunk_size {
                    Option::Some(cs) => {
                        if cs != bc.chunk_size {
                            proof {
                                if accepts_base {
                                    assert(parent->Some_0.blobs@[wb].chunk_size == cs);
                                    assert(parent->Some_0.blobs@[pi as int].chunk_size
                                        == bc.chunk_size);
                                    assert(false);
                                }
                            }
                            return Err(MergeError::IncompatibleManifest);
                        }
                    },
                    Option::None => {
                        chunk_size = Some(bc.chunk_size);
                        proof {
                            wp = true;
                            wb = pi as int;
                        }
                    },
                }
                keys.push(copy_bytes(&b.blob_id));
                table.push(bc);
                pi += 1;
            }
            parent_layers = np;
            tree_opt = Some(Tree { root: proot });
            proof {
                assert(pblobs@ == parent->Some_0.blobs@);
                assert(idviews(keys@) =~= bids_of(pblobs@));
                assert(unique_ids(idviews(keys@)));
            }
        }

        // Collect the chunk dictionary's blob ids and adopt its
        // configuration as the reference one.
        let mut dict_ids: Vec<Vec<u8>> = Vec::new();
        let mut config: Option<Config> = None;
        if let Some(d) = &chunk_dict {
            config = Some(d.get_config());
            let ndic = d.blobs.len();
            let mut di: usize = 0;
            while di < ndic
                invariant
                    0 <= di <= ndic,
                    ndic == d.blobs@.len(),
                    dict_ids@.len() == di,
                    forall|k: int|
                        0 <= k < di ==> idviews(dict_ids@)[k] == (#[trigger] d.blobs@[k]).blob_id@,
                decreases ndic - di,
            {
                dict_ids.push(copy_bytes(&d.blobs[di].blob_id));
                di += 1;
            }
            proof {
                assert(idviews(dict_ids@) =~= dict_ids_spec(chunk_dict));
            }
        }
        let ghost dids = dict_ids_spec(chunk_dict);
        proof {
            assert(idviews(dict_ids@) =~= dids);
        }

        let n_src = sources.len();
        let mut rest = sources;
        let mut i: usize = 0;
        let mut fs_version = Version::V6;
        proof {
            assert(srcs.skip(0) =~= srcs);
            assert(idviews(keys@) =~= parent_key_ids(parent));
            assert((match tree_opt {
                Option::Some(t) => Option::Some(t.root@),
                Option::None => Option::None::<NodeV>,
            }) == parent_root(parent));
        }
        while i < n_src
            invariant
                0 <= i <= n_src,
                n_src == srcs.len(),
                rest@ =~= srcs.skip(i as int),
                i > 0 ==> pl + i as int <= 0x10000,
                keys@.len() == table@.len(),
                table@.len() as int <= pl + sum_blobs(srcs) - sum_blobs(srcs.skip(i as int)),
                unique_ids(idviews(keys@)),
                parent_layers as int == pl,
                parent_layers <= table@.len(),
                (parent is Some ==> forall|k: int|
                    0 <= k < pl ==> (#[trigger] table@[k]).blob_id@
                        == parent->Some_0.blobs@[k].blob_id@),
                (old(ctx).blob_accessible && blob_digests is None ==> forall|k: int|
                    0 <= k < table@.len() ==> (#[trigger] table@[k]).blob_id@
                        == idviews(keys@)[k]),
                forall|a: int, b: int|
                    0 <= a < i && 0 <= b < srcs[a].blobs@.len() ==> find_id(
                        idviews(keys@),
                        (#[trigger] srcs[a].blobs@[b]).blob_id@,
                    ) != -1,
                ctx.blob_accessible == old(ctx).blob_accessible,
                (match config {
                    Option::None => i == 0 && chunk_dict is None && ctx.tarfs_conversion == old(
                        ctx,
                    ).tarfs_conversion,
                    Option::Some(c) => c == base_config(chunk_dict, srcs) && (i > 0
                        ==> ctx.tarfs_conversion == (old(ctx).tarfs_conversion || c.tarfs_mode))
                        && (i == 0 ==> ctx.tarfs_conversion == old(ctx).tarfs_conversion),
                }),
                (match chunk_size {
                    Option::None => (forall|a: int|
                        0 <= a < i ==> (#[trigger] srcs[a]).blobs@.len() == 0) && parent_blob_len(
                        parent,
                    ) == 0,
                    Option::Some(cs) => (forall|a: int, b: int|
                        0 <= a < i && 0 <= b < srcs[a].blobs@.len() ==> (
                        #[trigger] srcs[a].blobs@[b]).chunk_size == cs) && (parent is Some
                        ==> forall|k: int|
                        0 <= k < parent->Some_0.blobs@.len() ==> (
                        #[trigger] parent->Some_0.blobs@[k]).chunk_size == cs) && (
                    srcs[0].blobs@.len() > 0 && i > 0 ==> cs == srcs[0].blobs@[0].chunk_size) && ((
                    wp && parent is Some && 0 <= wb < parent->Some_0.blobs@.len()
                        && parent->Some_0.blobs@[wb].chunk_size == cs) || (!wp && 0 <= wa < i && 0
                        <= wb < srcs[wa].blobs@.len() && srcs[wa].blobs@[wb].chunk_size == cs)),
                }),
                (match tree_opt {
                    Option::None => i == 0 && parent is None,
                    Option::Some(t) => node_ok(t.root@, table@.len() as int, pl + i as int)
                        && block_ids(t.root@).subset_of(input_ids(parent, srcs)),
                }),
                keys_after(idviews(keys@), srcs.skip(i as int)) == merged_keys(parent, srcs),
                fold_tree(
                    (match tree_opt {
                        Option::Some(t) => Option::Some(t.root@),
                        Option::None => Option::None::<NodeV>,
                    }),
                    srcs.skip(i as int),
                    merged_keys(parent, srcs),
                    pl + i as int,
                ) == merged_tree(parent, srcs),
                forall|a: int| 0 <= a < i ==> layer_nd_ok(#[trigger] srcs[a], dids),
            decreases n_src - i,
        {
            proof {
                lemma_sum_blobs_skip(srcs, i as int);
                lemma_sum_blobs_nonneg(srcs.skip(i as int + 1));
            }
            let ghost m_spec = srcs[i as int];
            let m = rest.remove(0);
            proof {
                assert(m == srcs.skip(i as int)[0]);
                assert(m == m_spec);
                assert(rest@ =~= srcs.skip(i as int + 1)) by {
                    assert(srcs.skip(i as int).drop_first() =~= srcs.skip(i as int + 1));
                }
            }
            let mcfg = m.get_config();
            let cfg = match config {
                Option::None => {
                    config = Some(mcfg);
                    mcfg
                },
                Option::Some(c) => c,
            };
            proof {
                assert(cfg == base_config(chunk_dict, srcs));
            }
            if !check_compatibility(&cfg, &mcfg) {
                proof {
                    if accepts_base {
                        assert(compatible(
                            base_config(chunk_dict, srcs),
                            srcs[i as int].config_spec(),
                        ));
                        assert(false);
                    }
                }
                return Err(MergeError::IncompatibleManifest);
            }
            ctx.compressor = m.compressor;
            ctx.digester = m.digester;
            ctx.explicit_uidgid = m.explicit_uidgid;
            fs_version = m.version;
            if cfg.tarfs_mode {
                ctx.tarfs_conversion = true;
            }

            let Manifest { blobs: mblobs, root: mroot, path_blob_id: mpath, .. } = m;
            proof {
                assert(mblobs@ == srcs[i as int].blobs@);
                assert(mroot == srcs[i as int].root);
                assert(mblobs@.skip(0) =~= mblobs@);
            }
            let ghost k_layer = idviews(keys@);
            let nb = mblobs.len();
            let mut bi: usize = 0;
            let mut parent_blob_added = false;
            let ghost mut wnd: int = 0;
            let ghost table_len_at_layer = table@.len() as int;
            while bi < nb
                invariant
                    0 <= bi <= nb,
                    nb == mblobs@.len(),
                    keys@.len() == table@.len(),
                    table_len_at_layer <= table@.len() as int <= table_len_at_layer + bi as int,
                    table_len_at_layer <= pl + sum_blobs(srcs) - sum_blobs(srcs.skip(i as int)),
                    parent_layers as int == pl,
                    parent_layers <= table@.len(),
                    unique_ids(idviews(keys@)),
                    (parent is Some ==> forall|k: int|
                        0 <= k < pl ==> (#[trigger] table@[k]).blob_id@
                            == parent->Some_0.blobs@[k].blob_id@),
                    (old(ctx).blob_accessible && blob_digests is None ==> forall|k: int|
                        0 <= k < table@.len() ==> (#[trigger] table@[k]).blob_id@
                            == idviews(keys@)[k]),
                    forall|b: int|
                        0 <= b < bi ==> find_id(idviews(keys@), (#[trigger] mblobs@[b]).blob_id@)
                            != -1,
                    forall|a: int, b: int|
                        0 <= a < i && 0 <= b < srcs[a].blobs@.len() ==> find_id(
                            idviews(keys@),
                            (#[trigger] srcs[a].blobs@[b]).blob_id@,
                        ) != -1,
                    (match chunk_size {
                        Option::None => (forall|a: int|
                            0 <= a < i ==> (#[trigger] srcs[a]).blobs@.len() == 0) && bi == 0
                            && parent_blob_len(parent) == 0,
                        Option::Some(cs) => (forall|a: int, b: int|
                            0 <= a < i && 0 <= b < srcs[a].blobs@.len() ==> (
                            #[trigger] srcs[a].blobs@[b]).chunk_size == cs) && (forall|b: int|
                            0 <= b < bi ==> (#[trigger] mblobs@[b]).chunk_size == cs) && (parent
                            is Some ==> forall|k: int|
                            0 <= k < parent->Some_0.blobs@.len() ==> (
                            #[trigger] parent->Some_0.blobs@[k]).chunk_size == cs) && (
                        srcs[0].blobs@.len() > 0 && (i > 0 || bi > 0) ==> cs
                            == srcs[0].blobs@[0].chunk_size) && ((wp && parent is Some && 0 <= wb
                            < parent->Some_0.blobs@.len() && parent->Some_0.blobs@[wb].chunk_size
                            == cs) || (!wp && 0 <= wa < i && 0 <= wb < srcs[wa].blobs@.len()
                            && srcs[wa].blobs@[wb].chunk_size == cs) || (!wp && wa == i && 0 <= wb
                            < bi && mblobs@[wb].chunk_size == cs)),
                    }),
                    (parent_blob_added ==> 0 <= wnd < bi && find_id(dids, mblobs@[wnd].blob_id@)
                        == -1 && forall|b2: int|
                        0 <= b2 < bi && b2 != wnd ==> find_id(
                            dids,
                            (#[trigger] mblobs@[b2]).blob_id@,
                        ) != -1),
                    (!parent_blob_added ==> forall|b: int|
                        0 <= b < bi ==> find_id(dids, (#[trigger] mblobs@[b]).blob_id@) != -1),
                    push_new_ids(idviews(keys@), mblobs@.skip(bi as int)) == push_new_ids(
                        k_layer,
                        mblobs@,
                    ),
                decreases nb - bi,
            {
                let b = &mblobs[bi];
                let mut bc = BlobContext::from(b, ChunkSource::Parent);
                match chunk_size {
                    Option::Some(cs) => {
                        if cs != bc.chunk_size {
                            proof {
                                if accepts_base {
                                    assert(uniform_sizes(srcs));
                                    if wp {
                                        assert(parent->Some_0.blobs@[wb].chunk_size == cs);
                                    } else if wa < i {
                                        assert(srcs[wa].blobs@[wb].chunk_size == cs);
                                    } else {
                                        assert(srcs[i as int].blobs@[wb].chunk_size == cs);
                                    }
                                    assert(srcs[i as int].blobs@[bi as int].chunk_size
                                        == bc.chunk_size);
                                    assert(false);
                                }
                            }
                            return Err(MergeError::IncompatibleManifest);
                        }
                    },
                    Option::None => {
                        chunk_size = Some(bc.chunk_size);
                        proof {
                            wp = false;
                            wa = i as int;
                            wb = bi as int;
                        }
                    },
                }
                let in_dict = find_id_exec(&dict_ids, &b.blob_id).is_some();
                if !in_dict {
                    if parent_blob_added {
                        proof {
                            if accepts {
                                assert(layer_nd_ok(srcs[i as int], dids));
                                assert(find_id(dids, srcs[i as int].blobs@[wnd].blob_id@) == -1);
                                assert(find_id(dids, srcs[i as int].blobs@[bi as int].blob_id@)
                                    == -1);
                                assert(false);
                            }
                        }
                        return Err(MergeError::BlobConstraint);
                    }
                    parent_blob_added = true;
                    proof {
                        wnd = bi as int;
                    }
                    if ctx.blob_accessible || ctx.tarfs_conversion {
                        bc.blob_id = copy_bytes(&b.blob_id);
                    } else {
                        bc.blob_id = copy_bytes(&mpath);
                    }
                    match Self::get_digest_from_list(&blob_digests, i) {
                        Err(e) => {
                            proof {
                                if accepts_base {
                                    assert(blob_digests is None);
                                    assert(false);
                                }
                            }
                            return Err(e);
                        },
                        Ok(Some(d)) => {
                            if b.features.separate {
                                bc.blob_meta_digest = d;
                            } else {
                                bc.blob_id = hexstr::hex_encode(&d);
                            }
                        },
                        Ok(None) => {},
                    }
                    match Self::get_size_from_list(&blob_sizes, i) {
                        Err(e) => {
                            proof {
                                if accepts_base {
                                    assert(arity_ok(blob_sizes, srcs.len() as int));
                                    assert(false);
                                }
                            }
                            return Err(e);
                        },
                        Ok(Some(s)) => {
                            if b.features.separate {
                                bc.blob_meta_size = s;
                            } else {
                                bc.compressed_blob_size = s;
                            }
                        },
                        Ok(None) => {},
                    }
                    match Self::get_digest_from_list(&blob_toc_digests, i) {
                        Err(e) => {
                            proof {
                                if accepts_base {
                                    assert(blob_toc_digests is None);
                                    assert(false);
                                }
                            }
                            return Err(e);
                        },
                        Ok(Some(d)) => {
                            bc.blob_toc_digest = d;
                        },
                        Ok(None) => {},
                    }
                    match Self::get_size_from_list(&blob_toc_sizes, i) {
                        Err(e) => {
                            proof {
                                if accepts_base {
                                    assert(arity_ok(blob_toc_sizes, srcs.len() as int));
                                    assert(false);
                                }
                            }
                            return Err(e);
                        },
                        Ok(Some(s)) => {
                            bc.blob_toc_size = #[verifier::truncate] (s as u32);
                        },
                        Ok(None) => {},
                    }
                }
                let ghost cur_keys = idviews(keys@);
                if find_id_exec(&keys, &b.blob_id).is_none() {
                    let ghost keys0 = idviews(keys@);
                    proof {
                        lemma_find_id(keys0, b.blob_id@);
                    }
                    keys.push(copy_bytes(&b.blob_id));
                    table.push(bc);
                    proof {
                        assert(idviews(keys@) =~= keys0.push(b.blob_id@));
                        assert forall|x: int, y: int|
                            0 <= x < y < idviews(keys@).len() implies idviews(keys@)[x] != idviews(
                            keys@,
                        )[y] by {
                            if y < keys0.len() {
                                assert(idviews(keys@)[x] == keys0[x] && idviews(keys@)[y]
                                    == keys0[y]);
                            } else {
                                assert(idviews(keys@)[y] == b.blob_id@);
                                assert(idviews(keys@)[x] == keys0[x]);
                                assert(keys0[x] != b.blob_id@);
                            }
                        }
                        assert forall|bb: int| 0 <= bb < bi + 1 implies find_id(
                            idviews(keys@),
                            (#[trigger] mblobs@[bb]).blob_id@,
                        ) != -1 by {
                            lemma_find_id_push(keys0, mblobs@[bb].blob_id@, b.blob_id@);
                            if bb < bi {
                                assert(find_id(keys0, mblobs@[bb].blob_id@) != -1);
                            }
                        }
                        assert forall|aa: int, ab: int|
                            0 <= aa < i && 0 <= ab < srcs[aa].blobs@.len() implies find_id(
                            idviews(keys@),
                            (#[trigger] srcs[aa].blobs@[ab]).blob_id@,
                        ) != -1 by {
                            lemma_find_id_push(keys0, srcs[aa].blobs@[ab].blob_id@, b.blob_id@);
                            assert(find_id(keys0, srcs[aa].blobs@[ab].blob_id@) != -1);
                        }
                    }
                } else {
                    proof {
                        assert forall|bb: int| 0 <= bb < bi + 1 implies find_id(
                            idviews(keys@),
                            (#[trigger] mblobs@[bb]).blob_id@,
                        ) != -1 by {}
                    }
                }
                proof {
                    assert(mblobs@.skip(bi as int)[0] == mblobs@[bi as int]);
                    assert(mblobs@.skip(bi as int).drop_first() =~= mblobs@.skip(bi as int + 1));
                    assert(idviews(keys@) == (if find_id(cur_keys, mblobs@[bi as int].blob_id@)
                        == -1 {
                        cur_keys.push(mblobs@[bi as int].blob_id@)
                    } else {
                        cur_keys
                    }));
                    assert(push_new_ids(cur_keys, mblobs@.skip(bi as int)) == push_new_ids(
                        idviews(keys@),
                        mblobs@.skip(bi as int + 1),
                    ));
                }
                bi += 1;
            }
            proof {
                lemma_sum_blobs_skip(srcs, i as int);
                assert forall|aa: int, ab: int|
                    0 <= aa < i + 1 && 0 <= ab < srcs[aa].blobs@.len() implies find_id(
                    idviews(keys@),
                    (#[trigger] srcs[aa].blobs@[ab]).blob_id@,
                ) != -1 by {
                    if aa == i {
                        assert(srcs[aa].blobs@[ab] == mblobs@[ab]);
                    }
                }
                assert(mblobs@.skip(nb as int) =~= Seq::<BlobInfo>::empty());
                assert(idviews(keys@) == push_new_ids(k_layer, mblobs@));
                assert(srcs.skip(i as int)[0] == srcs[i as int]);
                assert(srcs.skip(i as int).drop_first() =~= srcs.skip(i as int + 1));
                assert(keys_after(idviews(keys@), srcs.skip(i as int + 1)) == merged_keys(
                    parent,
                    srcs,
                )) by {
                    assert(keys_after(k_layer, srcs.skip(i as int)) == keys_after(
                        push_new_ids(k_layer, srcs[i as int].blobs@),
                        srcs.skip(i as int + 1),
                    ));
                }
                assert(layer_nd_ok(srcs[i as int], dids)) by {
                    assert forall|p: int, q: int| 0 <= p < q < mblobs@.len() implies !(find_id(
                        dids,
                        (#[trigger] mblobs@[p]).blob_id@,
                    ) == -1 && find_id(dids, (#[trigger] mblobs@[q]).blob_id@) == -1) by {
                        if parent_blob_added {
                            if p != wnd {
                                assert(find_id(dids, mblobs@[p].blob_id@) != -1);
                            }
                            if q != wnd {
                                assert(find_id(dids, mblobs@[q].blob_id@) != -1);
                            }
                        } else {
                            assert(find_id(dids, mblobs@[p].blob_id@) != -1);
                        }
                    }
                }
            }
            // Stamp this layer's image-wide index, failing on overflow.
            if i > 65535 {
                proof {
                    if accepts_base {
                        lemma_sum_blobs_nonneg(srcs.skip(0));
                        assert(pl + srcs.len() <= 0x10000);
                        assert(false);
                    }
                }
                return Err(MergeError::InputValidation);
            }
            if parent_layers > 65535 - i {
                proof {
                    if accepts_base {
                        assert(pl + srcs.len() <= 0x10000);
                        assert(false);
                    }
                }
                return Err(MergeError::InputValidation);
            }
            let li: u16 = (parent_layers + i) as u16;
            proof {
                lemma_sum_blobs_nonneg(srcs.skip(i as int + 1));
                assert(keys@.len() <= 0xFFFF_FFFF);
                assert(node_ok(mroot@, mblobs@.len() as int, 0x10000));
                assert forall|k: int| 0 <= k < mblobs@.len() implies find_id(
                    idviews(keys@),
                    #[trigger] bids_of(mblobs@)[k],
                ) != -1 by {
                    assert(bids_of(mblobs@)[k] == mblobs@[k].blob_id@);
                }
            }
            let upper_root = rewrite_node(mroot, &mblobs, &keys, li);
            proof {
                lemma_rewrite_ok(mroot@, bids_of(mblobs@), idviews(keys@), li);
                lemma_rewrite_ids(mroot@, bids_of(mblobs@), idviews(keys@), li);
                lemma_sources_union_elem(srcs, i as int);
                assert(node_ok(upper_root@, keys@.len() as int, li + 1));
                assert(block_ids(upper_root@).subset_of(input_ids(parent, srcs)));
                let kfin = merged_keys(parent, srcs);
                lemma_keys_after_prefix(idviews(keys@), srcs.skip(i as int + 1));
                assert(id_prefix(idviews(keys@), kfin));
                assert forall|j: int| 0 <= j < bids_of(mblobs@).len() implies find_id(
                    idviews(keys@),
                    #[trigger] bids_of(mblobs@)[j],
                ) == find_id(kfin, bids_of(mblobs@)[j]) by {
                    lemma_find_id_prefix(idviews(keys@), kfin, bids_of(mblobs@)[j]);
                }
                lemma_rewrite_keys_agree(mroot@, bids_of(mblobs@), idviews(keys@), kfin, li);
                assert(upper_root@ == rewrite_node_spec(mroot@, bids_of(mblobs@), kfin, li));
            }
            let ghost tov0 = match &tree_opt {
                Option::Some(t) => Option::Some(t.root@),
                Option::None => Option::None::<NodeV>,
            };
            let upper = Tree { root: upper_root };
            tree_opt = Some(
                match tree_opt {
                    Option::Some(t) => {
                        proof {
                            lemma_node_ok_mono(
                                t.root@,
                                table_len_at_layer,
                                pl + i as int,
                                table@.len() as int,
                                pl + i as int + 1,
                            );
                            lemma_node_ok_mono(
                                upper_root@,
                                keys@.len() as int,
                                li + 1,
                                table@.len() as int,
                                pl + i as int + 1,
                            );
                            lemma_overlay_node_ok(
                                t.root@,
                                upper_root@,
                                table@.len() as int,
                                pl + i as int + 1,
                            );
                            lemma_overlay_node_ids(t.root@, upper_root@);
                        }
                        t.merge_overlay(upper)
                    },
                    Option::None => {
                        proof {
                            lemma_node_ok_mono(
                                upper_root@,
                                keys@.len() as int,
                                li + 1,
                                table@.len() as int,
                                pl + i as int + 1,
                            );
                        }
                        upper
                    },
                },
            );
            proof {
                let kfin = merged_keys(parent, srcs);
                assert(((pl + i as int) as u16) == li);
                assert(fold_tree(tov0, srcs.skip(i as int), kfin, pl + i as int) == fold_tree(
                    (match tree_opt {
                        Option::Some(t) => Option::Some(t.root@),
                        Option::None => Option::None::<NodeV>,
                    }),
                    srcs.skip(i as int + 1),
                    kfin,
                    pl + i as int + 1,
                ));
            }
            i += 1;
        }

        // In tar mode neither a parent manifest nor a chunk dictionary may
        // take part.
        if ctx.tarfs_conversion {
            if parent_layers > 0 {
                proof {
                    if accepts_base {
                        assert(base_config(chunk_dict, srcs).tarfs_mode);
                        assert(parent is None);
                        assert(false);
                    }
                }
                return Err(MergeError::InputValidation);
            }
            if dict_ids.len() > 0 {
                proof {
                    if accepts_base {
                        assert(base_config(chunk_dict, srcs).tarfs_mode);
                        assert(dids.len() == 0);
                        assert(false);
                    }
                }
                return Err(MergeError::InputValidation);
            }
        }

        let tree = match tree_opt {
            Option::Some(t) => t,
            Option::None => {
                proof {
                    assert(false);
                }
                return Err(MergeError::InputValidation);
            },
        };
        ctx.fs_version = fs_version;
        if let Some(cs) = chunk_size {
            ctx.chunk_size = cs;
        }

        // Serialize the table into the output manifest's blob list.
        let nt = table.len();
        let mut blobs_out: Vec<BlobInfo> = Vec::new();
        let mut blob_ids_out: Vec<Vec<u8>> = Vec::new();
        let mut ti: usize = 0;
        while ti < nt
            invariant
                0 <= ti <= nt,
                nt == table@.len(),
                blobs_out@.len() == ti,
                blob_ids_out@.len() == ti,
                forall|k: int|
                    0 <= k < ti ==> (#[trigger] blobs_out@[k]).blob_id@ == table@[k].blob_id@,
                forall|k: int|
                    0 <= k < ti ==> (#[trigger] blob_ids_out@[k])@ == table@[k].blob_id@,
            decreases nt - ti,
        {
            blobs_out.push(table[ti].to_blob_info());
            blob_ids_out.push(copy_bytes(&table[ti].blob_id));
            ti += 1;
        }
        proof {
            assert(srcs.skip(n_src as int) =~= Seq::<Manifest>::empty());
            assert(idviews(keys@) == merged_keys(parent, srcs));
            assert(Option::Some(tree.root@) == merged_tree(parent, srcs));
            assert(blobs_out@.len() == merged_keys(parent, srcs).len());
            if old(ctx).blob_accessible && blob_digests is None {
                assert(bids_of(blobs_out@) =~= idviews(keys@));
                assert(forall|a: int, b: int|
                    0 <= a < srcs.len() && 0 <= b < srcs[a].blobs@.len() ==> find_id(
                        bids_of(blobs_out@),
                        (#[trigger] srcs[a].blobs@[b]).blob_id@,
                    ) != -1);
            }
            lemma_sum_blobs_nonneg(srcs.skip(n_src as int));
            match chunk_size {
                Option::Some(cs) => {
                    assert(uniform_sizes(srcs)) by {
                        assert(forall|a: int, b: int|
                            0 <= a < srcs.len() && 0 <= b < srcs[a].blobs@.len() ==> (
                            #[trigger] srcs[a].blobs@[b]).chunk_size == cs);
                    }
                    if srcs[0].blobs@.len() > 0 {
                        assert(all_sizes(srcs, srcs[0].blobs@[0].chunk_size));
                    }
                },
                Option::None => {
                    assert(uniform_sizes(srcs)) by {
                        assert(forall|a: int|
                            0 <= a < srcs.len() ==> (#[trigger] srcs[a]).blobs@.len() == 0);
                    }
                },
            }
        }
        let manifest = Manifest {
            version: fs_version,
            compressor: ctx.compressor,
            digester: ctx.digester,
            explicit_uidgid: ctx.explicit_uidgid,
            tarfs_mode: ctx.tarfs_conversion,
            blobs: blobs_out,
            root: tree.root,
            path_blob_id: Vec::new(),
        };
        Ok(BuildOutput { manifest, blob_ids: blob_ids_out })
    }
}

} // verus!
