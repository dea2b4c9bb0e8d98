//! Layered filesystem trees and the overlay merge engine.
//!
//! A [`Tree`] owns its nodes exclusively. [`Tree::merge_overlay`] applies
//! the overlay-filesystem rules of an upper layer onto a lower one:
//! whiteouts delete, opaque directories replace children wholesale, two
//! directories merge recursively, and anything else is replaced. The exact
//! semantics is the spec function [`overlay_node`]; the executable merge is
//! proved to compute it.

use vstd::prelude::*;

use crate::model::ChunkInfo;

verus! {

/// How a node relates to the layers below it.
#[derive(Clone, Copy, Debug, PartialEq, Eq, Structural)]
pub enum Overlay {
    /// Present in a lower layer and untouched.
    Lower,
    /// Added by an upper layer.
    UpperAddition,
    /// Replaces a node of a lower layer.
    UpperModification,
    /// A directory whose children replace the lower directory's wholesale.
    UpperOpaque,
    /// A whiteout marker: deletes the lower node of the same name.
    UpperRemoval,
}

/// One chunk reference held by a regular file node.
#[derive(Clone, Debug)]
pub struct NodeChunk {
    /// Position of the referenced blob in the manifest's blob table.
    pub blob_index: u32,
    /// The chunk within that blob.
    pub inner: ChunkInfo,
}

/// A filesystem entry of one layer.
pub struct Node {
    /// File name of the entry within its parent.
    pub name: Vec<u8>,
    /// Permission and type bits.
    pub mode: u32,
    /// Owning user.
    pub uid: u32,
    /// Owning group.
    pub gid: u32,
    /// Size in bytes of a regular file.
    pub size: u64,
    /// Whether the entry is a directory.
    pub is_dir: bool,
    /// Whether the entry is a whiteout marker for its name.
    pub whiteout: bool,
    /// Whether a directory hides the lower directory's children.
    pub opaque: bool,
    /// Index of the layer the entry came from.
    pub layer_idx: u16,
    /// Overlay classification.
    pub overlay: Overlay,
    /// Chunk references of a regular file, in logical order.
    pub chunks: Vec<NodeChunk>,
    /// Children of a directory, in manifest order.
    pub children: Vec<Node>,
}

/// Mathematical model of one chunk reference.
#[verifier::ext_equal]
pub ghost struct ChunkV {
    pub blob_index: u32,
    pub index: u32,
    pub block_id: Seq<u8>,
    pub compress_offset: u64,
    pub compress_size: u32,
    pub decompress_size: u32,
    pub is_compressed: bool,
}

/// Mathematical model of one node and its subtree.
#[verifier::ext_equal]
pub ghost struct NodeV {
    pub name: Seq<u8>,
    pub mode: u32,
    pub uid: u32,
    pub gid: u32,
    pub size: u64,
    pub is_dir: bool,
    pub whiteout: bool,
    pub opaque: bool,
    pub layer_idx: u16,
    pub overlay: Overlay,
    pub chunks: Seq<ChunkV>,
    pub children: Seq<NodeV>,
}

impl View for NodeChunk {
    type V = ChunkV;

    open spec fn view(&self) -> ChunkV {
        ChunkV {
            blob_index: self.blob_index,
            index: self.inner.index,
            block_id: self.inner.block_id@,
            compress_offset: self.inner.compress_offset,
            compress_size: self.inner.compress_size,
            decompress_size: self.inner.decompress_size,
            is_compressed: self.inner.is_compressed,
        }
    }
}

/// Mathematical model of one owned node.
pub open spec fn node_view(n: Node) -> NodeV
    decreases n,
{
    NodeV {
        name: n.name@,
        mode: n.mode,
        uid: n.uid,
        gid: n.gid,
        size: n.size,
        is_dir: n.is_dir,
        whiteout: n.whiteout,
        opaque: n.opaque,
        layer_idx: n.layer_idx,
        overlay: n.overlay,
        chunks: Seq::new(n.chunks@.len(), |i: int| n.chunks@[i]@),
        children: views(n.children@),
    }
}

/// The models of a sequence of owned nodes.
pub open spec fn views(s: Seq<Node>) -> Seq<NodeV>
    decreases s,
{
    if s.len() == 0 {
        Seq::empty()
    } else {
        seq![node_view(s[0])] + views(s.drop_first())
    }
}

/// `views` maps each node to its model, keeping length and order.
pub proof fn lemma_views(s: Seq<Node>)
    ensures
        views(s).len() == s.len(),
        forall|i: int| 0 <= i < s.len() ==> views(s)[i] == node_view(#[trigger] s[i]),
    decreases s,
{
    if s.len() > 0 {
        lemma_views(s.drop_first());
        assert(forall|i: int| 1 <= i < s.len() ==> #[trigger] s[i] == s.drop_first()[i - 1]);
    }
}

impl View for Node {
    type V = NodeV;

    open spec fn view(&self) -> NodeV {
        node_view(*self)
    }
}

/// Index of the first child named `name`, or -1 when there is none.
pub open spec fn find_child(cs: Seq<NodeV>, name: Seq<u8>) -> int
    decreases cs.len(),
{
    if cs.len() == 0 {
        -1
    } else if cs[0].name == name {
        0
    } else {
        let r = find_child(cs.drop_first(), name);
        if r == -1 {
            -1
        } else {
            r + 1
        }
    }
}

/// `find_child` returns the first index bearing `name`, or -1 when no
/// child bears it.
pub proof fn lemma_find_child(cs: Seq<NodeV>, name: Seq<u8>)
    ensures
        find_child(cs, name) == -1 ==> forall|k: int|
            0 <= k < cs.len() ==> (#[trigger] cs[k]).name != name,
        find_child(cs, name) != -1 ==> {
            let r = find_child(cs, name);
            &&& 0 <= r < cs.len()
            &&& cs[r].name == name
            &&& forall|k: int| 0 <= k < r ==> (#[trigger] cs[k]).name != name
        },
    decreases cs.len(),
{
    if cs.len() > 0 {
        lemma_find_child(cs.drop_first(), name);
        assert forall|k: int| 1 <= k < cs.len() implies #[trigger] cs[k] == cs.drop_first()[k
            - 1] by {
            assert(cs.drop_first()[k - 1] == cs[k]);
        }
    }
}

/// `n` with its overlay classification changed.
pub open spec fn with_overlay(n: NodeV, o: Overlay) -> NodeV {
    NodeV { overlay: o, ..n }
}

/// Children of the lower directory after applying the upper directory's
/// children in order, under the overlay rules.
pub open spec fn overlay_children(lc: Seq<NodeV>, uc: Seq<NodeV>) -> Seq<NodeV>
    decreases uc,
{
    if uc.len() == 0 {
        lc
    } else {
        let u = uc[0];
        let j = find_child(lc, u.name);
        let lc2 = if u.whiteout {
            if j >= 0 {
                lc.remove(j)
            } else {
                lc
            }
        } else if j == -1 {
            lc.push(with_overlay(u, Overlay::UpperAddition))
        } else if u.is_dir && u.opaque {
            lc.update(j, with_overlay(u, Overlay::UpperOpaque))
        } else if u.is_dir && lc[j].is_dir {
            lc.update(j, overlay_node(lc[j], u))
        } else {
            lc.update(j, with_overlay(u, Overlay::UpperModification))
        };
        overlay_children(lc2, uc.drop_first())
    }
}

/// Overlay of an upper directory onto a lower directory: attributes from
/// the upper node, children merged recursively.
pub open spec fn overlay_node(l: NodeV, u: NodeV) -> NodeV
    decreases u,
{
    NodeV {
        children: overlay_children(l.children, u.children),
        overlay: Overlay::UpperModification,
        ..u
    }
}

/// Height of a node's model, for termination of the executable merge.
pub open spec fn heightv(n: NodeV) -> nat
    decreases n,
{
    1 + heights(n.children)
}

/// Largest height among a sequence of node models.
pub open spec fn heights(cs: Seq<NodeV>) -> nat
    decreases cs,
{
    if cs.len() == 0 {
        0
    } else if heightv(cs[0]) >= heights(cs.drop_first()) {
        heightv(cs[0])
    } else {
        heights(cs.drop_first())
    }
}

/// Every element of a sequence is at most as high as the sequence's height.
pub proof fn lemma_heights_bound(cs: Seq<NodeV>, k: int)
    requires
        0 <= k < cs.len(),
    ensures
        heightv(cs[k]) <= heights(cs),
    decreases cs.len(),
{
    if k > 0 {
        lemma_heights_bound(cs.drop_first(), k - 1);
        assert(cs.drop_first()[k - 1] == cs[k]);
    }
}

pub proof fn lemma_views_remove(s: Seq<Node>, j: int)
    requires
        0 <= j < s.len(),
    ensures
        views(s.remove(j)) =~= views(s).remove(j),
{
    lemma_views(s);
    lemma_views(s.remove(j));
    s.remove_ensures(j);
    views(s).remove_ensures(j);
    assert forall|i: int| 0 <= i < s.len() - 1 implies views(s.remove(j))[i] == views(s).remove(
        j,
    )[i] by {
        if i < j {
            assert(s.remove(j)[i] == s[i]);
        } else {
            assert(s.remove(j)[i] == s[i + 1]);
        }
    }
}

pub proof fn lemma_views_push(s: Seq<Node>, x: Node)
    ensures
        views(s.push(x)) =~= views(s).push(node_view(x)),
{
    lemma_views(s);
    lemma_views(s.push(x));
    assert forall|i: int| 0 <= i < s.len() + 1 implies views(s.push(x))[i] == views(s).push(
        node_view(x),
    )[i] by {
        if i < s.len() {
            assert(s.push(x)[i] == s[i]);
        } else {
            assert(s.push(x)[i] == x);
        }
    }
}

pub proof fn lemma_views_update(s: Seq<Node>, j: int, x: Node)
    requires
        0 <= j < s.len(),
    ensures
        views(s.update(j, x)) =~= views(s).update(j, node_view(x)),
{
    lemma_views(s);
    lemma_views(s.update(j, x));
    assert forall|i: int| 0 <= i < s.len() implies views(s.update(j, x))[i] == views(s).update(
        j,
        node_view(x),
    )[i] by {
        if i == j {
            assert(s.update(j, x)[i] == x);
        } else {
            assert(s.update(j, x)[i] == s[i]);
        }
    }
}

/// Find the first child of `cs` named `name`.
fn find_child_idx(cs: &Vec<Node>, name: &Vec<u8>) -> (r: Option<usize>)
    ensures
        match r {
            Some(j) => find_child(views(cs@), name@) == j as int,
            None => find_child(views(cs@), name@) == -1,
        },
{
    proof {
        lemma_views(cs@);
        lemma_find_child(views(cs@), name@);
    }
    let n = cs.len();
    let mut i: usize = 0;
    while i < n
        invariant
            n == cs@.len(),
            0 <= i <= n,
            views(cs@).len() == n,
            forall|k: int| 0 <= k < i ==> (#[trigger] views(cs@)[k]).name != name@,
            forall|k: int| 0 <= k < n ==> views(cs@)[k] == node_view(#[trigger] cs@[k]),
            find_child(views(cs@), name@) == -1 ==> forall|k: int|
                0 <= k < n ==> (#[trigger] views(cs@)[k]).name != name@,
            find_child(views(cs@), name@) != -1 ==> {
                let r = find_child(views(cs@), name@);
                &&& 0 <= r < n
                &&& views(cs@)[r].name == name@
                &&& forall|k: int| 0 <= k < r ==> (#[trigger] views(cs@)[k]).name != name@
            },
        decreases n - i,
    {
        if crate::model::bytes_eq(&cs[i].name, name) {
            assert(views(cs@)[i as int].name == name@);
            return Some(i);
        }
        assert(views(cs@)[i as int].name != name@);
        i += 1;
    }
    None
}

/// Overlay the upper node onto the lower node, consuming both and
/// returning exactly the overlay of their models.
#[verifier::loop_isolation(false)]
pub fn merge_nodes(lower: Node, upper: Node) -> (r: Node)
    ensures
        r@ == overlay_node(lower@, upper@),
    decreases heightv(upper@),
{
    let ghost lv = lower@;
    let ghost uv = upper@;
    let Node {
        name,
        mode,
        uid,
        gid,
        size,
        is_dir,
        whiteout,
        opaque,
        layer_idx,
        overlay: _,
        chunks,
        children: upper_children,
    } = upper;
    let Node { children: lower_children, .. } = lower;
    let mut acc = lower_children;
    let mut rest = upper_children;
    proof {
        assert(uv.children == views(rest@));
        assert(lv.children == views(acc@));
        lemma_views(rest@);
        assert forall|k: int| 0 <= k < views(rest@).len() implies heightv(
            #[trigger] views(rest@)[k],
        ) < heightv(uv) by {
            lemma_heights_bound(uv.children, k);
        }
    }
    while rest.len() > 0
        invariant
            overlay_children(lv.children, uv.children) == overlay_children(
                views(acc@),
                views(rest@),
            ),
            forall|k: int| 0 <= k < views(rest@).len() ==> heightv(#[trigger] views(rest@)[k])
                < heightv(uv),
            views(rest@).len() == rest@.len(),
        decreases rest@.len(),
    {
        let ghost acc0 = views(acc@);
        let ghost rest0 = views(rest@);
        let ghost orn = rest@;
        let u0 = rest.remove(0);
        proof {
            // The models of the remaining uppers are the tail of the previous ones.
            assert(u0 == orn[0]);
            assert(rest0[0] == u0@);
            assert(rest@ =~= orn.drop_first());
            lemma_views(orn);
            lemma_views(rest@);
            assert forall|k: int| 0 <= k < rest@.len() implies views(rest@)[k]
                == rest0.drop_first()[k] by {
                assert(rest@[k] == orn[k + 1]);
            }
            assert(views(rest@) =~= rest0.drop_first());
            lemma_views(acc@);
            assert(heightv(rest0[0]) < heightv(uv));
            assert(heightv(u0@) < heightv(uv));
        }
        let found = find_child_idx(&acc, &u0.name);
        let ghost j = find_child(acc0, u0@.name);
        proof {
            lemma_find_child(acc0, u0@.name);
        }
        if u0.whiteout {
            if let Some(ji) = found {
                let ghost before = acc@;
                let _ = acc.remove(ji);
                proof {
                    lemma_views_remove(before, ji as int);
                }
            }
        } else if found.is_none() {
            let ghost before = acc@;
            let mut u0m = u0;
            u0m.overlay = Overlay::UpperAddition;
            proof {
                assert(u0m@ =~= with_overlay(u0@, Overlay::UpperAddition));
            }
            acc.push(u0m);
            proof {
                lemma_views_push(before, u0m);
            }
        } else {
            let ji = found.unwrap();
            if u0.is_dir && u0.opaque {
                let ghost before = acc@;
                let mut u0m = u0;
                u0m.overlay = Overlay::UpperOpaque;
                proof {
                    assert(u0m@ =~= with_overlay(u0@, Overlay::UpperOpaque));
                }
                acc.set(ji, u0m);
                proof {
                    lemma_views_update(before, ji as int, u0m);
                    assert(views(acc@) =~= acc0.update(ji as int, u0m@));
                }
            } else {
                let lower_is_dir = acc[ji].is_dir;
                if u0.is_dir && lower_is_dir {
                    let ghost before = acc@;
                    let l0 = acc.remove(ji);
                    proof {
                        assert(heightv(u0@) < heightv(uv));
                    }
                    let merged = merge_nodes(l0, u0);
                    let ghost after_remove = acc@;
                    acc.insert(ji, merged);
                    proof {
                        assert(acc@ =~= before.update(ji as int, merged)) by {
                            after_remove.insert_ensures(ji as int, merged);
                            before.remove_ensures(ji as int);
                        }
                        lemma_views_update(before, ji as int, merged);
                        assert(l0@ == acc0[ji as int]);
                        assert(views(acc@) =~= acc0.update(
                            ji as int,
                            overlay_node(acc0[ji as int], u0@),
                        ));
                    }
                } else {
                    let ghost before = acc@;
                    let mut u0m = u0;
                    u0m.overlay = Overlay::UpperModification;
                    proof {
                        assert(u0m@ =~= with_overlay(u0@, Overlay::UpperModification));
                    }
                    acc.set(ji, u0m);
                    proof {
                        lemma_views_update(before, ji as int, u0m);
                    }
                }
            }
        }
        proof {
            assert(overlay_children(acc0, rest0) == overlay_children(views(acc@), views(rest@)));
        }
    }
    let r = Node {
        name,
        mode,
        uid,
        gid,
        size,
        is_dir,
        whiteout,
        opaque,
        layer_idx,
        overlay: Overlay::UpperModification,
        chunks,
        children: acc,
    };
    proof {
        assert(views(rest@) =~= Seq::<NodeV>::empty());
        assert(overlay_children(views(acc@), views(rest@)) == views(acc@));
        assert(r@ =~= overlay_node(lv, uv));
    }
    r
}

/// All chunk references of the subtree point below `k` in the blob table,
/// and all layer indices lie below `l`.
pub open spec fn node_ok(n: NodeV, k: int, l: int) -> bool
    decreases n,
{
    &&& forall|i: int| 0 <= i < n.chunks.len() ==> (#[trigger] n.chunks[i]).blob_index < k
    &&& (n.layer_idx as int) < l
    &&& forall|i: int| 0 <= i < n.children.len() ==> node_ok(#[trigger] n.children[i], k, l)
}

/// The bounds of `node_ok` may be relaxed.
pub proof fn lemma_node_ok_mono(n: NodeV, k1: int, l1: int, k2: int, l2: int)
    requires
        node_ok(n, k1, l1),
        k1 <= k2,
        l1 <= l2,
    ensures
        node_ok(n, k2, l2),
    decreases n,
{
    assert forall|i: int| 0 <= i < n.children.len() implies node_ok(
        #[trigger] n.children[i],
        k2,
        l2,
    ) by {
        lemma_node_ok_mono(n.children[i], k1, l1, k2, l2);
    }
}

/// Changing only the overlay classification changes no `node_ok` fact.
proof fn lemma_with_overlay_ok(n: NodeV, o: Overlay, k: int, l: int)
    ensures
        node_ok(with_overlay(n, o), k, l) == node_ok(n, k, l),
{
    let m = with_overlay(n, o);
    assert(m.chunks == n.chunks && m.children == n.children && m.layer_idx == n.layer_idx);
}

/// The overlay of two bounded nodes is bounded.
pub proof fn lemma_overlay_node_ok(l: NodeV, u: NodeV, k: int, li: int)
    requires
        node_ok(l, k, li),
        node_ok(u, k, li),
    ensures
        node_ok(overlay_node(l, u), k, li),
    decreases u,
{
    lemma_overlay_children_ok(l.children, u.children, k, li);
    let r = overlay_node(l, u);
    assert(r.chunks == u.chunks && r.layer_idx == u.layer_idx);
    assert(r.children == overlay_children(l.children, u.children));
    assert(forall|i: int| 0 <= i < r.chunks.len() ==> (#[trigger] r.chunks[i]).blob_index < k);
    assert(forall|i: int| 0 <= i < r.children.len() ==> node_ok(#[trigger] r.children[i], k, li));
}

/// The overlay of two sequences of bounded children is bounded.
pub proof fn lemma_overlay_children_ok(lc: Seq<NodeV>, uc: Seq<NodeV>, k: int, li: int)
    requires
        forall|i: int| 0 <= i < lc.len() ==> node_ok(#[trigger] lc[i], k, li),
        forall|i: int| 0 <= i < uc.len() ==> node_ok(#[trigger] uc[i], k, li),
    ensures
        forall|i: int|
            0 <= i < overlay_children(lc, uc).len() ==> node_ok(
                #[trigger] overlay_children(lc, uc)[i],
                k,
                li,
            ),
    decreases uc,
{
    if uc.len() > 0 {
        let u = uc[0];
        let j = find_child(lc, u.name);
        lemma_find_child(lc, u.name);
        let lc2 = if u.whiteout {
            if j >= 0 {
                lc.remove(j)
            } else {
                lc
            }
        } else if j == -1 {
            lc.push(with_overlay(u, Overlay::UpperAddition))
        } else if u.is_dir && u.opaque {
            lc.update(j, with_overlay(u, Overlay::UpperOpaque))
        } else if u.is_dir && lc[j].is_dir {
            lc.update(j, overlay_node(lc[j], u))
        } else {
            lc.update(j, with_overlay(u, Overlay::UpperModification))
        };
        if u.whiteout {
            if j >= 0 {
                lc.remove_ensures(j);
            }
        } else if j == -1 {
            lemma_with_overlay_ok(u, Overlay::UpperAddition, k, li);
        } else if u.is_dir && u.opaque {
            lemma_with_overlay_ok(u, Overlay::UpperOpaque, k, li);
        } else if u.is_dir && lc[j].is_dir {
            lemma_overlay_node_ok(lc[j], u, k, li);
        } else {
            lemma_with_overlay_ok(u, Overlay::UpperModification, k, li);
        }
        assert(forall|i: int| 0 <= i < lc2.len() ==> node_ok(#[trigger] lc2[i], k, li));
        assert(forall|i: int|
            0 <= i < uc.drop_first().len() ==> node_ok(#[trigger] uc.drop_first()[i], k, li));
        lemma_overlay_children_ok(lc2, uc.drop_first(), k, li);
        assert(overlay_children(lc, uc) == overlay_children(lc2, uc.drop_first()));
    }
}

/// The set of chunk block ids referenced anywhere in the subtree of `n`.
pub open spec fn block_ids(n: NodeV) -> Set<Seq<u8>>
    decreases n,
{
    Set::new(
        |b: Seq<u8>|
            exists|i: int| 0 <= i < n.chunks.len() && (#[trigger] n.chunks[i]).block_id == b,
    ) + kids_ids(n.children)
}

/// The block ids referenced anywhere below a sequence of nodes.
pub open spec fn kids_ids(cs: Seq<NodeV>) -> Set<Seq<u8>>
    decreases cs,
{
    if cs.len() == 0 {
        Set::empty()
    } else {
        block_ids(cs[0]) + kids_ids(cs.drop_first())
    }
}

proof fn lemma_kids_ids_elem(cs: Seq<NodeV>, j: int)
    requires
        0 <= j < cs.len(),
    ensures
        block_ids(cs[j]).subset_of(kids_ids(cs)),
    decreases cs.len(),
{
    if j > 0 {
        lemma_kids_ids_elem(cs.drop_first(), j - 1);
        assert(cs.drop_first()[j - 1] == cs[j]);
    }
}

proof fn lemma_kids_ids_remove(cs: Seq<NodeV>, j: int)
    requires
        0 <= j < cs.len(),
    ensures
        kids_ids(cs.remove(j)).subset_of(kids_ids(cs)),
    decreases cs.len(),
{
    if j == 0 {
        assert(cs.remove(0) =~= cs.drop_first());
    } else {
        lemma_kids_ids_remove(cs.drop_first(), j - 1);
        assert(cs.remove(j).drop_first() =~= cs.drop_first().remove(j - 1));
        assert(cs.remove(j)[0] == cs[0]);
    }
}

proof fn lemma_kids_ids_push(cs: Seq<NodeV>, x: NodeV)
    ensures
        kids_ids(cs.push(x)).subset_of(kids_ids(cs) + block_ids(x)),
    decreases cs.len(),
{
    if cs.len() == 0 {
        assert(cs.push(x)[0] == x);
        assert(cs.push(x).drop_first() =~= Seq::<NodeV>::empty());
        assert(kids_ids(cs.push(x)) == block_ids(x) + kids_ids(Seq::<NodeV>::empty()));
        assert forall|b: Seq<u8>| kids_ids(cs.push(x)).contains(b) implies (kids_ids(cs)
            + block_ids(x)).contains(b) by {
            assert(block_ids(x).contains(b));
        }
    } else {
        lemma_kids_ids_push(cs.drop_first(), x);
        assert(cs.push(x)[0] == cs[0]);
        assert(cs.push(x).drop_first() =~= cs.drop_first().push(x));
        assert(kids_ids(cs.push(x)) == block_ids(cs[0]) + kids_ids(cs.drop_first().push(x)));
        assert forall|b: Seq<u8>| kids_ids(cs.push(x)).contains(b) implies (kids_ids(cs)
            + block_ids(x)).contains(b) by {
            if !block_ids(cs[0]).contains(b) {
                assert(kids_ids(cs.drop_first().push(x)).contains(b));
                assert((kids_ids(cs.drop_first()) + block_ids(x)).contains(b));
            }
        }
    }
}

proof fn lemma_kids_ids_update(cs: Seq<NodeV>, j: int, x: NodeV)
    requires
        0 <= j < cs.len(),
    ensures
        kids_ids(cs.update(j, x)).subset_of(kids_ids(cs) + block_ids(x)),
    decreases cs.len(),
{
    if j == 0 {
        assert(cs.update(0, x)[0] == x);
        assert(cs.update(0, x).drop_first() =~= cs.drop_first());
    } else {
        lemma_kids_ids_update(cs.drop_first(), j - 1, x);
        assert(cs.update(j, x)[0] == cs[0]);
        assert(cs.update(j, x).drop_first() =~= cs.drop_first().update(j - 1, x));
    }
}

/// Changing only the overlay classification changes no referenced block id.
proof fn lemma_with_overlay_ids(n: NodeV, o: Overlay)
    ensures
        block_ids(with_overlay(n, o)) == block_ids(n),
{
    let m = with_overlay(n, o);
    assert(m.chunks == n.chunks && m.children == n.children);
    assert(block_ids(m) =~= block_ids(n));
}

/// Every block id referenced after an overlay was referenced by one of the
/// two sides: the merge invents no chunk references.
pub proof fn lemma_overlay_node_ids(l: NodeV, u: NodeV)
    ensures
        block_ids(overlay_node(l, u)).subset_of(block_ids(l) + block_ids(u)),
    decreases u,
{
    lemma_overlay_children_ids(l.children, u.children);
    assert forall|b: Seq<u8>| block_ids(overlay_node(l, u)).contains(b) implies (block_ids(l)
        + block_ids(u)).contains(b) by {
        if kids_ids(overlay_node(l, u).children).contains(b) {
            assert((kids_ids(l.children) + kids_ids(u.children)).contains(b));
        }
    }
}

/// Every block id referenced after overlaying children sequences comes from
/// one of the two sides.
pub proof fn lemma_overlay_children_ids(lc: Seq<NodeV>, uc: Seq<NodeV>)
    ensures
        kids_ids(overlay_children(lc, uc)).subset_of(kids_ids(lc) + kids_ids(uc)),
    decreases uc,
{
    if uc.len() > 0 {
        let u = uc[0];
        let j = find_child(lc, u.name);
        lemma_find_child(lc, u.name);
        let lc2 = if u.whiteout {
            if j >= 0 {
                lc.remove(j)
            } else {
                lc
            }
        } else if j == -1 {
            lc.push(with_overlay(u, Overlay::UpperAddition))
        } else if u.is_dir && u.opaque {
            lc.update(j, with_overlay(u, Overlay::UpperOpaque))
        } else if u.is_dir && lc[j].is_dir {
            lc.update(j, overlay_node(lc[j], u))
        } else {
            lc.update(j, with_overlay(u, Overlay::UpperModification))
        };
        if u.whiteout {
            if j >= 0 {
                lemma_kids_ids_remove(lc, j);
            }
        } else if j == -1 {
            lemma_with_overlay_ids(u, Overlay::UpperAddition);
            lemma_kids_ids_push(lc, with_overlay(u, Overlay::UpperAddition));
        } else if u.is_dir && u.opaque {
            lemma_with_overlay_ids(u, Overlay::UpperOpaque);
            lemma_kids_ids_update(lc, j, with_overlay(u, Overlay::UpperOpaque));
        } else if u.is_dir && lc[j].is_dir {
            lemma_overlay_node_ids(lc[j], u);
            lemma_kids_ids_update(lc, j, overlay_node(lc[j], u));
            lemma_kids_ids_elem(lc, j);
        } else {
            lemma_with_overlay_ids(u, Overlay::UpperModification);
            lemma_kids_ids_update(lc, j, with_overlay(u, Overlay::UpperModification));
        }
        assert(kids_ids(lc2).subset_of(kids_ids(lc) + block_ids(u)));
        lemma_overlay_children_ids(lc2, uc.drop_first());
        lemma_kids_ids_elem(uc, 0);
        assert(kids_ids(uc.drop_first()).subset_of(kids_ids(uc))) by {
            assert(kids_ids(uc) == block_ids(uc[0]) + kids_ids(uc.drop_first()));
        }
        assert(block_ids(u).subset_of(kids_ids(uc)));
    }
}

/// A rooted tree of one layer, or the accumulator of a merge in progress.
pub struct Tree {
    /// The root directory.
    pub root: Node,
}

impl Tree {
    /// Apply the overlay semantics of `upper` onto `self`.
    pub fn merge_overlay(self, upper: Tree) -> (r: Tree)
        ensures
            r.root@ == overlay_node(self.root@, upper.root@),
    {
        Tree { root: merge_nodes(self.root, upper.root) }
    }
}

} // verus!
