//! The tree traversal builder: folds a depth-annotated, error-interleaved
//! stream of filesystem entries into a size-annotated tree, without holding
//! more than one open ancestor chain of per-depth accumulators at a time.
//!
//! The tree is an arena of nodes, each holding its [`EntryData`] and the
//! index of its parent; node 0 is a synthetic root whose children are the
//! walked root paths. A directory's size is finalized the moment the
//! traversal departs its subtree: the per-depth accumulators live on a
//! stack, pushed when the stream steps down into a directory and folded
//! back into the parent's accumulator when it steps back out.

use crate::common::spec_clip_u128;
use crate::common::spec_clip_u64;
use crate::common::sat_add_u128;
use crate::common::sat_add_u64;
use crate::common::elapsed_millis;
use crate::common::get_size_or_panic;
use crate::common::instant_now;
use crate::common::Throttle;
use crate::fs_walk::entry_file_size;
use crate::fs_walk::record_of_entry;
pub use crate::fs_walk::RootWalk;
use crate::fs_walk::spec_counted_size;
use crate::fs_walk::spec_seen_after;
use crate::fs_walk::spec_size_error;
use crate::fs_walk::EntryRecord;
use crate::fs_walk::IoError;
use crate::fs_walk::WalkOptions;
use crate::fs_walk::Walker;
use crate::inodefilter::InodeFilter;
use vstd::prelude::*;

verus! {

/// A stable handle to one node of a [`Tree`], valid only against the tree
/// it came from.
pub type TreeIndex = usize;

/// What one tree node records about its filesystem entry.
#[derive(Debug, PartialEq, Eq, Clone)]
pub struct EntryData {
    /// The file name of the entry; the walked root path for a root entry;
    /// empty for the synthetic root node.
    pub name: String,
    /// The entry's size in bytes. For a directory, the aggregated size of
    /// all children.
    pub size: u128,
    /// Seconds since the epoch of the last modification; 0 when unknown.
    pub mtime: u64,
    /// Set when the entry's metadata or size could not be obtained.
    pub metadata_io_error: bool,
}

impl EntryData {
    /// An empty node: no name, no size, epoch mtime, no error.
    pub fn default() -> (d: EntryData)
        ensures
            d.name@ == Seq::<char>::empty(),
            d.size == 0,
            d.mtime == 0,
            !d.metadata_io_error,
    {
        EntryData { name: String::new(), size: 0, mtime: 0, metadata_io_error: false }
    }
}

/// One node of a size tree: its data and the index of its parent. Only the
/// synthetic root has no parent; every other node's parent comes earlier in
/// the arena.
#[derive(Debug, PartialEq, Eq, Clone)]
pub struct TreeNode {
    pub data: EntryData,
    pub parent: Option<TreeIndex>,
}

/// A tree of filesystem entries, stored as an arena: node 0 is the
/// synthetic root, and each non-root node points to its parent.
#[derive(Debug, PartialEq, Eq, Clone)]
pub struct Tree {
    pub nodes: Vec<TreeNode>,
}

/// Whether a node names `p` as its parent.
pub open spec fn parent_is(n: TreeNode, p: int) -> bool {
    n.parent matches Some(q) && q as int == p
}

/// Whether node `k` is a child of node `p`.
pub open spec fn is_child_of(nodes: Seq<TreeNode>, k: int, p: int) -> bool {
    &&& 0 <= k < nodes.len()
    &&& parent_is(nodes[k], p)
}

/// A well-formed arena: node 0 is the parentless root, and every other
/// node's parent is an earlier node.
pub open spec fn tree_wf(nodes: Seq<TreeNode>) -> bool {
    &&& nodes.len() >= 1
    &&& nodes[0].parent is None
    &&& forall|i: int|
        1 <= i < nodes.len() ==> ((#[trigger] nodes[i].parent) matches Some(p) && (p as int) < i)
}

/// The summed sizes of the children of `p` among the first `upto` nodes.
pub open spec fn child_sum(nodes: Seq<TreeNode>, p: int, upto: int) -> int
    decreases upto,
{
    if upto <= 0 {
        0
    } else {
        child_sum(nodes, p, upto - 1) + if is_child_of(nodes, upto - 1, p) {
            nodes[upto - 1].data.size as int
        } else {
            0
        }
    }
}

/// Whether node `p` has at least one child.
pub open spec fn has_child(nodes: Seq<TreeNode>, p: int) -> bool {
    exists|k: int| is_child_of(nodes, k, p)
}

/// Every non-root node with at least one child holds exactly the sum of
/// its children's sizes.
pub open spec fn sizes_consistent(nodes: Seq<TreeNode>) -> bool {
    forall|p: int|
        1 <= p < nodes.len() && #[trigger] has_child(nodes, p) ==> nodes[p].data.size as int
            == child_sum(nodes, p, nodes.len() as int)
}

/// The summed values of a stack of per-depth accumulators.
pub open spec fn seq_sum_u128(s: Seq<u128>) -> int
    decreases s.len(),
{
    if s.len() == 0 {
        0
    } else {
        seq_sum_u128(s.drop_last()) + s.last()
    }
}

/// Appending a node does not change child sums over the existing prefix.
proof fn lemma_child_sum_push(nodes: Seq<TreeNode>, n: TreeNode, p: int, upto: int)
    requires
        0 <= upto <= nodes.len(),
    ensures
        child_sum(nodes.push(n), p, upto) == child_sum(nodes, p, upto),
    decreases upto,
{
    if upto > 0 {
        lemma_child_sum_push(nodes, n, p, upto - 1);
        assert(nodes.push(n)[upto - 1] == nodes[upto - 1]);
    }
}

/// Appending a node adds exactly its size to its parent's child sum, and
/// nothing to any other node's.
proof fn lemma_child_sum_push_full(nodes: Seq<TreeNode>, n: TreeNode, p: int)
    ensures
        child_sum(nodes.push(n), p, nodes.len() as int + 1) == child_sum(nodes, p, nodes.len() as int)
            + if parent_is(n, p) {
            n.data.size as int
        } else {
            0
        },
{
    lemma_child_sum_push(nodes, n, p, nodes.len() as int);
    assert(nodes.push(n)[nodes.len() as int] == n);
}

/// Replacing one node, without changing its parent, moves only its own
/// parent's child sum, by exactly the size difference.
proof fn lemma_child_sum_update(nodes: Seq<TreeNode>, u: int, nd: TreeNode, p: int, upto: int)
    requires
        0 <= u < nodes.len(),
        nodes[u].parent == nd.parent,
        0 <= upto <= nodes.len(),
    ensures
        child_sum(nodes.update(u, nd), p, upto) == child_sum(nodes, p, upto) + if u < upto
            && is_child_of(nodes, u, p) {
            nd.data.size - nodes[u].data.size
        } else {
            0
        },
    decreases upto,
{
    if upto > 0 {
        lemma_child_sum_update(nodes, u, nd, p, upto - 1);
        if upto - 1 != u {
            assert(nodes.update(u, nd)[upto - 1] == nodes[upto - 1]);
        }
    }
}

/// Appending a node gives children only to its own parent.
proof fn lemma_has_child_push(nodes: Seq<TreeNode>, n: TreeNode, p: int)
    ensures
        has_child(nodes.push(n), p) <==> (has_child(nodes, p) || parent_is(n, p)),
{
    if has_child(nodes, p) {
        let k = choose|k: int| is_child_of(nodes, k, p);
        assert(is_child_of(nodes.push(n), k, p));
    }
    if parent_is(n, p) {
        assert(is_child_of(nodes.push(n), nodes.len() as int, p));
    }
    if has_child(nodes.push(n), p) && !parent_is(n, p) {
        let k = choose|k: int| is_child_of(nodes.push(n), k, p);
        assert(k < nodes.len());
        assert(is_child_of(nodes, k, p));
    }
}

/// Replacing one node, without changing its parent, changes nobody's set
/// of children.
proof fn lemma_has_child_update(nodes: Seq<TreeNode>, u: int, nd: TreeNode, p: int)
    requires
        0 <= u < nodes.len(),
        nodes[u].parent == nd.parent,
    ensures
        has_child(nodes.update(u, nd), p) <==> has_child(nodes, p),
{
    if has_child(nodes, p) {
        let k = choose|k: int| is_child_of(nodes, k, p);
        assert(is_child_of(nodes.update(u, nd), k, p));
    }
    if has_child(nodes.update(u, nd), p) {
        let k = choose|k: int| is_child_of(nodes.update(u, nd), k, p);
        assert(is_child_of(nodes, k, p));
    }
}

/// What one tree node looks like, as the fold prescribes it: the views of
/// its name and mtime, its metadata-error flag, and its parent's index
/// (`None` only for the synthetic root). Sizes are not part of the shape:
/// a directory's size is finalized only when traversal departs its
/// subtree, and is governed by [`sizes_consistent`] instead.
pub struct NodeShape {
    pub name: Seq<char>,
    pub mtime: int,
    pub metadata_io_error: bool,
    pub parent: Option<int>,
    /// The bytes the entry contributed when its node was created. A node
    /// that never becomes a parent keeps exactly this size; a parent's
    /// size is the finalized sum of its children instead.
    pub size: int,
}

/// Whether an arena carries exactly the prescribed names, mtimes, error
/// flags and parent links, node for node.
#[verifier::opaque]
pub open spec fn nodes_match_shape(nodes: Seq<TreeNode>, shape: Seq<NodeShape>) -> bool {
    &&& nodes.len() == shape.len()
    &&& forall|i: int|
        0 <= i < nodes.len() ==> {
            &&& (#[trigger] nodes[i]).data.name@ == shape[i].name
            &&& nodes[i].data.mtime as int == shape[i].mtime
            &&& nodes[i].data.metadata_io_error == shape[i].metadata_io_error
            &&& (match (nodes[i].parent, shape[i].parent) {
                (Some(a), Some(b)) => a as int == b,
                (None, None) => true,
                _ => false,
            })
        }
}

/// A size-only update leaves the shape of the arena intact.
proof fn lemma_match_after_size_update(
    nodes0: Seq<TreeNode>,
    nodes: Seq<TreeNode>,
    shape: Seq<NodeShape>,
    u: int,
)
    requires
        nodes_match_shape(nodes0, shape),
        nodes.len() == nodes0.len(),
        0 <= u < nodes0.len(),
        forall|k: int| 0 <= k < nodes0.len() && k != u ==> nodes[k] == nodes0[k],
        nodes[u].data.name == nodes0[u].data.name,
        nodes[u].data.mtime == nodes0[u].data.mtime,
        nodes[u].data.metadata_io_error == nodes0[u].data.metadata_io_error,
        nodes[u].parent == nodes0[u].parent,
    ensures
        nodes_match_shape(nodes, shape),
{
    reveal(nodes_match_shape);
    assert forall|i: int| 0 <= i < nodes.len() implies {
        &&& (#[trigger] nodes[i]).data.name@ == shape[i].name
        &&& nodes[i].data.mtime as int == shape[i].mtime
        &&& nodes[i].data.metadata_io_error == shape[i].metadata_io_error
        &&& (match (nodes[i].parent, shape[i].parent) {
            (Some(a), Some(b)) => a as int == b,
            (None, None) => true,
            _ => false,
        })
    } by {
        if i != u {
            assert(nodes[i] == nodes0[i]);
        }
    }
}

/// Appending one node whose fields carry the appended shape keeps the
/// arena matching.
proof fn lemma_match_after_push(
    nodes0: Seq<TreeNode>,
    shape0: Seq<NodeShape>,
    n: TreeNode,
    sh: NodeShape,
)
    requires
        nodes_match_shape(nodes0, shape0),
        n.data.name@ == sh.name,
        n.data.mtime as int == sh.mtime,
        n.data.metadata_io_error == sh.metadata_io_error,
        (match (n.parent, sh.parent) {
            (Some(a), Some(b)) => a as int == b,
            (None, None) => true,
            _ => false,
        }),
    ensures
        nodes_match_shape(nodes0.push(n), shape0.push(sh)),
{
    reveal(nodes_match_shape);
    let nodes = nodes0.push(n);
    let shape = shape0.push(sh);
    assert forall|i: int| 0 <= i < nodes.len() implies {
        &&& (#[trigger] nodes[i]).data.name@ == shape[i].name
        &&& nodes[i].data.mtime as int == shape[i].mtime
        &&& nodes[i].data.metadata_io_error == shape[i].metadata_io_error
        &&& (match (nodes[i].parent, shape[i].parent) {
            (Some(a), Some(b)) => a as int == b,
            (None, None) => true,
            _ => false,
        })
    } by {
        if i < nodes0.len() {
            assert(nodes[i] == nodes0[i]);
            assert(shape[i] == shape0[i]);
        } else {
            assert(nodes[i] == n);
            assert(shape[i] == sh);
        }
    }
}

/// Whether every node that never became a parent holds exactly the bytes
/// its entry contributed at creation. Together with [`sizes_consistent`]
/// and the root's child sum this determines every node's size.
#[verifier::opaque]
pub open spec fn childless_sizes_match(nodes: Seq<TreeNode>, shape: Seq<NodeShape>) -> bool {
    forall|i: int|
        0 <= i < nodes.len() && i < shape.len() && !has_child(nodes, i) ==> (
        #[trigger] nodes[i]).data.size as int == shape[i].size
}

/// A size update on a node that has children cannot break the
/// childless-size property.
proof fn lemma_childless_after_update(
    nodes0: Seq<TreeNode>,
    nodes: Seq<TreeNode>,
    shape: Seq<NodeShape>,
    u: int,
)
    requires
        childless_sizes_match(nodes0, shape),
        nodes.len() == nodes0.len(),
        0 <= u < nodes0.len(),
        forall|k: int| 0 <= k < nodes0.len() && k != u ==> nodes[k] == nodes0[k],
        nodes[u].parent == nodes0[u].parent,
        has_child(nodes0, u),
    ensures
        childless_sizes_match(nodes, shape),
{
    reveal(childless_sizes_match);
    assert(nodes =~= nodes0.update(u, nodes[u]));
    assert forall|i: int|
        0 <= i < nodes.len() && i < shape.len() && !has_child(nodes, i) implies (
    #[trigger] nodes[i]).data.size as int == shape[i].size by {
        lemma_has_child_update(nodes0, u, nodes[u], i);
        assert(!has_child(nodes0, i));
        assert(i != u);
        assert(nodes[i] == nodes0[i]);
    }
}

/// Appending a node whose creation size carries the appended shape keeps
/// the childless-size property: the new node is childless and exact, and
/// its parent leaves the childless domain.
proof fn lemma_childless_after_push(
    nodes0: Seq<TreeNode>,
    shape0: Seq<NodeShape>,
    n: TreeNode,
    sh: NodeShape,
)
    requires
        childless_sizes_match(nodes0, shape0),
        nodes0.len() == shape0.len(),
        n.data.size as int == sh.size,
    ensures
        childless_sizes_match(nodes0.push(n), shape0.push(sh)),
{
    reveal(childless_sizes_match);
    let nodes = nodes0.push(n);
    let shape = shape0.push(sh);
    assert forall|i: int|
        0 <= i < nodes.len() && i < shape.len() && !has_child(nodes, i) implies (
    #[trigger] nodes[i]).data.size as int == shape[i].size by {
        lemma_has_child_push(nodes0, n, i);
        if i < nodes0.len() {
            assert(!has_child(nodes0, i));
            assert(nodes[i] == nodes0[i]);
            if i < shape0.len() {
                assert(shape[i] == shape0[i]);
            }
        } else {
            assert(nodes[i] == n);
            assert(shape[i] == sh);
        }
    }
}

/// The mtime one entry carries into its node: its modification time, or 0
/// when it failed or was never fetched.
pub open spec fn tree_entry_mtime(e: EntryRecord) -> int {
    match e.metadata {
        Some(Ok(m)) => match m.modified {
            Ok(t) => t as int,
            Err(_) => 0,
        },
        _ => 0,
    }
}

/// The shape of the node one yielded entry becomes: named by the root
/// path at depth 0 and by its file name below, carrying its mtime and
/// whether any of its metadata failed, under the given parent.
pub open spec fn tree_entry_shape(
    o: WalkOptions,
    root_device_id: u64,
    root_path: Seq<char>,
    e: EntryRecord,
    seen: Set<u128>,
    parent: int,
) -> NodeShape {
    NodeShape {
        name: if e.depth == 0 {
            root_path
        } else {
            e.file_name@
        },
        mtime: tree_entry_mtime(e),
        metadata_io_error: tree_entry_errors(o, root_device_id, e, seen) > 0,
        parent: Some(parent),
        size: tree_item_size(o, root_device_id, e, seen),
    }
}

/// The observable state of the tree fold over a stream: whether the stream
/// has stayed within the walker's ordering contract and the entry counter's
/// range, the depth and counted size of the previous entry, whether the
/// fold has only ever stepped down into zero-contribution entries, the
/// hard-link filter, the error and entry counts, and the shape of the tree
/// built so far: one node per item that creates one, each with its name,
/// mtime, error flag and parent, tracked through the open ancestor chain.
pub struct TreeFoldState {
    /// No ordering violation or entry-counter overflow so far.
    pub ok: bool,
    /// Depth of the previous successfully yielded entry.
    pub prev_depth: int,
    /// Whether any entry node exists yet.
    pub started: bool,
    /// Every entry that was stepped down into had contributed 0 bytes, as
    /// a directory does; sizes are then exact subtree sums.
    pub clean: bool,
    /// The counted size of the previous successfully yielded entry.
    pub prev_counted: int,
    /// The hard-link filter contents.
    pub seen: Set<u128>,
    /// Accumulated io errors.
    pub errors: int,
    /// Accumulated traversed entries.
    pub entries: int,
    /// The shape of every node so far, in arena order: the synthetic
    /// root, then one node per yielded entry, plus one placeholder per
    /// enumeration error arriving while the walk position is at root
    /// depth.
    pub shape: Seq<NodeShape>,
    /// The indices of the open ancestors, outermost first; the synthetic
    /// root is always open.
    pub spine: Seq<int>,
    /// The index of the previous entry's node.
    pub prev_node: int,
}

/// The initial fold state: nothing walked yet, only the synthetic root.
pub open spec fn tree_fold_init() -> TreeFoldState {
    TreeFoldState {
        ok: true,
        prev_depth: 0,
        started: false,
        clean: true,
        prev_counted: 0,
        seen: Set::empty(),
        errors: 0,
        entries: 0,
        shape: seq![
            NodeShape {
                name: Seq::empty(),
                mtime: 0,
                metadata_io_error: false,
                parent: None,
                size: 0,
            },
        ],
        spine: seq![0int],
        prev_node: 0,
    }
}

/// The bytes an entry contributes to the tree, given the filter state.
pub open spec fn tree_item_size(
    o: WalkOptions,
    root_device_id: u64,
    e: EntryRecord,
    seen: Set<u128>,
) -> int {
    match e.metadata {
        Some(Ok(m)) => spec_counted_size(o, root_device_id, m, seen) as int,
        _ => 0,
    }
}

/// The io errors one successfully yielded entry contributes: one for
/// failed metadata, and for stat'ed entries one per failed size fetch and
/// one per failed mtime fetch.
pub open spec fn tree_entry_errors(
    o: WalkOptions,
    root_device_id: u64,
    e: EntryRecord,
    seen: Set<u128>,
) -> int {
    match e.metadata {
        None => 0,
        Some(Err(_)) => 1,
        Some(Ok(m)) => (if spec_size_error(o, root_device_id, m, seen) {
            1int
        } else {
            0int
        }) + (if m.modified is Err {
            1int
        } else {
            0int
        }),
    }
}

/// The filter state after one successfully yielded entry.
pub open spec fn tree_entry_seen(o: WalkOptions, e: EntryRecord, seen: Set<u128>) -> Set<u128> {
    match e.metadata {
        Some(Ok(m)) => spec_seen_after(o, m, seen),
        _ => seen,
    }
}

/// How one stream item advances the tree fold. An enumeration error counts
/// one error and keeps the walk position; a yielded entry must not be more
/// than one level deeper than the previous one (and no deeper than the
/// root before any entry was yielded), or the walker has broken its
/// ordering contract and the fold stops; the entry counter must not
/// overflow. The fold stays clean only while every step down follows an
/// entry that contributed nothing.
pub open spec fn tree_step(
    o: WalkOptions,
    root_device_id: u64,
    root_path: Seq<char>,
    st: TreeFoldState,
    item: Result<EntryRecord, IoError>,
) -> TreeFoldState {
    if !st.ok {
        st
    } else if st.entries >= u64::MAX {
        TreeFoldState { ok: false, ..st }
    } else {
        match item {
            Err(_) => TreeFoldState {
                entries: st.entries + 1,
                errors: st.errors + 1,
                shape: if st.prev_depth == 0 {
                    st.shape.push(
                        NodeShape {
                            name: root_path,
                            mtime: 0,
                            metadata_io_error: false,
                            parent: Some(st.spine.last()),
                            size: 0,
                        },
                    )
                } else {
                    st.shape
                },
                ..st
            },
            Ok(e) => {
                let d = e.depth as int;
                if d > st.prev_depth + 1 || (d == st.prev_depth + 1 && !st.started) {
                    TreeFoldState { ok: false, ..st }
                } else {
                    let spine = if d == st.prev_depth + 1 {
                        st.spine.push(st.prev_node)
                    } else {
                        st.spine.take(d + 1)
                    };
                    TreeFoldState {
                        ok: true,
                        prev_depth: d,
                        started: true,
                        clean: st.clean && (d <= st.prev_depth || st.prev_counted == 0),
                        prev_counted: tree_item_size(o, root_device_id, e, st.seen),
                        seen: tree_entry_seen(o, e, st.seen),
                        errors: st.errors + tree_entry_errors(o, root_device_id, e, st.seen),
                        entries: st.entries + 1,
                        shape: st.shape.push(
                            tree_entry_shape(
                                o,
                                root_device_id,
                                root_path,
                                e,
                                st.seen,
                                spine.last(),
                            ),
                        ),
                        spine,
                        prev_node: st.shape.len() as int,
                    }
                }
            },
        }
    }
}

/// The tree fold over a whole stream, item by item from the front.
pub open spec fn tree_fold_items(
    o: WalkOptions,
    root_device_id: u64,
    root_path: Seq<char>,
    st: TreeFoldState,
    items: Seq<Result<EntryRecord, IoError>>,
) -> TreeFoldState
    decreases items.len(),
{
    if items.len() == 0 {
        st
    } else {
        tree_fold_items(
            o,
            root_device_id,
            root_path,
            tree_step(o, root_device_id, root_path, st, items.first()),
            items.drop_first(),
        )
    }
}

/// The tree fold over a sequence of walked roots: a root whose device id
/// could not be resolved counts one error and its entries are never read;
/// any other root's stream is folded under its own device id.
pub open spec fn tree_fold_roots(
    o: WalkOptions,
    st: TreeFoldState,
    roots: Seq<RootWalk>,
) -> TreeFoldState
    decreases roots.len(),
{
    if roots.len() == 0 {
        st
    } else {
        let r = roots.first();
        let st1 = match r.device_id {
            Err(_) => TreeFoldState { errors: st.errors + 1, ..st },
            Ok(dev) => tree_fold_items(o, dev, r.path@, st, r.entries@),
        };
        tree_fold_roots(o, st1, roots.drop_first())
    }
}

/// A parentless node contributes nothing to anyone's child sum.
proof fn lemma_no_child_sum_zero(nodes: Seq<TreeNode>, p: int, upto: int)
    requires
        forall|k: int| !is_child_of(nodes, k, p),
        0 <= upto <= nodes.len(),
    ensures
        child_sum(nodes, p, upto) == 0,
    decreases upto,
{
    if upto > 0 {
        lemma_no_child_sum_zero(nodes, p, upto - 1);
    }
}

/// Pushing onto an accumulator stack grows its sum by the pushed value.
proof fn lemma_seq_sum_push(s: Seq<u128>, v: u128)
    ensures
        seq_sum_u128(s.push(v)) == seq_sum_u128(s) + v,
{
    assert(s.push(v).drop_last() =~= s);
}

/// The in-progress state of one tree build: the arena, the walk position
/// (previous node and depth, current parent), the per-depth accumulator
/// stack, the counters, and the hard-link filter, together with the ghost
/// spine of still-open ancestors, the ghost fold state the exec fields
/// follow, and the ghost total of all counted bytes so far.
struct TreeBuilder {
    tree: Tree,
    previous_node_idx: TreeIndex,
    parent_node_idx: TreeIndex,
    sizes_per_depth_level: Vec<u128>,
    current_size_at_depth: u128,
    previous_depth: usize,
    entries_traversed: u64,
    io_errors: u64,
    inodes: InodeFilter,
    spine: Ghost<Seq<usize>>,
    st: Ghost<TreeFoldState>,
    mass: Ghost<int>,
}

impl TreeBuilder {
    /// The structural invariant of a build: a well-formed arena; the spine
    /// of open ancestors descending from the root, one accumulator per open
    /// level; counters following the fold state; all accumulators together
    /// bounded by the counted bytes so far; and, while the fold is clean,
    /// the accumulators and every closed parent holding exact child sums.
    spec fn inv_core(&self) -> bool {
        let nodes = self.tree.nodes@;
        let spine = self.spine@;
        let stack = self.sizes_per_depth_level@;
        &&& tree_wf(nodes)
        &&& nodes[0].data.name@ == Seq::<char>::empty()
        &&& spine.len() == stack.len() + 1
        &&& spine[0] == 0usize
        &&& forall|j: int| 0 <= j < spine.len() ==> (#[trigger] spine[j]) < nodes.len()
        &&& forall|j: int| 0 <= j < spine.len() - 1 ==> spine[j] < #[trigger] spine[j + 1]
        &&& forall|j: int|
            1 <= j < spine.len() ==> is_child_of(nodes, #[trigger] spine[j] as int, spine[j - 1] as int)
        &&& self.parent_node_idx == spine.last()
        &&& self.previous_node_idx < nodes.len()
        &&& self.mass@ >= 0
        &&& self.current_size_at_depth + seq_sum_u128(stack) <= self.mass@
        &&& self.mass@ <= self.st@.entries * (u64::MAX as int)
        &&& self.st@.entries == self.entries_traversed as int
        &&& self.io_errors as int == spec_clip_u64(self.st@.errors)
        &&& self.st@.errors >= 0
        &&& self.st@.seen == self.inodes@
        &&& (self.st@.clean ==> self.clean_sums())
    }

    /// The exact-sum package that holds while the fold is clean: the
    /// current accumulator is the child sum of the deepest open node; each
    /// stacked accumulator is the child sum of its open node, less the size
    /// currently written at its one still-open child; and every node off
    /// the spine that has children holds exactly their sum.
    spec fn clean_sums(&self) -> bool {
        let nodes = self.tree.nodes@;
        let spine = self.spine@;
        let stack = self.sizes_per_depth_level@;
        &&& self.current_size_at_depth as int == child_sum(
            nodes,
            spine.last() as int,
            nodes.len() as int,
        )
        &&& forall|j: int|
            0 <= j < stack.len() ==> (#[trigger] stack[j]) as int == child_sum(
                nodes,
                spine[j] as int,
                nodes.len() as int,
            ) - nodes[spine[j + 1] as int].data.size
        &&& forall|p: int|
            1 <= p < nodes.len() && #[trigger] has_child(nodes, p) && !spine.contains(p as usize)
                ==> nodes[p].data.size as int == child_sum(nodes, p, nodes.len() as int)
    }

    /// The invariant between two stream items: the core invariant, the
    /// walk position agreeing with the fold state, and the previous node
    /// being a childless child of the current parent, holding exactly the
    /// size the fold recorded for it.
    spec fn wf(&self) -> bool {
        let nodes = self.tree.nodes@;
        &&& self.inv_core()
        &&& self.previous_depth == self.sizes_per_depth_level@.len()
        &&& self.tree.nodes@.len() == self.st@.shape.len()
        &&& nodes_match_shape(nodes, self.st@.shape)
        &&& childless_sizes_match(nodes, self.st@.shape)
        &&& self.st@.shape[0].size == 0
        &&& (forall|j: int|
            1 <= j < self.spine@.len() ==> has_child(nodes, #[trigger] self.spine@[j] as int))
        &&& self.spine@.len() == self.st@.spine.len()
        &&& (forall|j: int|
            0 <= j < self.spine@.len() ==> (#[trigger] self.spine@[j]) as int == self.st@.spine[j])
        &&& self.previous_node_idx as int == self.st@.prev_node
        &&& self.st@.ok
        &&& self.st@.prev_depth == self.previous_depth as int
        &&& self.st@.started == (self.previous_node_idx != 0)
        &&& (self.st@.started ==> {
            &&& is_child_of(nodes, self.previous_node_idx as int, self.parent_node_idx as int)
            &&& (forall|k: int| !is_child_of(nodes, k, self.previous_node_idx as int))
            &&& (forall|j: int|
                0 <= j < self.spine@.len() ==> #[trigger] self.spine@[j] < self.previous_node_idx)
            &&& nodes[self.previous_node_idx as int].data.size as int == self.st@.prev_counted
        })
        &&& (!self.st@.started ==> {
            &&& self.st@.prev_counted == 0
            &&& self.previous_depth == 0
            &&& self.parent_node_idx == 0
            &&& self.previous_node_idx == 0
        })
    }

    /// A fresh build: a tree holding only the synthetic root, the walk
    /// positioned at it, and the initial fold state.
    fn new() -> (b: TreeBuilder)
        ensures
            b.wf(),
            b.st@ == tree_fold_init(),
            b.tree.nodes@.len() == 1,
    {
        let mut nodes: Vec<TreeNode> = Vec::new();
        nodes.push(TreeNode { data: EntryData::default(), parent: None });
        let ghost initial_spine: Seq<usize> = seq![0usize];
        let b = TreeBuilder {
            tree: Tree { nodes },
            previous_node_idx: 0,
            parent_node_idx: 0,
            sizes_per_depth_level: Vec::new(),
            current_size_at_depth: 0,
            previous_depth: 0,
            entries_traversed: 0,
            io_errors: 0,
            inodes: InodeFilter::new(),
            spine: Ghost(initial_spine),
            st: Ghost(tree_fold_init()),
            mass: Ghost(0),
        };
        proof {
            assert(b.spine@.last() == 0usize);
            assert(seq_sum_u128(b.sizes_per_depth_level@) == 0);
            assert forall|p: int| 1 <= p < b.tree.nodes@.len() && #[trigger] has_child(
                b.tree.nodes@,
                p,
            ) && !b.spine@.contains(p as usize) implies b.tree.nodes@[p].data.size as int
                == child_sum(b.tree.nodes@, p, b.tree.nodes@.len() as int) by {}
            assert(child_sum(b.tree.nodes@, 0, 0) == 0);
            assert(!is_child_of(b.tree.nodes@, 0, 0));
            assert(child_sum(b.tree.nodes@, 0, 1) == 0);
            reveal(nodes_match_shape);
            assert(nodes_match_shape(b.tree.nodes@, b.st@.shape));
            reveal(childless_sizes_match);
            assert(childless_sizes_match(b.tree.nodes@, b.st@.shape));
        }
        b
    }

    /// Record the io error of a root whose device id could not be
    /// resolved; the walk position does not move.
    fn add_device_error(&mut self)
        requires
            old(self).wf(),
        ensures
            final(self).wf(),
            final(self).st@ == (TreeFoldState { errors: old(self).st@.errors + 1, ..old(self).st@ }),
            final(self).tree == old(self).tree,
            final(self).entries_traversed == old(self).entries_traversed,
    {
        self.io_errors = sat_add_u64(self.io_errors, 1);
        proof {
            self.st = Ghost(TreeFoldState { errors: self.st@.errors + 1, ..self.st@ });
        }
    }

    /// Close the deepest open level: write the current accumulator into
    /// the deepest open node, fold it into the accumulator below, and step
    /// the open chain up one level. Everything else stays as it was.
    fn close_level(&mut self)
        requires
            old(self).inv_core(),
            old(self).sizes_per_depth_level@.len() >= 1,
        ensures
            final(self).inv_core(),
            final(self).sizes_per_depth_level@ == old(self).sizes_per_depth_level@.drop_last(),
            final(self).spine@ == old(self).spine@.drop_last(),
            final(self).parent_node_idx == final(self).spine@.last(),
            final(self).tree.nodes@.len() == old(self).tree.nodes@.len(),
            forall|k: int|
                0 <= k < old(self).tree.nodes@.len() && k != old(self).spine@.last() as int
                    ==> final(self).tree.nodes@[k] == old(self).tree.nodes@[k],
            final(self).tree.nodes@[old(self).spine@.last() as int].parent == old(
                self,
            ).tree.nodes@[old(self).spine@.last() as int].parent,
            final(self).tree.nodes@[old(self).spine@.last() as int].data.size == old(
                self,
            ).current_size_at_depth,
            final(self).tree.nodes@[old(self).spine@.last() as int].data.name == old(
                self,
            ).tree.nodes@[old(self).spine@.last() as int].data.name,
            final(self).tree.nodes@[old(self).spine@.last() as int].data.mtime == old(
                self,
            ).tree.nodes@[old(self).spine@.last() as int].data.mtime,
            final(self).tree.nodes@[old(self).spine@.last() as int].data.metadata_io_error == old(
                self,
            ).tree.nodes@[old(self).spine@.last() as int].data.metadata_io_error,
            final(self).current_size_at_depth as int == old(self).current_size_at_depth as int
                + old(self).sizes_per_depth_level@.last() as int,
            forall|p: int|
                has_child(final(self).tree.nodes@, p) <==> #[trigger] has_child(
                    old(self).tree.nodes@,
                    p,
                ),
            final(self).st == old(self).st,
            final(self).mass == old(self).mass,
            final(self).inodes == old(self).inodes,
            final(self).entries_traversed == old(self).entries_traversed,
            final(self).io_errors == old(self).io_errors,
            final(self).previous_node_idx == old(self).previous_node_idx,
            final(self).previous_depth == old(self).previous_depth,
    {
        let ghost nodes0 = self.tree.nodes@;
        let ghost spine0 = self.spine@;
        let ghost stack0 = self.sizes_per_depth_level@;
        let closing = self.parent_node_idx;
        let v = self.current_size_at_depth;
        proof {
            assert(spine0.len() >= 2);
            assert(spine0[spine0.len() - 1] == closing);
            assert(is_child_of(nodes0, closing as int, spine0[spine0.len() - 2] as int));
        }
        self.tree.nodes[closing].data.size = v;
        let ghost nodes1 = self.tree.nodes@;
        proof {
            let nd = nodes1[closing as int];
            assert(nodes1 == nodes0.update(closing as int, nd));
            assert(nd.parent == nodes0[closing as int].parent);
        }
        let popped = pop_or_panic(&mut self.sizes_per_depth_level);
        proof {
            assert(v + popped <= self.mass@) by {
                assert(seq_sum_u128(stack0) == seq_sum_u128(stack0.drop_last()) + popped);
                assert(seq_sum_u128(stack0.drop_last()) >= 0) by {
                    lemma_seq_sum_nonneg(stack0.drop_last());
                }
            }
            assert(self.mass@ <= (u64::MAX as int) * (u64::MAX as int)) by {
                assert(self.st@.entries * (u64::MAX as int) <= (u64::MAX as int) * (
                u64::MAX as int)) by (nonlinear_arith)
                    requires
                        0 <= self.st@.entries <= u64::MAX as int,
                ;
            }
            assert((u64::MAX as int) * (u64::MAX as int) < u128::MAX as int) by (nonlinear_arith);
        }
        self.current_size_at_depth = v + popped;
        let up = parent_or_panic(&self.tree, closing);
        self.parent_node_idx = up;
        proof {
            self.spine = Ghost(self.spine@.drop_last());
            let nodes = self.tree.nodes@;
            let spine = self.spine@;
            let stack = self.sizes_per_depth_level@;
            assert(spine.last() == spine0[spine0.len() - 2]);
            assert forall|j: int| 1 <= j < spine.len() implies is_child_of(
                nodes,
                #[trigger] spine[j] as int,
                spine[j - 1] as int,
            ) by {
                assert(is_child_of(nodes0, spine0[j] as int, spine0[j - 1] as int));
            }
            assert(seq_sum_u128(stack) == seq_sum_u128(stack0) - popped);
            assert forall|p: int| has_child(self.tree.nodes@, p) <==> #[trigger] has_child(
                nodes0,
                p,
            ) by {
                lemma_has_child_update(nodes0, closing as int, nodes1[closing as int], p);
            }
            if self.st@.clean {
                lemma_close_level_clean(*old(self), *self);
            }
        }
    }

    /// Fold one stream item into the build. Returns `false`, leaving the
    /// build untouched, exactly when the fold stops: the walker broke its
    /// depth-ordering contract or the entry counter would overflow.
    /// Otherwise the build advances by one [`tree_step`]: an enumeration
    /// error counts one error (and, before any entry of a root was seen,
    /// adds a placeholder node for the root path); a yielded entry becomes
    /// a new node under the current parent, named by its file name (or the
    /// root path at depth 0), sized by its counted bytes, carrying its
    /// mtime and whether any of its metadata failed.
    #[verifier::rlimit(100)]
    fn step(
        &mut self,
        o: &WalkOptions,
        device_id: u64,
        root_path: &String,
        item: &Result<EntryRecord, IoError>,
    ) -> (r: bool)
        requires
            old(self).wf(),
        ensures
            r == tree_step(*o, device_id, root_path@, old(self).st@, *item).ok,
            !r ==> *final(self) == *old(self),
            r ==> final(self).wf(),
            r ==> final(self).st@ == tree_step(*o, device_id, root_path@, old(self).st@, *item),
            r ==> match *item {
                Ok(e) => {
                    &&& final(self).tree.nodes@.len() == old(self).tree.nodes@.len() + 1
                    &&& final(self).tree.nodes@.last().data.name == (if e.depth == 0 {
                        *root_path
                    } else {
                        e.file_name
                    })
                    &&& final(self).tree.nodes@.last().data.size as int == tree_item_size(
                        *o,
                        device_id,
                        e,
                        old(self).st@.seen,
                    )
                    &&& final(self).tree.nodes@.last().data.mtime == (match e.metadata {
                        Some(Ok(m)) => match m.modified {
                            Ok(t) => t,
                            Err(_) => 0u64,
                        },
                        _ => 0u64,
                    })
                    &&& final(self).tree.nodes@.last().data.metadata_io_error == (
                    tree_entry_errors(*o, device_id, e, old(self).st@.seen) > 0)
                },
                Err(_) => {
                    &&& (old(self).previous_depth == 0 ==> {
                        &&& final(self).tree.nodes@ == old(self).tree.nodes@.push(
                            final(self).tree.nodes@.last(),
                        )
                        &&& final(self).tree.nodes@.last().data.name == *root_path
                        &&& final(self).tree.nodes@.last().data.size == 0
                    })
                    &&& (old(self).previous_depth != 0 ==> final(self).tree.nodes@ == old(
                        self,
                    ).tree.nodes@)
                },
            },
            r ==> final(self).entries_traversed == old(self).entries_traversed + 1,
    {
        if self.entries_traversed == u64::MAX {
            return false;
        }
        let ghost st0 = self.st@;
        let ghost st1 = tree_step(*o, device_id, root_path@, self.st@, *item);
        proof {
            assert(st1.entries * (u64::MAX as int) <= (st0.entries + 1) * (u64::MAX as int));
            assert((st0.entries + 1) * (u64::MAX as int) == st0.entries * (u64::MAX as int) + (
            u64::MAX as int)) by (nonlinear_arith);
        }
        match item {
            Err(_) => {
                self.entries_traversed = self.entries_traversed + 1;
                self.io_errors = sat_add_u64(self.io_errors, 1);
                proof {
                    self.st = Ghost(st1);
                }
                if self.previous_depth == 0 {
                    let ghost before = *self;
                    let mut data = EntryData::default();
                    data.name = root_path.clone();
                    let n = TreeNode { data, parent: Some(self.parent_node_idx) };
                    self.tree.nodes.push(n);
                    proof {
                        let nodes0 = before.tree.nodes@;
                        let nodes = self.tree.nodes@;
                        lemma_push_wf(nodes0, n);
                        assert forall|k: int|
                            0 <= k < nodes0.len() implies (#[trigger] nodes[k]).parent
                            == nodes0[k].parent by {
                            assert(nodes[k] == nodes0[k]);
                        }
                        lemma_spine_links(nodes0, nodes, self.spine@);
                        if self.st@.started {
                            assert(self.previous_node_idx != 0);
                            assert(parent_is(
                                nodes0[self.previous_node_idx as int],
                                self.parent_node_idx as int,
                            ));
                            assert(nodes0[self.previous_node_idx as int].parent matches Some(q)
                                && (q as int) < self.previous_node_idx as int);
                            assert((self.parent_node_idx as int) < self.previous_node_idx as int);
                            assert forall|k: int| !is_child_of(
                                nodes,
                                k,
                                self.previous_node_idx as int,
                            ) by {
                                if 0 <= k < nodes.len() - 1 {
                                    assert(nodes[k] == nodes0[k]);
                                    assert(!is_child_of(
                                        nodes0,
                                        k,
                                        self.previous_node_idx as int,
                                    ));
                                } else if k == nodes.len() - 1 {
                                    assert(nodes[k].parent == Some(before.parent_node_idx));
                                }
                            }
                            assert(nodes[self.previous_node_idx as int] == nodes0[self.previous_node_idx as int]);
                        }
                        if self.st@.clean {
                            lemma_append_child_clean(before, *self, n);
                        }
                        assert(st1.shape.drop_last() =~= st0.shape);
                        assert(st1.shape.last().parent == Some(st0.spine.last()));
                        assert(st0.spine.last() == st0.spine[st0.spine.len() - 1]);
                        assert(before.spine@[before.spine@.len() - 1] == before.parent_node_idx);
                        lemma_match_after_push(nodes0, st0.shape, n, st1.shape.last());
                        lemma_childless_after_push(nodes0, st0.shape, n, st1.shape.last());
                        assert(st0.shape.push(st1.shape.last()) =~= st1.shape);
                        assert forall|j: int|
                            1 <= j < self.spine@.len() implies has_child(
                            nodes,
                            #[trigger] self.spine@[j] as int,
                        ) by {
                            lemma_has_child_push(nodes0, n, self.spine@[j] as int);
                            assert(has_child(nodes0, before.spine@[j] as int));
                        }
                    }
                }
                true
            },
            Ok(e) => {
                let depth = e.depth;
                if depth > self.previous_depth {
                    if depth != self.previous_depth + 1 || self.previous_node_idx == 0 {
                        return false;
                    }
                }
                self.entries_traversed = self.entries_traversed + 1;
                let mut data = EntryData::default();
                data.name = if depth < 1 {
                    root_path.clone()
                } else {
                    e.file_name.clone()
                };
                let mut file_size: u128 = 0;
                match &e.metadata {
                    Some(Ok(m)) => {
                        let outcome = entry_file_size(o, device_id, m, &mut self.inodes);
                        file_size = outcome.size;
                        if outcome.size_error {
                            self.io_errors = sat_add_u64(self.io_errors, 1);
                            data.metadata_io_error = true;
                        }
                        match m.modified {
                            Ok(t) => {
                                data.mtime = t;
                            },
                            Err(_) => {
                                self.io_errors = sat_add_u64(self.io_errors, 1);
                                data.metadata_io_error = true;
                            },
                        }
                    },
                    Some(Err(_)) => {
                        self.io_errors = sat_add_u64(self.io_errors, 1);
                        data.metadata_io_error = true;
                    },
                    None => {},
                }
                data.size = file_size;
                proof {
                    assert(file_size as int == tree_item_size(*o, device_id, *e, st0.seen));
                    assert(file_size <= u64::MAX);
                    self.mass = Ghost(self.mass@ + file_size as int);
                    self.st = Ghost(st1);
                    lemma_seq_sum_nonneg(self.sizes_per_depth_level@);
                    assert(st1.shape.drop_last() =~= st0.shape);
                    assert(st1.shape.last() == tree_entry_shape(
                        *o,
                        device_id,
                        root_path@,
                        *e,
                        st0.seen,
                        st1.spine.last(),
                    ));
                }
                if depth > self.previous_depth {
                    proof {
                        assert(st1.clean ==> st0.clean && st0.prev_counted == 0);
                        assert(st1.spine == st0.spine.push(st0.prev_node));
                        assert(st1.spine.last() == st0.prev_node);
                        assert forall|j: int|
                            0 <= j < self.spine@.len() implies st1.spine[j] == (
                        #[trigger] self.spine@[j]) as int by {
                            assert(st1.spine[j] == st0.spine[j]);
                        }
                    }
                    self.descend(data, depth);
                } else if depth < self.previous_depth {
                    proof {
                        assert(st1.spine == st0.spine.take(depth as int + 1));
                        assert((depth as int + 1) <= st0.spine.len());
                        assert(st1.spine.last() == st0.spine[depth as int]);
                        assert(st0.spine[depth as int] == self.spine@[depth as int] as int);
                        assert forall|j: int|
                            0 <= j <= depth as int implies st1.spine[j] == (
                        #[trigger] self.spine@[j]) as int by {
                            assert(st1.spine[j] == st0.spine[j]);
                        }
                    }
                    self.step_out(data, depth);
                } else {
                    proof {
                        assert(st1.spine == st0.spine);
                        assert(st1.spine.last() == st0.spine[st0.spine.len() - 1]);
                        assert(self.spine@[self.spine@.len() - 1] == self.parent_node_idx);
                    }
                    self.add_sibling(data, depth);
                }
                true
            },
        }
    }
    /// Step one level down: the previous node becomes the open parent, the
    /// enclosing accumulator moves onto the stack, and the new entry is
    /// appended as the first child of the node stepped into.
    #[verifier::rlimit(100)]
    fn descend(&mut self, data: EntryData, depth: usize)
        requires
            old(self).inv_core(),
            old(self).previous_depth == old(self).sizes_per_depth_level@.len(),
            depth == old(self).previous_depth + 1,
            old(self).previous_node_idx != 0,
            is_child_of(
                old(self).tree.nodes@,
                old(self).previous_node_idx as int,
                old(self).parent_node_idx as int,
            ),
            forall|k: int| !is_child_of(old(self).tree.nodes@, k, old(self).previous_node_idx as int),
            forall|j: int|
                0 <= j < old(self).spine@.len() ==> #[trigger] old(self).spine@[j] < old(
                    self,
                ).previous_node_idx,
            old(self).st@.ok,
            old(self).st@.started,
            old(self).st@.prev_depth == depth as int,
            old(self).st@.prev_counted == data.size as int,
            old(self).st@.shape.len() == old(self).tree.nodes@.len() + 1,
            nodes_match_shape(old(self).tree.nodes@, old(self).st@.shape.drop_last()),
            old(self).st@.shape.last().name == data.name@,
            old(self).st@.shape.last().mtime == data.mtime as int,
            old(self).st@.shape.last().metadata_io_error == data.metadata_io_error,
            old(self).st@.shape.last().size == data.size as int,
            old(self).st@.shape[0].size == 0,
            childless_sizes_match(old(self).tree.nodes@, old(self).st@.shape.drop_last()),
            forall|j: int|
                1 <= j < old(self).spine@.len() ==> has_child(
                    old(self).tree.nodes@,
                    #[trigger] old(self).spine@[j] as int,
                ),
            old(self).st@.shape.last().parent == Some(old(self).previous_node_idx as int),
            old(self).st@.prev_node == old(self).tree.nodes@.len() as int,
            old(self).st@.spine.len() == old(self).spine@.len() + 1,
            forall|j: int|
                0 <= j < old(self).spine@.len() ==> old(self).st@.spine[j] == (#[trigger] old(
                    self,
                ).spine@[j]) as int,
            old(self).st@.spine.last() == old(self).previous_node_idx as int,
            old(self).current_size_at_depth + seq_sum_u128(old(self).sizes_per_depth_level@)
                + data.size <= old(self).mass@,
            old(self).st@.clean ==> old(self).tree.nodes@[old(self).previous_node_idx as int].data.size
                == 0,
        ensures
            final(self).wf(),
            final(self).st == old(self).st,
            final(self).tree.nodes@ == old(self).tree.nodes@.push(
                TreeNode { data, parent: Some(old(self).previous_node_idx) },
            ),
            final(self).entries_traversed == old(self).entries_traversed,
    {
        let ghost before = *self;
        let file_size = data.size;
        self.sizes_per_depth_level.push(self.current_size_at_depth);
        self.current_size_at_depth = file_size;
        self.parent_node_idx = self.previous_node_idx;
        proof {
            self.spine = Ghost(self.spine@.push(self.previous_node_idx));
            lemma_seq_sum_push(
                before.sizes_per_depth_level@,
                before.current_size_at_depth,
            );
        }
        let n = TreeNode { data, parent: Some(self.parent_node_idx) };
        let idx = self.tree.nodes.len();
        self.tree.nodes.push(n);
        self.previous_node_idx = idx;
        self.previous_depth = depth;
        proof {
            let nodes0 = before.tree.nodes@;
            let nodes = self.tree.nodes@;
            lemma_push_wf(nodes0, n);
            assert forall|k: int|
                0 <= k < nodes0.len() implies (#[trigger] nodes[k]).parent == nodes0[k].parent by {
                assert(nodes[k] == nodes0[k]);
            }
            lemma_spine_links(nodes0, nodes, before.spine@);
            assert(is_child_of(nodes, before.previous_node_idx as int, before.parent_node_idx as int))
                by {
                assert(nodes[before.previous_node_idx as int] == nodes0[before.previous_node_idx as int]);
            }
            if self.st@.clean {
                lemma_descend_clean(before, *self, n);
            }
            lemma_match_after_push(
                nodes0,
                self.st@.shape.drop_last(),
                n,
                self.st@.shape.last(),
            );
            lemma_childless_after_push(nodes0, self.st@.shape.drop_last(), n, self.st@.shape.last());
            assert(self.st@.shape.drop_last().push(self.st@.shape.last()) =~= self.st@.shape);
            assert forall|j: int|
                1 <= j < self.spine@.len() implies has_child(
                nodes,
                #[trigger] self.spine@[j] as int,
            ) by {
                lemma_has_child_push(nodes0, n, self.spine@[j] as int);
                if j < before.spine@.len() {
                    assert(self.spine@[j] == before.spine@[j]);
                    assert(has_child(nodes0, before.spine@[j] as int));
                } else {
                    assert(self.spine@[j] == before.previous_node_idx);
                    assert(parent_is(n, before.previous_node_idx as int));
                }
            }
        }
    }

    /// Add the new entry beside the previous one, under the same parent,
    /// extending the current accumulator.
    #[verifier::rlimit(100)]
    fn add_sibling(&mut self, data: EntryData, depth: usize)
        requires
            old(self).inv_core(),
            old(self).previous_depth == old(self).sizes_per_depth_level@.len(),
            depth == old(self).previous_depth,
            old(self).st@.ok,
            old(self).st@.started,
            old(self).st@.prev_depth == depth as int,
            old(self).st@.prev_counted == data.size as int,
            old(self).st@.shape.len() == old(self).tree.nodes@.len() + 1,
            nodes_match_shape(old(self).tree.nodes@, old(self).st@.shape.drop_last()),
            old(self).st@.shape.last().name == data.name@,
            old(self).st@.shape.last().mtime == data.mtime as int,
            old(self).st@.shape.last().metadata_io_error == data.metadata_io_error,
            old(self).st@.shape.last().size == data.size as int,
            old(self).st@.shape[0].size == 0,
            childless_sizes_match(old(self).tree.nodes@, old(self).st@.shape.drop_last()),
            forall|j: int|
                1 <= j < old(self).spine@.len() ==> has_child(
                    old(self).tree.nodes@,
                    #[trigger] old(self).spine@[j] as int,
                ),
            old(self).st@.shape.last().parent == Some(old(self).parent_node_idx as int),
            old(self).st@.prev_node == old(self).tree.nodes@.len() as int,
            old(self).st@.spine.len() == old(self).spine@.len(),
            forall|j: int|
                0 <= j < old(self).spine@.len() ==> old(self).st@.spine[j] == (#[trigger] old(
                    self,
                ).spine@[j]) as int,
            old(self).current_size_at_depth + seq_sum_u128(old(self).sizes_per_depth_level@)
                + data.size <= old(self).mass@,
        ensures
            final(self).wf(),
            final(self).st == old(self).st,
            final(self).tree.nodes@ == old(self).tree.nodes@.push(
                TreeNode { data, parent: Some(old(self).parent_node_idx) },
            ),
            final(self).entries_traversed == old(self).entries_traversed,
    {
        let ghost before = *self;
        let file_size = data.size;
        proof {
            lemma_seq_sum_nonneg(self.sizes_per_depth_level@);
            assert(self.mass@ <= (u64::MAX as int) * (u64::MAX as int)) by {
                assert(self.st@.entries * (u64::MAX as int) <= (u64::MAX as int) * (
                u64::MAX as int)) by (nonlinear_arith)
                    requires
                        0 <= self.st@.entries <= u64::MAX as int,
                ;
            }
            assert((u64::MAX as int) * (u64::MAX as int) < u128::MAX as int) by (nonlinear_arith);
        }
        self.current_size_at_depth = self.current_size_at_depth + file_size;
        let n = TreeNode { data, parent: Some(self.parent_node_idx) };
        let idx = self.tree.nodes.len();
        self.tree.nodes.push(n);
        self.previous_node_idx = idx;
        self.previous_depth = depth;
        proof {
            let nodes0 = before.tree.nodes@;
            let nodes = self.tree.nodes@;
            lemma_push_wf(nodes0, n);
            assert forall|k: int|
                0 <= k < nodes0.len() implies (#[trigger] nodes[k]).parent == nodes0[k].parent by {
                assert(nodes[k] == nodes0[k]);
            }
            lemma_spine_links(nodes0, nodes, before.spine@);
            if self.st@.clean {
                lemma_append_child_clean(before, *self, n);
            }
            lemma_match_after_push(
                nodes0,
                self.st@.shape.drop_last(),
                n,
                self.st@.shape.last(),
            );
            lemma_childless_after_push(nodes0, self.st@.shape.drop_last(), n, self.st@.shape.last());
            assert(self.st@.shape.drop_last().push(self.st@.shape.last()) =~= self.st@.shape);
            assert forall|j: int|
                1 <= j < self.spine@.len() implies has_child(
                nodes,
                #[trigger] self.spine@[j] as int,
            ) by {
                lemma_has_child_push(nodes0, n, self.spine@[j] as int);
                assert(has_child(nodes0, before.spine@[j] as int));
            }
        }
    }

    /// Step back out to a shallower level: finalize each departed level,
    /// then add the new entry under the landed-on open node, whose size is
    /// refreshed to its accumulator so far.
    #[verifier::rlimit(100)]
    fn step_out(&mut self, data: EntryData, depth: usize)
        requires
            old(self).inv_core(),
            old(self).previous_depth == old(self).sizes_per_depth_level@.len(),
            depth < old(self).previous_depth,
            old(self).st@.ok,
            old(self).st@.started,
            old(self).st@.prev_depth == depth as int,
            old(self).st@.prev_counted == data.size as int,
            old(self).st@.shape.len() == old(self).tree.nodes@.len() + 1,
            nodes_match_shape(old(self).tree.nodes@, old(self).st@.shape.drop_last()),
            old(self).st@.shape.last().name == data.name@,
            old(self).st@.shape.last().mtime == data.mtime as int,
            old(self).st@.shape.last().metadata_io_error == data.metadata_io_error,
            old(self).st@.shape.last().size == data.size as int,
            old(self).st@.shape[0].size == 0,
            childless_sizes_match(old(self).tree.nodes@, old(self).st@.shape.drop_last()),
            forall|j: int|
                1 <= j < old(self).spine@.len() ==> has_child(
                    old(self).tree.nodes@,
                    #[trigger] old(self).spine@[j] as int,
                ),
            old(self).st@.shape.last().parent == Some(old(self).spine@[depth as int] as int),
            old(self).st@.prev_node == old(self).tree.nodes@.len() as int,
            old(self).st@.spine.len() == depth as int + 1,
            forall|j: int|
                0 <= j <= depth as int ==> old(self).st@.spine[j] == (#[trigger] old(
                    self,
                ).spine@[j]) as int,
            old(self).current_size_at_depth + seq_sum_u128(old(self).sizes_per_depth_level@)
                + data.size <= old(self).mass@,
        ensures
            final(self).wf(),
            final(self).st == old(self).st,
            final(self).tree.nodes@.len() == old(self).tree.nodes@.len() + 1,
            final(self).tree.nodes@.last() == (TreeNode {
                data,
                parent: Some(final(self).parent_node_idx),
            }),
            final(self).entries_traversed == old(self).entries_traversed,
    {
        let file_size = data.size;
        proof {
            assert(old(self).spine@.take(old(self).sizes_per_depth_level@.len() as int + 1)
                =~= old(self).spine@);
        }
        while self.sizes_per_depth_level.len() > depth
            invariant
                self.inv_core(),
                depth <= self.sizes_per_depth_level@.len(),
                self.st == old(self).st,
                self.mass == old(self).mass,
                self.tree.nodes@.len() == old(self).tree.nodes@.len(),
                self.entries_traversed == old(self).entries_traversed,
                self.current_size_at_depth + seq_sum_u128(self.sizes_per_depth_level@)
                    + file_size as int <= self.mass@,
                nodes_match_shape(self.tree.nodes@, old(self).st@.shape.drop_last()),
                childless_sizes_match(self.tree.nodes@, old(self).st@.shape.drop_last()),
                forall|j: int|
                    1 <= j < self.spine@.len() ==> has_child(
                        self.tree.nodes@,
                        #[trigger] self.spine@[j] as int,
                    ),
                self.sizes_per_depth_level@.len() <= old(self).sizes_per_depth_level@.len(),
                old(self).spine@.len() == old(self).sizes_per_depth_level@.len() + 1,
                self.spine@ == old(self).spine@.take(
                    self.sizes_per_depth_level@.len() as int + 1,
                ),
            decreases self.sizes_per_depth_level@.len(),
        {
            let ghost at_entry = *self;
            self.close_level();
            proof {
                assert(seq_sum_u128(at_entry.sizes_per_depth_level@) == seq_sum_u128(
                    self.sizes_per_depth_level@,
                ) + at_entry.sizes_per_depth_level@.last());
                assert(at_entry.spine@ == old(self).spine@.take(
                    at_entry.sizes_per_depth_level@.len() as int + 1,
                ));
                assert(self.spine@ == at_entry.spine@.drop_last());
                assert(old(self).spine@.take(at_entry.sizes_per_depth_level@.len() as int
                    + 1).drop_last() =~= old(self).spine@.take(
                    self.sizes_per_depth_level@.len() as int + 1,
                ));
                let closing = at_entry.spine@.last() as int;
                lemma_match_after_size_update(
                    at_entry.tree.nodes@,
                    self.tree.nodes@,
                    old(self).st@.shape.drop_last(),
                    closing,
                );
                assert(has_child(at_entry.tree.nodes@, closing)) by {
                    assert(at_entry.spine@.last() == at_entry.spine@[at_entry.spine@.len() - 1]);
                }
                lemma_childless_after_update(
                    at_entry.tree.nodes@,
                    self.tree.nodes@,
                    old(self).st@.shape.drop_last(),
                    closing,
                );
                assert forall|j: int|
                    1 <= j < self.spine@.len() implies has_child(
                    self.tree.nodes@,
                    #[trigger] self.spine@[j] as int,
                ) by {
                    assert(self.spine@[j] == at_entry.spine@[j]);
                    assert(has_child(at_entry.tree.nodes@, at_entry.spine@[j] as int));
                }
            }
        }
        let ghost mid = *self;
        proof {
            lemma_seq_sum_nonneg(self.sizes_per_depth_level@);
            assert(self.mass@ <= (u64::MAX as int) * (u64::MAX as int)) by {
                assert(self.st@.entries * (u64::MAX as int) <= (u64::MAX as int) * (
                u64::MAX as int)) by (nonlinear_arith)
                    requires
                        0 <= self.st@.entries <= u64::MAX as int,
                ;
            }
            assert((u64::MAX as int) * (u64::MAX as int) < u128::MAX as int) by (nonlinear_arith);
        }
        let new_current = self.current_size_at_depth + file_size;
        self.current_size_at_depth = new_current;
        let landed = self.parent_node_idx;
        self.tree.nodes[landed].data.size = new_current;
        let n = TreeNode { data, parent: Some(landed) };
        let idx = self.tree.nodes.len();
        self.tree.nodes.push(n);
        self.previous_node_idx = idx;
        self.previous_depth = depth;
        proof {
            let nodes0 = mid.tree.nodes@;
            let nodes_mid2 = nodes0.update(landed as int, self.tree.nodes@[landed as int]);
            let nodes = self.tree.nodes@;
            assert(nodes == nodes_mid2.push(n));
            lemma_update_wf(nodes0, landed as int, nodes_mid2[landed as int]);
            lemma_push_wf(nodes_mid2, n);
            assert forall|k: int|
                0 <= k < nodes0.len() implies (#[trigger] nodes[k]).parent == nodes0[k].parent by {
                assert(nodes[k] == nodes_mid2[k]);
            }
            lemma_spine_links(nodes0, nodes, mid.spine@);
            if self.st@.clean {
                lemma_reopen_clean(mid, *self, n);
            }
            let shape = self.st@.shape;
            lemma_match_after_size_update(
                nodes0,
                nodes_mid2,
                shape.drop_last(),
                landed as int,
            );
            assert(landed == mid.spine@[depth as int]);
            lemma_match_after_push(nodes_mid2, shape.drop_last(), n, shape.last());
            assert(shape.drop_last().push(shape.last()) =~= shape);
            assert(nodes_match_shape(nodes, shape));
            assert(has_child(nodes0, landed as int)) by {
                if depth > 0 {
                    assert(has_child(nodes0, mid.spine@[depth as int] as int));
                } else {
                    assert(nodes0.len() > 1);
                    assert(nodes0[1].parent matches Some(p) && (p as int) < 1);
                    assert(is_child_of(nodes0, 1, 0));
                }
            }
            lemma_childless_after_update(nodes0, nodes_mid2, shape.drop_last(), landed as int);
            lemma_childless_after_push(nodes_mid2, shape.drop_last(), n, shape.last());
            assert forall|j: int|
                1 <= j < self.spine@.len() implies has_child(
                nodes,
                #[trigger] self.spine@[j] as int,
            ) by {
                assert(has_child(nodes0, mid.spine@[j] as int));
                lemma_has_child_update(nodes0, landed as int, nodes_mid2[landed as int], mid.spine@[j] as int);
                lemma_has_child_push(nodes_mid2, n, mid.spine@[j] as int);
            }
        }
    }
    /// Close every still-open level, then recompute the synthetic root's
    /// size as the sum of its direct children (clipped at the counter
    /// width), which supports multiple root paths. While the fold stayed
    /// clean, every directory then holds exactly the sum of its children.
    fn finish(&mut self)
        requires
            old(self).wf(),
        ensures
            tree_wf(final(self).tree.nodes@),
            final(self).tree.nodes@.len() == old(self).tree.nodes@.len(),
            nodes_match_shape(final(self).tree.nodes@, old(self).st@.shape),
            childless_sizes_match(final(self).tree.nodes@, old(self).st@.shape),
            final(self).tree.nodes@[0].data.name@ == Seq::<char>::empty(),
            final(self).tree.nodes@[0].data.size as int == spec_clip_u128(
                child_sum(final(self).tree.nodes@, 0, final(self).tree.nodes@.len() as int),
            ),
            old(self).st@.clean ==> sizes_consistent(final(self).tree.nodes@),
            final(self).st == old(self).st,
            final(self).entries_traversed == old(self).entries_traversed,
            final(self).io_errors == old(self).io_errors,
    {
        while self.sizes_per_depth_level.len() > 0
            invariant
                self.inv_core(),
                self.st == old(self).st,
                self.tree.nodes@.len() == old(self).tree.nodes@.len(),
                self.entries_traversed == old(self).entries_traversed,
                self.io_errors == old(self).io_errors,
                nodes_match_shape(self.tree.nodes@, old(self).st@.shape),
                childless_sizes_match(self.tree.nodes@, old(self).st@.shape),
                forall|j: int|
                    1 <= j < self.spine@.len() ==> has_child(
                        self.tree.nodes@,
                        #[trigger] self.spine@[j] as int,
                    ),
            decreases self.sizes_per_depth_level@.len(),
        {
            let ghost at_entry = *self;
            self.close_level();
            proof {
                lemma_match_after_size_update(
                    at_entry.tree.nodes@,
                    self.tree.nodes@,
                    old(self).st@.shape,
                    at_entry.spine@.last() as int,
                );
                assert(has_child(at_entry.tree.nodes@, at_entry.spine@.last() as int)) by {
                    assert(at_entry.spine@.last() == at_entry.spine@[at_entry.spine@.len() - 1]);
                }
                lemma_childless_after_update(
                    at_entry.tree.nodes@,
                    self.tree.nodes@,
                    old(self).st@.shape,
                    at_entry.spine@.last() as int,
                );
                assert forall|j: int|
                    1 <= j < self.spine@.len() implies has_child(
                    self.tree.nodes@,
                    #[trigger] self.spine@[j] as int,
                ) by {
                    assert(self.spine@[j] == at_entry.spine@[j]);
                    assert(has_child(at_entry.tree.nodes@, at_entry.spine@[j] as int));
                }
            }
        }
        let ghost done = *self;
        proof {
            assert(done.spine@.len() == 1);
            assert(done.spine@[0] == 0usize);
            if self.st@.clean {
                assert forall|p: int|
                    1 <= p < done.tree.nodes@.len() && #[trigger] has_child(
                        done.tree.nodes@,
                        p,
                    ) implies done.tree.nodes@[p].data.size as int == child_sum(
                    done.tree.nodes@,
                    p,
                    done.tree.nodes@.len() as int,
                ) by {
                    assert(!done.spine@.contains(p as usize)) by {
                        if done.spine@.contains(p as usize) {
                            let w = choose|w: int|
                                0 <= w < done.spine@.len() && done.spine@[w] == p as usize;
                            assert(w == 0);
                        }
                    }
                }
            }
        }
        // the root's size is the sum of its direct children, recomputed
        // once at the end to support several root paths
        let mut root_size: u128 = 0;
        let mut k: usize = 0;
        let n = self.tree.nodes.len();
        proof {
            lemma_child_sum_nonneg(self.tree.nodes@, 0, 0);
        }
        while k < n
            invariant
                k <= n,
                n == self.tree.nodes@.len(),
                *self == done,
                root_size as int == spec_clip_u128(child_sum(self.tree.nodes@, 0, k as int)),
            decreases n - k,
        {
            proof {
                lemma_child_sum_nonneg(self.tree.nodes@, 0, k as int);
            }
            match self.tree.nodes[k].parent {
                Some(p) => {
                    if p == 0 {
                        let sz = self.tree.nodes[k].data.size;
                        root_size = sat_add_u128(root_size, sz);
                    }
                },
                None => {},
            }
            k = k + 1;
        }
        let ghost nodes0 = self.tree.nodes@;
        self.tree.nodes[0].data.size = root_size;
        proof {
            let nodes = self.tree.nodes@;
            let nd = nodes[0];
            assert(nodes == nodes0.update(0, nd));
            lemma_update_wf(nodes0, 0, nd);
            assert forall|p: int|
                0 <= p < nodes.len() implies child_sum(nodes, p, nodes.len() as int) == child_sum(
                nodes0,
                p,
                nodes0.len() as int,
            ) by {
                lemma_child_sum_update(nodes0, 0, nd, p, nodes0.len() as int);
                assert(!is_child_of(nodes0, 0, p));
            }
            if self.st@.clean {
                assert forall|p: int|
                    1 <= p < nodes.len() && #[trigger] has_child(nodes, p) implies nodes[p].data.size
                        as int == child_sum(nodes, p, nodes.len() as int) by {
                    lemma_has_child_update(nodes0, 0, nd, p);
                    assert(nodes[p] == nodes0[p]);
                }
            }
            lemma_match_after_size_update(nodes0, nodes, old(self).st@.shape, 0);
            if has_child(nodes0, 0) {
                lemma_childless_after_update(nodes0, nodes, old(self).st@.shape, 0);
            } else {
                lemma_no_child_sum_zero(nodes0, 0, nodes0.len() as int);
                assert(root_size == 0);
                reveal(childless_sizes_match);
                assert forall|i: int|
                    0 <= i < nodes.len() && i < old(self).st@.shape.len() && !has_child(nodes, i)
                    implies (#[trigger] nodes[i]).data.size as int == old(
                    self,
                ).st@.shape[i].size by {
                    lemma_has_child_update(nodes0, 0, nd, i);
                    if i != 0 {
                        assert(nodes[i] == nodes0[i]);
                    }
                }
            }
        }
    }
}

/// Closing one level keeps the exact-sum package: the closed node now
/// holds precisely its child sum, the shortened spine and stack still
/// track each open node's children, and the folded-up accumulator is the
/// child sum of the new deepest open node.
#[verifier::rlimit(100)]
proof fn lemma_close_level_clean(b0: TreeBuilder, b1: TreeBuilder)
    requires
        b0.inv_core(),
        b0.sizes_per_depth_level@.len() >= 1,
        b0.st@.clean,
        b1.st == b0.st,
        b1.spine@ == b0.spine@.drop_last(),
        b1.sizes_per_depth_level@ == b0.sizes_per_depth_level@.drop_last(),
        b1.tree.nodes@ == b0.tree.nodes@.update(
            b0.spine@.last() as int,
            b1.tree.nodes@[b0.spine@.last() as int],
        ),
        b1.tree.nodes@[b0.spine@.last() as int].parent == b0.tree.nodes@[b0.spine@.last() as int].parent,
        b1.tree.nodes@[b0.spine@.last() as int].data.size == b0.current_size_at_depth,
        b1.current_size_at_depth as int == b0.current_size_at_depth as int
            + b0.sizes_per_depth_level@.last() as int,
    ensures
        b1.clean_sums(),
{
    let nodes0 = b0.tree.nodes@;
    let nodes = b1.tree.nodes@;
    let spine0 = b0.spine@;
    let spine = b1.spine@;
    let stack0 = b0.sizes_per_depth_level@;
    let stack = b1.sizes_per_depth_level@;
    let closing = spine0.last() as int;
    let nd = nodes[closing];
    let v = b0.current_size_at_depth;
    assert(spine0.len() >= 2);
    assert(is_child_of(nodes0, closing, spine0[spine0.len() - 2] as int));
    assert(spine.last() == spine0[spine0.len() - 2]);

    // the closed node and every untouched closed parent hold exact sums
    assert forall|p: int|
        1 <= p < nodes.len() && #[trigger] has_child(nodes, p) && !spine.contains(
            p as usize,
        ) implies nodes[p].data.size as int == child_sum(nodes, p, nodes.len() as int) by {
        lemma_has_child_update(nodes0, closing, nd, p);
        lemma_child_sum_update(nodes0, closing, nd, p, nodes0.len() as int);
        if p == closing {
            assert(nodes[p].data.size == v);
            assert(child_sum(nodes0, p, nodes0.len() as int) == v as int);
            assert(!is_child_of(nodes0, closing, p)) by {
                if is_child_of(nodes0, closing, p) {
                    assert(parent_is(nodes0[closing], p));
                    assert(p == spine0[spine0.len() - 2] as int);
                    lemma_spine_increasing(spine0, spine0.len() - 2, spine0.len() - 1);
                }
            }
        } else {
            assert(!spine0.contains(p as usize)) by {
                if spine0.contains(p as usize) {
                    let w = choose|w: int| 0 <= w < spine0.len() && spine0[w] == p as usize;
                    assert(w < spine0.len() - 1);
                    assert(spine[w] == p as usize);
                    assert(spine.contains(p as usize));
                }
            }
            assert(nodes[p] == nodes0[p]);
            assert(!is_child_of(nodes0, closing, p)) by {
                if is_child_of(nodes0, closing, p) {
                    assert(parent_is(nodes0[closing], p));
                    assert(parent_is(nodes0[closing], spine0[spine0.len() - 2] as int));
                    assert(p == spine0[spine0.len() - 2] as int);
                    assert(spine.last() == spine0[spine0.len() - 2]);
                    assert(spine.contains(p as usize));
                }
            }
        }
    }

    // each remaining stacked accumulator still tracks its open node
    assert forall|j: int| 0 <= j < stack.len() implies (#[trigger] stack[j]) as int == child_sum(
        nodes,
        spine[j] as int,
        nodes.len() as int,
    ) - nodes[spine[j + 1] as int].data.size by {
        assert(stack[j] == stack0[j]);
        lemma_child_sum_update(nodes0, closing, nd, spine0[j] as int, nodes0.len() as int);
        assert(!is_child_of(nodes0, closing, spine0[j] as int)) by {
            if is_child_of(nodes0, closing, spine0[j] as int) {
                assert(parent_is(nodes0[closing], spine0[j] as int));
                assert(parent_is(nodes0[closing], spine0[spine0.len() - 2] as int));
                assert(spine0[j] == spine0[spine0.len() - 2]);
                if j < spine0.len() - 2 {
                    lemma_spine_increasing(spine0, j, spine0.len() - 2);
                }
            }
        }
        assert(spine[j + 1] as int != closing || j + 1 == spine0.len() - 1) by {
            if j + 1 < spine0.len() - 1 && spine0[j + 1] as int == closing {
                lemma_spine_increasing(spine0, j + 1, spine0.len() - 1);
            }
        }
        assert(j + 1 < spine.len());
        assert(spine[j + 1] == spine0[j + 1]);
        assert(j + 1 <= spine0.len() - 2);
        if spine0[j + 1] as int == closing {
            assert(j + 1 == spine0.len() - 2);
            assert(stack0[j] as int == child_sum(nodes0, spine0[j] as int, nodes0.len() as int)
                - nodes0[closing].data.size);
        }
    }

    // the folded-up accumulator is the child sum of the new deepest node
    lemma_child_sum_update(nodes0, closing, nd, spine.last() as int, nodes0.len() as int);
    assert(is_child_of(nodes0, closing, spine.last() as int));
    assert(stack0[stack0.len() as int - 1] as int == child_sum(
        nodes0,
        spine0[stack0.len() as int - 1] as int,
        nodes0.len() as int,
    ) - nodes0[spine0[stack0.len() as int] as int].data.size);
    assert(spine0[stack0.len() as int - 1] == spine.last());
    assert(spine0[stack0.len() as int] as int == closing);
}


/// The total of an accumulator stack is never negative.
proof fn lemma_seq_sum_nonneg(s: Seq<u128>)
    ensures
        seq_sum_u128(s) >= 0,
    decreases s.len(),
{
    if s.len() > 0 {
        lemma_seq_sum_nonneg(s.drop_last());
    }
}

/// Spine indices grow strictly along the spine.
proof fn lemma_spine_increasing(spine: Seq<usize>, a: int, b: int)
    requires
        forall|j: int| 0 <= j < spine.len() - 1 ==> spine[j] < #[trigger] spine[j + 1],
        0 <= a < b < spine.len(),
    ensures
        spine[a] < spine[b],
    decreases b - a,
{
    assert(spine[a] < spine[a + 1]);
    if a + 1 < b {
        lemma_spine_increasing(spine, a + 1, b);
    }
}

/// The parent of a node that has one, or a fatal walker-contract breach.
fn parent_or_panic(tree: &Tree, parent_node_idx: TreeIndex) -> (r: TreeIndex)
    requires
        parent_node_idx < tree.nodes@.len(),
        tree.nodes@[parent_node_idx as int].parent is Some,
    ensures
        Some(r) == tree.nodes@[parent_node_idx as int].parent,
{
    match tree.nodes[parent_node_idx].parent {
        Some(q) => q,
        None => vstd::pervasive::unreached(),
    }
}

/// The top of the accumulator stack, which tracks the open ancestor chain,
/// or a fatal walker-contract breach.
fn pop_or_panic(v: &mut Vec<u128>) -> (r: u128)
    requires
        old(v)@.len() > 0,
    ensures
        r == old(v)@.last(),
        final(v)@ == old(v)@.drop_last(),
{
    match v.pop() {
        Some(x) => x,
        None => vstd::pervasive::unreached(),
    }
}

/// Appending a new child under the deepest open node, while growing the
/// current accumulator by its size, keeps the exact-sum package.
proof fn lemma_append_child_clean(b0: TreeBuilder, b1: TreeBuilder, n: TreeNode)
    requires
        b0.inv_core(),
        b0.st@.clean,
        b0.clean_sums(),
        n.parent == Some(b0.spine@.last()),
        b1.spine@ == b0.spine@,
        b1.sizes_per_depth_level@ == b0.sizes_per_depth_level@,
        b1.tree.nodes@ == b0.tree.nodes@.push(n),
        b1.current_size_at_depth as int == b0.current_size_at_depth as int + n.data.size as int,
    ensures
        b1.clean_sums(),
{
    let nodes0 = b0.tree.nodes@;
    let nodes = b1.tree.nodes@;
    let spine = b0.spine@;
    let stack = b0.sizes_per_depth_level@;
    let last = spine.last() as int;
    lemma_child_sum_push_full(nodes0, n, last);
    assert(b1.current_size_at_depth as int == child_sum(nodes, last, nodes.len() as int));
    assert forall|j: int| 0 <= j < stack.len() implies (#[trigger] stack[j]) as int == child_sum(
        nodes,
        spine[j] as int,
        nodes.len() as int,
    ) - nodes[spine[j + 1] as int].data.size by {
        lemma_child_sum_push_full(nodes0, n, spine[j] as int);
        assert(spine[j] as int != last) by {
            lemma_spine_increasing(spine, j, spine.len() - 1);
        }
        assert(nodes[spine[j + 1] as int] == nodes0[spine[j + 1] as int]);
    }
    assert forall|p: int|
        1 <= p < nodes.len() && #[trigger] has_child(nodes, p) && !spine.contains(
            p as usize,
        ) implies nodes[p].data.size as int == child_sum(nodes, p, nodes.len() as int) by {
        lemma_has_child_push(nodes0, n, p);
        lemma_child_sum_push_full(nodes0, n, p);
        assert(p != last);
        assert(p < nodes0.len());
        assert(nodes[p] == nodes0[p]);
        assert(!parent_is(n, p));
    }
}

/// Stepping down into the previous node: its accumulator starts at the
/// size of the new child appended beneath it, the enclosing accumulator
/// moves onto the stack, and the exact-sum package is kept, because the
/// node stepped into holds size 0 and has no children yet.
proof fn lemma_descend_clean(b0: TreeBuilder, b1: TreeBuilder, n: TreeNode)
    requires
        b0.inv_core(),
        b0.st@.clean,
        b0.clean_sums(),
        b0.previous_node_idx != 0,
        is_child_of(b0.tree.nodes@, b0.previous_node_idx as int, b0.spine@.last() as int),
        forall|k: int| !is_child_of(b0.tree.nodes@, k, b0.previous_node_idx as int),
        forall|j: int|
            0 <= j < b0.spine@.len() ==> #[trigger] b0.spine@[j] < b0.previous_node_idx,
        b0.tree.nodes@[b0.previous_node_idx as int].data.size == 0,
        n.parent == Some(b0.previous_node_idx),
        b1.spine@ == b0.spine@.push(b0.previous_node_idx),
        b1.sizes_per_depth_level@ == b0.sizes_per_depth_level@.push(b0.current_size_at_depth),
        b1.tree.nodes@ == b0.tree.nodes@.push(n),
        b1.current_size_at_depth == n.data.size,
    ensures
        b1.clean_sums(),
{
    let nodes0 = b0.tree.nodes@;
    let nodes = b1.tree.nodes@;
    let spine0 = b0.spine@;
    let spine = b1.spine@;
    let stack0 = b0.sizes_per_depth_level@;
    let stack = b1.sizes_per_depth_level@;
    let prev = b0.previous_node_idx as int;
    assert(spine.last() == b0.previous_node_idx);
    lemma_no_child_sum_zero(nodes0, prev, nodes0.len() as int);
    lemma_child_sum_push_full(nodes0, n, prev);
    assert(b1.current_size_at_depth as int == child_sum(nodes, prev, nodes.len() as int));
    assert forall|j: int| 0 <= j < stack.len() implies (#[trigger] stack[j]) as int == child_sum(
        nodes,
        spine[j] as int,
        nodes.len() as int,
    ) - nodes[spine[j + 1] as int].data.size by {
        lemma_child_sum_push_full(nodes0, n, spine[j] as int);
        assert(spine[j] < b0.previous_node_idx);
        assert(!parent_is(n, spine[j] as int));
        if j < stack0.len() {
            assert(stack[j] == stack0[j]);
            assert(spine[j] == spine0[j]);
            assert(spine[j + 1] == spine0[j + 1]);
            assert(nodes[spine[j + 1] as int] == nodes0[spine[j + 1] as int]);
        } else {
            assert(j == stack0.len() as int);
            assert(stack[j] == b0.current_size_at_depth);
            assert(spine[j] == spine0.last());
            assert(spine[j + 1] == b0.previous_node_idx);
            assert(nodes[prev] == nodes0[prev]);
            assert(nodes[prev].data.size == 0);
        }
    }
    assert forall|p: int|
        1 <= p < nodes.len() && #[trigger] has_child(nodes, p) && !spine.contains(
            p as usize,
        ) implies nodes[p].data.size as int == child_sum(nodes, p, nodes.len() as int) by {
        lemma_has_child_push(nodes0, n, p);
        lemma_child_sum_push_full(nodes0, n, p);
        assert(p != prev);
        assert(!parent_is(n, p));
        assert(p < nodes0.len());
        assert(nodes[p] == nodes0[p]);
        assert(!spine0.contains(p as usize)) by {
            if spine0.contains(p as usize) {
                let w = choose|w: int| 0 <= w < spine0.len() && spine0[w] == p as usize;
                assert(spine[w] == p as usize);
                assert(spine.contains(p as usize));
            }
        }
    }
}

/// Stepping back out and landing on an open level: the landed-on node's
/// size is refreshed to its accumulator (now also holding the new entry)
/// and the new entry is appended beneath it; the exact-sum package is
/// kept.
#[verifier::rlimit(100)]
proof fn lemma_reopen_clean(b0: TreeBuilder, b1: TreeBuilder, n: TreeNode)
    requires
        b0.inv_core(),
        b0.st@.clean,
        b0.clean_sums(),
        n.parent == Some(b0.spine@.last()),
        b1.spine@ == b0.spine@,
        b1.sizes_per_depth_level@ == b0.sizes_per_depth_level@,
        b1.tree.nodes@ == b0.tree.nodes@.update(
            b0.spine@.last() as int,
            b1.tree.nodes@[b0.spine@.last() as int],
        ).push(n),
        b1.tree.nodes@[b0.spine@.last() as int].parent == b0.tree.nodes@[b0.spine@.last() as int].parent,
        b1.tree.nodes@[b0.spine@.last() as int].data.size as int == b0.current_size_at_depth
            as int + n.data.size as int,
        b1.current_size_at_depth as int == b0.current_size_at_depth as int + n.data.size as int,
    ensures
        b1.clean_sums(),
{
    let nodes0 = b0.tree.nodes@;
    let last = b0.spine@.last() as int;
    let nodes_mid = nodes0.update(last, b1.tree.nodes@[last]);
    let nodes = b1.tree.nodes@;
    let spine = b0.spine@;
    let stack = b0.sizes_per_depth_level@;
    let nd = b1.tree.nodes@[last];
    assert(nodes_mid[last] == nd);
    // the refreshed node is nobody's own child sum target but its parent's
    assert(!is_child_of(nodes0, last, last)) by {
        if is_child_of(nodes0, last, last) {
            assert(parent_is(nodes0[last], last));
        }
    }
    // current accumulator
    lemma_child_sum_update(nodes0, last, nd, last, nodes0.len() as int);
    lemma_child_sum_push_full(nodes_mid, n, last);
    assert(b1.current_size_at_depth as int == child_sum(nodes, last, nodes.len() as int));
    // stacked accumulators
    assert forall|j: int| 0 <= j < stack.len() implies (#[trigger] stack[j]) as int == child_sum(
        nodes,
        spine[j] as int,
        nodes.len() as int,
    ) - nodes[spine[j + 1] as int].data.size by {
        lemma_child_sum_update(nodes0, last, nd, spine[j] as int, nodes0.len() as int);
        lemma_child_sum_push_full(nodes_mid, n, spine[j] as int);
        assert(spine[j] as int != last) by {
            lemma_spine_increasing(spine, j, spine.len() - 1);
        }
        assert(!parent_is(n, spine[j] as int));
        if j + 1 < spine.len() - 1 {
            assert(spine[j + 1] as int != last) by {
                lemma_spine_increasing(spine, j + 1, spine.len() - 1);
            }
            assert(nodes[spine[j + 1] as int] == nodes0[spine[j + 1] as int]);
            if is_child_of(nodes0, last, spine[j] as int) {
                assert(parent_is(nodes0[last], spine[j] as int));
                assert(spine.len() >= 2);
                assert(is_child_of(nodes0, last, spine[spine.len() - 2] as int));
                assert(spine[j] == spine[spine.len() - 2]);
                assert(j == spine.len() - 2) by {
                    if j < spine.len() - 2 {
                        lemma_spine_increasing(spine, j, spine.len() - 2);
                    }
                }
                assert(false);
            }
        } else {
            assert(j + 1 == spine.len() - 1);
            assert(spine[j + 1] as int == last);
            assert(j == spine.len() - 2);
            assert(is_child_of(nodes0, last, spine[j] as int));
            assert(nodes[last].data.size as int == nodes0[last].data.size as int + (
            nd.data.size as int - nodes0[last].data.size as int));
        }
    }
    // closed parents
    assert forall|p: int|
        1 <= p < nodes.len() && #[trigger] has_child(nodes, p) && !spine.contains(
            p as usize,
        ) implies nodes[p].data.size as int == child_sum(nodes, p, nodes.len() as int) by {
        lemma_has_child_update(nodes0, last, nd, p);
        lemma_has_child_push(nodes_mid, n, p);
        lemma_child_sum_update(nodes0, last, nd, p, nodes0.len() as int);
        lemma_child_sum_push_full(nodes_mid, n, p);
        assert(p != last);
        assert(p < nodes0.len());
        assert(nodes[p] == nodes0[p]);
        assert(!parent_is(n, p));
        assert(!is_child_of(nodes0, last, p)) by {
            if is_child_of(nodes0, last, p) {
                assert(parent_is(nodes0[last], p));
                if spine_len_ge_2(spine) {
                    assert(is_child_of(nodes0, last, spine[spine.len() - 2] as int));
                    assert(p == spine[spine.len() - 2] as int);
                    assert(spine.contains(p as usize));
                } else {
                    assert(spine.len() == 1);
                    assert(last == 0);
                    assert(nodes0[0].parent is None);
                }
            }
        }
    }
}

/// Whether a spine has an enclosing level.
spec fn spine_len_ge_2(spine: Seq<usize>) -> bool {
    spine.len() >= 2
}

/// Appending a node whose parent exists keeps the arena well-formed, and
/// the new node has no children.
proof fn lemma_push_wf(nodes0: Seq<TreeNode>, n: TreeNode)
    requires
        tree_wf(nodes0),
        n.parent matches Some(q) && (q as int) < nodes0.len(),
    ensures
        tree_wf(nodes0.push(n)),
        forall|k: int| !is_child_of(nodes0.push(n), k, nodes0.len() as int),
        forall|k: int| 0 <= k < nodes0.len() ==> nodes0.push(n)[k] == nodes0[k],
{
    let nodes = nodes0.push(n);
    assert forall|i: int| 1 <= i < nodes.len() implies ((#[trigger] nodes[i].parent) matches Some(
        p,
    ) && (p as int) < i) by {
        if i < nodes0.len() {
            assert(nodes[i] == nodes0[i]);
        }
    }
    assert forall|k: int| !is_child_of(nodes, k, nodes0.len() as int) by {
        if 0 <= k < nodes.len() {
            assert(nodes[k].parent matches Some(q) ==> (q as int) < k);
            assert(k == 0 ==> nodes[k].parent is None);
        }
    }
}

/// Replacing one node's data, keeping its parent, keeps the arena
/// well-formed and every node's parent link.
proof fn lemma_update_wf(nodes0: Seq<TreeNode>, u: int, nd: TreeNode)
    requires
        tree_wf(nodes0),
        0 <= u < nodes0.len(),
        nodes0[u].parent == nd.parent,
    ensures
        tree_wf(nodes0.update(u, nd)),
        forall|k: int|
            0 <= k < nodes0.len() ==> (#[trigger] nodes0.update(u, nd)[k]).parent
                == nodes0[k].parent,
{
    let nodes = nodes0.update(u, nd);
    assert forall|i: int| 1 <= i < nodes.len() implies ((#[trigger] nodes[i].parent) matches Some(
        p,
    ) && (p as int) < i) by {
        if i != u {
            assert(nodes[i] == nodes0[i]);
        }
    }
    assert forall|k: int| 0 <= k < nodes0.len() implies (#[trigger] nodes[k]).parent
        == nodes0[k].parent by {
        if k != u {
            assert(nodes[k] == nodes0[k]);
        }
    }
}

/// Spine links survive any change that keeps every parent link.
proof fn lemma_spine_links(nodes0: Seq<TreeNode>, nodes: Seq<TreeNode>, spine: Seq<usize>)
    requires
        forall|j: int|
            1 <= j < spine.len() ==> is_child_of(nodes0, #[trigger] spine[j] as int, spine[j
                - 1] as int),
        forall|k: int|
            0 <= k < nodes0.len() ==> (#[trigger] nodes[k]).parent == nodes0[k].parent,
        nodes.len() >= nodes0.len(),
    ensures
        forall|j: int|
            1 <= j < spine.len() ==> is_child_of(nodes, #[trigger] spine[j] as int, spine[j
                - 1] as int),
{
    assert forall|j: int| 1 <= j < spine.len() implies is_child_of(
        nodes,
        #[trigger] spine[j] as int,
        spine[j - 1] as int,
    ) by {
        assert(is_child_of(nodes0, spine[j] as int, spine[j - 1] as int));
        assert(nodes[spine[j] as int].parent == nodes0[spine[j] as int].parent);
    }
}

/// A child sum is never negative.
proof fn lemma_child_sum_nonneg(nodes: Seq<TreeNode>, p: int, upto: int)
    ensures
        child_sum(nodes, p, upto) >= 0,
    decreases upto,
{
    if upto > 0 {
        lemma_child_sum_nonneg(nodes, p, upto - 1);
    }
}

/// A fold that has stopped stays where it stopped.
proof fn lemma_tree_fold_items_stuck(
    o: WalkOptions,
    root_device_id: u64,
    root_path: Seq<char>,
    st: TreeFoldState,
    items: Seq<Result<EntryRecord, IoError>>,
)
    requires
        !st.ok,
    ensures
        tree_fold_items(o, root_device_id, root_path, st, items) == st,
    decreases items.len(),
{
    if items.len() > 0 {
        lemma_tree_fold_items_stuck(o, root_device_id, root_path, st, items.drop_first());
    }
}

/// Once a fold has stopped, no later root restores it.
proof fn lemma_tree_fold_roots_stuck(o: WalkOptions, st: TreeFoldState, roots: Seq<RootWalk>)
    requires
        !st.ok,
    ensures
        !tree_fold_roots(o, st, roots).ok,
        tree_fold_roots(o, st, roots).clean == st.clean,
    decreases roots.len(),
{
    if roots.len() > 0 {
        let r = roots.first();
        match r.device_id {
            Err(_) => {
                lemma_tree_fold_roots_stuck(
                    o,
                    TreeFoldState { errors: st.errors + 1, ..st },
                    roots.drop_first(),
                );
            },
            Ok(dev) => {
                lemma_tree_fold_items_stuck(o, dev, r.path@, st, r.entries@);
                lemma_tree_fold_roots_stuck(o, st, roots.drop_first());
            },
        }
    }
}

/// The one fatal condition of a tree build: the walker violated its
/// pre-order depth contract (an entry more than one level deeper than its
/// predecessor, or deeper than the root before any entry), or the entry
/// counter overflowed. It signals a broken collaborator, not a filesystem
/// condition.
#[derive(Debug, Clone, Copy, PartialEq, Eq)]
pub struct WalkerContractViolation;

/// The result of one filesystem traversal: the size tree and the walk's
/// counters.
#[derive(Debug)]
pub struct Traversal {
    /// A tree representing the entire filesystem traversal.
    pub tree: Tree,
    /// The synthetic top-level node of the tree.
    pub root_index: TreeIndex,
    /// The number of files and directories seen during the traversal.
    pub entries_traversed: u64,
    /// The time at which the traversal started.
    pub start: std::time::Instant,
    /// Milliseconds the traversal took. Set only once done.
    pub elapsed: Option<u64>,
    /// Total number of io errors encountered during the traversal.
    pub io_errors: u64,
    /// Total bytes seen during the traversal.
    pub total_bytes: Option<u128>,
}

/// Consumes throttled progress reports during a tree build and may cancel
/// it.
pub trait TraversalUpdate {
    /// Shown the in-progress traversal; returns whether to cancel the
    /// whole build.
    fn update(&mut self, traversal: &Traversal) -> bool;
}

impl Traversal {
    /// Fold already-collected root walks into a size tree.
    ///
    /// The build succeeds exactly when the fold of [`tree_step`] over the
    /// roots stays within the walker's contract. The tree then carries
    /// exactly the fold's shape: one node per yielded entry — named by
    /// the root path at depth 0 and by its file name below, with its
    /// mtime, error flag and parent — plus one placeholder per
    /// enumeration error arriving at root depth, under the nameless
    /// synthetic root. Every node that never became a parent keeps the
    /// bytes its entry contributed; the root holds the summed sizes of
    /// its children (the walked roots, clipped at the counter width);
    /// and — whenever the fold only ever stepped down into entries that
    /// contributed nothing, as it does for directories — every directory
    /// node holds exactly the sum of its children's sizes.
    pub fn from_entries(walk_options: &WalkOptions, input: &Vec<RootWalk>) -> (r: Result<
        Traversal,
        WalkerContractViolation,
    >)
        ensures
            ({
                let fold = tree_fold_roots(*walk_options, tree_fold_init(), input@);
                &&& (r is Ok <==> fold.ok)
                &&& (r matches Ok(t) ==> {
                    &&& tree_wf(t.tree.nodes@)
                    &&& t.root_index == 0
                    &&& t.entries_traversed == fold.entries
                    &&& t.io_errors as int == spec_clip_u64(fold.errors)
                    &&& nodes_match_shape(t.tree.nodes@, fold.shape)
                    &&& childless_sizes_match(t.tree.nodes@, fold.shape)
                    &&& t.tree.nodes@[0].data.name@ == Seq::<char>::empty()
                    &&& t.tree.nodes@[0].data.size as int == spec_clip_u128(
                        child_sum(t.tree.nodes@, 0, t.tree.nodes@.len() as int),
                    )
                    &&& t.total_bytes == Some(t.tree.nodes@[0].data.size)
                    &&& (fold.clean ==> sizes_consistent(t.tree.nodes@))
                    &&& t.elapsed is Some
                })
            }),
    {
        let start = instant_now();
        let ghost goal = tree_fold_roots(*walk_options, tree_fold_init(), input@);
        let mut b = TreeBuilder::new();
        let mut i: usize = 0;
        proof {
            assert(input@.skip(0) =~= input@);
        }
        while i < input.len()
            invariant
                i <= input@.len(),
                b.wf(),
                goal == tree_fold_roots(*walk_options, tree_fold_init(), input@),
                tree_fold_roots(*walk_options, b.st@, input@.skip(i as int)) == goal,
            decreases input@.len() - i,
        {
            proof {
                assert(input@.skip(i as int).first() == input@[i as int]);
                assert(input@.skip(i as int).drop_first() =~= input@.skip(i as int + 1));
            }
            let root = &input[i];
            match root.device_id {
                Err(_) => {
                    b.add_device_error();
                },
                Ok(device_id) => {
                    let ghost st_root = b.st@;
                    let mut k: usize = 0;
                    proof {
                        assert(root.entries@.skip(0) =~= root.entries@);
                    }
                    while k < root.entries.len()
                        invariant
                            k <= root.entries@.len(),
                            b.wf(),
                            goal == tree_fold_roots(*walk_options, tree_fold_init(), input@),
                            tree_fold_roots(
                                *walk_options,
                                tree_fold_items(
                                    *walk_options,
                                    device_id,
                                    root.path@,
                                    b.st@,
                                    root.entries@.skip(k as int),
                                ),
                                input@.skip(i as int + 1),
                            ) == goal,
                        decreases root.entries@.len() - k,
                    {
                        proof {
                            assert(root.entries@.skip(k as int).first() == root.entries@[k as int]);
                            assert(root.entries@.skip(k as int).drop_first() =~= root.entries@.skip(
                                k as int + 1,
                            ));
                        }
                        let ghost st_bad = tree_step(
                            *walk_options,
                            device_id,
                            root.path@,
                            b.st@,
                            root.entries@[k as int],
                        );
                        if !b.step(walk_options, device_id, &root.path, &root.entries[k]) {
                            proof {
                                assert(!st_bad.ok);
                                assert(root.entries@.skip(k as int).len() > 0);
                                assert(tree_fold_items(
                                    *walk_options,
                                    device_id,
                                    root.path@,
                                    b.st@,
                                    root.entries@.skip(k as int),
                                ) == tree_fold_items(
                                    *walk_options,
                                    device_id,
                                    root.path@,
                                    st_bad,
                                    root.entries@.skip(k as int + 1),
                                ));
                                lemma_tree_fold_items_stuck(
                                    *walk_options,
                                    device_id,
                                    root.path@,
                                    st_bad,
                                    root.entries@.skip(k as int + 1),
                                );
                                lemma_tree_fold_roots_stuck(
                                    *walk_options,
                                    st_bad,
                                    input@.skip(i as int + 1),
                                );
                                assert(goal == tree_fold_roots(
                                    *walk_options,
                                    st_bad,
                                    input@.skip(i as int + 1),
                                ));
                                assert(!goal.ok);
                            }
                            return Err(WalkerContractViolation);
                        }
                        k = k + 1;
                    }
                    proof {
                        assert(root.entries@.skip(root.entries@.len() as int) =~= Seq::<
                            Result<EntryRecord, IoError>,
                        >::empty());
                    }
                },
            }
            i = i + 1;
        }
        proof {
            assert(input@.skip(input@.len() as int) =~= Seq::<RootWalk>::empty());
            assert(b.st@ == goal);
        }
        let ghost clean = b.st@.clean;
        b.finish();
        let entries_traversed = b.entries_traversed;
        let io_errors = b.io_errors;
        let root_size = get_size_or_panic(&b.tree, 0);
        let elapsed = elapsed_millis(&start);
        Ok(
            Traversal {
                tree: b.tree,
                root_index: 0,
                entries_traversed,
                start,
                elapsed: Some(elapsed),
                io_errors,
                total_bytes: Some(root_size),
            },
        )
    }

    /// Walk the given root paths through `walker` and fold the entries
    /// into a size tree, as [`Traversal::from_entries`] does, reporting
    /// the in-progress traversal through `update` at most roughly every
    /// 250 milliseconds. Returns `Ok(None)`, discarding the partial tree,
    /// if `update` asks to cancel; fails fast if the walker breaks its
    /// ordering contract. With no roots to walk, neither can happen: the
    /// build succeeds and yields the lone synthetic root.
    pub fn from_walker<W: Walker, U: TraversalUpdate>(
        walker: &mut W,
        walk_options: &WalkOptions,
        input: &Vec<String>,
        update: &mut U,
    ) -> (r: Result<Option<Traversal>, WalkerContractViolation>)
        ensures
            (r matches Ok(ot) ==> (ot matches Some(t) ==> {
                &&& tree_wf(t.tree.nodes@)
                &&& t.root_index == 0
                &&& t.tree.nodes@[0].data.name@ == Seq::<char>::empty()
                &&& t.tree.nodes@[0].data.size as int == spec_clip_u128(
                    child_sum(t.tree.nodes@, 0, t.tree.nodes@.len() as int),
                )
                &&& t.total_bytes == Some(t.tree.nodes@[0].data.size)
                &&& t.elapsed is Some
            })),
            input@.len() == 0 ==> (r matches Ok(ot) && ot is Some),
    {
        let start = instant_now();
        let mut b = TreeBuilder::new();
        let mut throttle = Throttle::new(250, None);
        let mut i: usize = 0;
        while i < input.len()
            invariant
                b.wf(),
            decreases input@.len() - i,
        {
            let path = &input[i];
            match walker.device_id(path.as_str()) {
                Err(_) => {
                    b.add_device_error();
                },
                Ok(device_id) => {
                    let raw = walker.walk(path.as_str(), device_id);
                    let mut k: usize = 0;
                    while k < raw.len()
                        invariant
                            b.wf(),
                            input@.len() > 0,
                        decreases raw@.len() - k,
                    {
                        let item: Result<EntryRecord, IoError> = match &raw[k] {
                            Ok(e) => Ok(record_of_entry(e)),
                            Err(_) => Err(IoError),
                        };
                        if !b.step(walk_options, device_id, path, &item) {
                            return Err(WalkerContractViolation);
                        }
                        if throttle.can_update() {
                            let snapshot = Traversal {
                                tree: b.tree.clone(),
                                root_index: 0,
                                entries_traversed: b.entries_traversed,
                                start,
                                elapsed: None,
                                io_errors: b.io_errors,
                                total_bytes: None,
                            };
                            if update.update(&snapshot) {
                                return Ok(None);
                            }
                        }
                        k = k + 1;
                    }
                },
            }
            i = i + 1;
        }
        b.finish();
        let entries_traversed = b.entries_traversed;
        let io_errors = b.io_errors;
        let root_size = get_size_or_panic(&b.tree, 0);
        let elapsed = elapsed_millis(&start);
        Ok(
            Some(
                Traversal {
                    tree: b.tree,
                    root_index: 0,
                    entries_traversed,
                    start,
                    elapsed: Some(elapsed),
                    io_errors,
                    total_bytes: Some(root_size),
                },
            ),
        )
    }
}

/// Whether an entry looks like a directory in the stream: its metadata is
/// absent, failed, or marks a directory. Such entries contribute no bytes
/// to the count.
pub open spec fn spec_dir_like(e: EntryRecord) -> bool {
    match e.metadata {
        None => true,
        Some(Err(_)) => true,
        Some(Ok(m)) => m.is_dir,
    }
}

/// Whether a stream steps down only behind directory-like entries, given
/// the depth and kind of the entry walked just before it.
pub open spec fn descends_only_into_dirs(
    items: Seq<Result<EntryRecord, IoError>>,
    prev_depth: int,
    prev_dir_like: bool,
) -> bool
    decreases items.len(),
{
    if items.len() == 0 {
        true
    } else {
        match items.first() {
            Err(_) => descends_only_into_dirs(items.drop_first(), prev_depth, prev_dir_like),
            Ok(e) => ((e.depth as int > prev_depth) ==> prev_dir_like)
                && descends_only_into_dirs(
                items.drop_first(),
                e.depth as int,
                spec_dir_like(e),
            ),
        }
    }
}

/// The walk position after a stream: the depth and kind of its last
/// successfully yielded entry, or the position it started from.
pub open spec fn stream_final_position(
    items: Seq<Result<EntryRecord, IoError>>,
    prev_depth: int,
    prev_dir_like: bool,
) -> (int, bool)
    decreases items.len(),
{
    if items.len() == 0 {
        (prev_depth, prev_dir_like)
    } else {
        match items.first() {
            Err(_) => stream_final_position(items.drop_first(), prev_depth, prev_dir_like),
            Ok(e) => stream_final_position(
                items.drop_first(),
                e.depth as int,
                spec_dir_like(e),
            ),
        }
    }
}

/// Whether every root's stream steps down only behind directory-like
/// entries, with the walk position carried from one root to the next.
pub open spec fn roots_descend_only_into_dirs(
    roots: Seq<RootWalk>,
    prev_depth: int,
    prev_dir_like: bool,
) -> bool
    decreases roots.len(),
{
    if roots.len() == 0 {
        true
    } else {
        let r = roots.first();
        match r.device_id {
            Err(_) => roots_descend_only_into_dirs(roots.drop_first(), prev_depth, prev_dir_like),
            Ok(_) => descends_only_into_dirs(r.entries@, prev_depth, prev_dir_like)
                && roots_descend_only_into_dirs(
                roots.drop_first(),
                stream_final_position(r.entries@, prev_depth, prev_dir_like).0,
                stream_final_position(r.entries@, prev_depth, prev_dir_like).1,
            ),
        }
    }
}

/// A directory-like entry contributes no bytes.
pub proof fn lemma_dir_like_contributes_nothing(
    o: WalkOptions,
    root_device_id: u64,
    e: EntryRecord,
    seen: Set<u128>,
)
    requires
        spec_dir_like(e),
    ensures
        tree_item_size(o, root_device_id, e, seen) == 0,
{
}

/// One stream that steps down only behind directory-like entries keeps
/// the fold clean, and leaves the fold at the stream's final position
/// with a zero previous contribution behind every directory-like entry.
proof fn lemma_items_dir_only_keeps_clean(
    o: WalkOptions,
    root_device_id: u64,
    root_path: Seq<char>,
    st: TreeFoldState,
    items: Seq<Result<EntryRecord, IoError>>,
    prev_dir_like: bool,
)
    requires
        st.clean,
        st.ok ==> descends_only_into_dirs(items, st.prev_depth, prev_dir_like),
        prev_dir_like ==> st.prev_counted == 0,
    ensures
        ({
            let f = tree_fold_items(o, root_device_id, root_path, st, items);
            &&& f.clean
            &&& (f.ok ==> {
                let fp = stream_final_position(items, st.prev_depth, prev_dir_like);
                &&& f.prev_depth == fp.0
                &&& (fp.1 ==> f.prev_counted == 0)
            })
        }),
    decreases items.len(),
{
    if !st.ok {
        lemma_tree_fold_items_stuck(o, root_device_id, root_path, st, items);
    } else if items.len() > 0 {
        let st1 = tree_step(o, root_device_id, root_path, st, items.first());
        match items.first() {
            Err(_) => {
                lemma_items_dir_only_keeps_clean(
                    o,
                    root_device_id,
                    root_path,
                    st1,
                    items.drop_first(),
                    prev_dir_like,
                );
            },
            Ok(e) => {
                if st1.ok {
                    if spec_dir_like(e) {
                        lemma_dir_like_contributes_nothing(o, root_device_id, e, st.seen);
                    }
                    lemma_items_dir_only_keeps_clean(
                        o,
                        root_device_id,
                        root_path,
                        st1,
                        items.drop_first(),
                        spec_dir_like(e),
                    );
                } else {
                    assert(st1.clean == st.clean);
                    lemma_tree_fold_items_stuck(o, root_device_id, root_path, st1, items.drop_first());
                }
            },
        }
    }
}

/// Roots whose streams step down only behind directory-like entries keep
/// the tree fold clean: together with the contract of
/// [`Traversal::from_entries`], every directory node of the built tree
/// then holds exactly the sum of its direct children's sizes — and so,
/// recursively, the total leaf size of its subtree.
pub proof fn lemma_dir_only_descent_keeps_clean(
    o: WalkOptions,
    st: TreeFoldState,
    roots: Seq<RootWalk>,
    prev_dir_like: bool,
)
    requires
        st.clean,
        st.ok ==> roots_descend_only_into_dirs(roots, st.prev_depth, prev_dir_like),
        prev_dir_like ==> st.prev_counted == 0,
    ensures
        tree_fold_roots(o, st, roots).clean,
    decreases roots.len(),
{
    if roots.len() > 0 {
        let r = roots.first();
        match r.device_id {
            Err(_) => {
                lemma_dir_only_descent_keeps_clean(
                    o,
                    TreeFoldState { errors: st.errors + 1, ..st },
                    roots.drop_first(),
                    prev_dir_like,
                );
            },
            Ok(dev) => {
                lemma_items_dir_only_keeps_clean(o, dev, r.path@, st, r.entries@, prev_dir_like);
                let f = tree_fold_items(o, dev, r.path@, st, r.entries@);
                if !st.ok {
                    lemma_tree_fold_items_stuck(o, dev, r.path@, st, r.entries@);
                }
                if f.ok {
                    assert(st.ok);
                    lemma_dir_only_descent_keeps_clean(
                        o,
                        f,
                        roots.drop_first(),
                        stream_final_position(r.entries@, st.prev_depth, prev_dir_like).1,
                    );
                } else {
                    lemma_tree_fold_roots_stuck(o, f, roots.drop_first());
                }
            },
        }
    }
}

} // verus!
