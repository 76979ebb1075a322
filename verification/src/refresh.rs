//! The incremental refresh builder: the depth-stack fold of
//! [`crate::traverse`], enriched for live re-scans of an already displayed
//! tree. Each node additionally records whether it is a directory, how many
//! descendants have been folded into it, and whether its subtree has been
//! fully drained (`is_complete`); `is_visited` is reserved for a consumer
//! reconciling this tree against a previously built one and is never set
//! here.

use crate::common::elapsed_millis;
use crate::common::instant_now;
use crate::common::sat_add_u128;
use crate::common::sat_add_u64;
use crate::common::spec_clip_u128;
use crate::common::spec_clip_u64;
use crate::common::spec_sat_add_u64;
use crate::common::Throttle;
use crate::fs_walk::entry_file_size;
use crate::fs_walk::record_of_entry;
use crate::fs_walk::spec_counted_size;
use crate::fs_walk::spec_gate;
use crate::fs_walk::spec_seen_after;
use crate::fs_walk::spec_size_error;
use crate::fs_walk::EntryRecord;
use crate::fs_walk::IoError;
use crate::fs_walk::WalkOptions;
use crate::fs_walk::Walker;
use crate::inodefilter::InodeFilter;
use crate::fs_walk::RootWalk;
use crate::traverse::TreeIndex;
use crate::traverse::WalkerContractViolation;
use vstd::prelude::*;

verus! {

/// What one refresh node records about its filesystem entry.
#[derive(Debug, PartialEq, Eq, Clone)]
pub struct RefreshEntryData {
    /// The file name of the entry; the walked root path for a root entry;
    /// empty for the synthetic root node.
    pub name: String,
    /// The entry's size in bytes. For a directory, the aggregated size of
    /// all children.
    pub size: u128,
    /// Seconds since the epoch of the last modification; 0 when unknown.
    pub mtime: u64,
    /// The number of entries folded into this node so far; `None` until
    /// anything was.
    pub entry_count: Option<u64>,
    /// Whether the entry was taken for a directory.
    pub is_dir: bool,
    /// Whether the node's subtree has been fully drained.
    pub is_complete: bool,
    /// Reserved for a consumer reconciling against a previous tree; never
    /// set by the builder.
    pub is_visited: bool,
}

impl Default for RefreshEntryData {
    /// An empty, incomplete, unvisited non-directory node.
    fn default() -> (d: RefreshEntryData)
        ensures
            d.name@ == Seq::<char>::empty(),
            d.size == 0,
            d.mtime == 0,
            d.entry_count is None,
            !d.is_dir,
            !d.is_complete,
            !d.is_visited,
    {
        RefreshEntryData {
            name: String::new(),
            size: 0,
            mtime: 0,
            entry_count: None,
            is_dir: false,
            is_complete: false,
            is_visited: false,
        }
    }
}

/// One node of a refresh tree: its data and the index of its parent.
#[derive(Debug, PartialEq, Eq, Clone)]
pub struct RefreshNode {
    pub data: RefreshEntryData,
    pub parent: Option<TreeIndex>,
}

/// A refresh tree, stored as an arena: node 0 is the synthetic root, and
/// each non-root node points to its parent.
#[derive(Debug, PartialEq, Eq, Clone)]
pub struct RefreshTree {
    pub nodes: Vec<RefreshNode>,
}

/// Whether a refresh node names `p` as its parent.
pub open spec fn refresh_parent_is(n: RefreshNode, p: int) -> bool {
    n.parent matches Some(q) && q as int == p
}

/// Whether node `k` is a child of node `p`.
pub open spec fn refresh_is_child_of(nodes: Seq<RefreshNode>, k: int, p: int) -> bool {
    &&& 0 <= k < nodes.len()
    &&& refresh_parent_is(nodes[k], p)
}

/// A well-formed refresh arena: node 0 is the parentless root, and every
/// other node's parent is an earlier node.
pub open spec fn refresh_tree_wf(nodes: Seq<RefreshNode>) -> bool {
    &&& nodes.len() >= 1
    &&& nodes[0].parent is None
    &&& forall|i: int|
        1 <= i < nodes.len() ==> ((#[trigger] nodes[i].parent) matches Some(p) && (p as int) < i)
}

/// The summed sizes of the children of `p` among the first `upto` nodes.
pub open spec fn refresh_child_sum(nodes: Seq<RefreshNode>, p: int, upto: int) -> int
    decreases upto,
{
    if upto <= 0 {
        0
    } else {
        refresh_child_sum(nodes, p, upto - 1) + if refresh_is_child_of(nodes, upto - 1, p) {
            nodes[upto - 1].data.size as int
        } else {
            0
        }
    }
}

/// Whether node `p` has at least one child.
pub open spec fn refresh_has_child(nodes: Seq<RefreshNode>, p: int) -> bool {
    exists|k: int| refresh_is_child_of(nodes, k, p)
}

/// Every non-root node with at least one child holds exactly the sum of
/// its children's sizes.
pub open spec fn refresh_sizes_consistent(nodes: Seq<RefreshNode>) -> bool {
    forall|p: int|
        1 <= p < nodes.len() && #[trigger] refresh_has_child(nodes, p) ==> nodes[p].data.size
            as int == refresh_child_sum(nodes, p, nodes.len() as int)
}

/// Appending a node does not change child sums over the existing prefix.
proof fn lemma_refresh_child_sum_push(nodes: Seq<RefreshNode>, n: RefreshNode, p: int, upto: int)
    requires
        0 <= upto <= nodes.len(),
    ensures
        refresh_child_sum(nodes.push(n), p, upto) == refresh_child_sum(nodes, p, upto),
    decreases upto,
{
    if upto > 0 {
        lemma_refresh_child_sum_push(nodes, n, p, upto - 1);
        assert(nodes.push(n)[upto - 1] == nodes[upto - 1]);
    }
}

/// Appending a node adds exactly its size to its parent's child sum, and
/// nothing to any other node's.
proof fn lemma_refresh_child_sum_push_full(nodes: Seq<RefreshNode>, n: RefreshNode, p: int)
    ensures
        refresh_child_sum(nodes.push(n), p, nodes.len() as int + 1) == refresh_child_sum(
            nodes,
            p,
            nodes.len() as int,
        ) + if refresh_parent_is(n, p) {
            n.data.size as int
        } else {
            0
        },
{
    lemma_refresh_child_sum_push(nodes, n, p, nodes.len() as int);
    assert(nodes.push(n)[nodes.len() as int] == n);
}

/// Appending a node gives children only to its own parent.
proof fn lemma_refresh_has_child_push(nodes: Seq<RefreshNode>, n: RefreshNode, p: int)
    ensures
        refresh_has_child(nodes.push(n), p) <==> (refresh_has_child(nodes, p)
            || refresh_parent_is(n, p)),
{
    if refresh_has_child(nodes, p) {
        let k = choose|k: int| refresh_is_child_of(nodes, k, p);
        assert(refresh_is_child_of(nodes.push(n), k, p));
    }
    if refresh_parent_is(n, p) {
        assert(refresh_is_child_of(nodes.push(n), nodes.len() as int, p));
    }
    if refresh_has_child(nodes.push(n), p) && !refresh_parent_is(n, p) {
        let k = choose|k: int| refresh_is_child_of(nodes.push(n), k, p);
        assert(k < nodes.len());
        assert(refresh_is_child_of(nodes, k, p));
    }
}

/// Replacing one node, without changing its parent, changes nobody's set
/// of children.
proof fn lemma_refresh_has_child_update(nodes: Seq<RefreshNode>, u: int, nd: RefreshNode, p: int)
    requires
        0 <= u < nodes.len(),
        nodes[u].parent == nd.parent,
    ensures
        refresh_has_child(nodes.update(u, nd), p) <==> refresh_has_child(nodes, p),
{
    if refresh_has_child(nodes, p) {
        let k = choose|k: int| refresh_is_child_of(nodes, k, p);
        assert(refresh_is_child_of(nodes.update(u, nd), k, p));
    }
    if refresh_has_child(nodes.update(u, nd), p) {
        let k = choose|k: int| refresh_is_child_of(nodes.update(u, nd), k, p);
        assert(refresh_is_child_of(nodes, k, p));
    }
}

/// A parentless node contributes nothing to anyone's child sum.
proof fn lemma_refresh_no_child_sum_zero(nodes: Seq<RefreshNode>, p: int, upto: int)
    requires
        forall|k: int| !refresh_is_child_of(nodes, k, p),
        0 <= upto <= nodes.len(),
    ensures
        refresh_child_sum(nodes, p, upto) == 0,
    decreases upto,
{
    if upto > 0 {
        lemma_refresh_no_child_sum_zero(nodes, p, upto - 1);
    }
}

/// Spine indices grow strictly along the spine.
proof fn lemma_refresh_spine_increasing(spine: Seq<usize>, a: int, b: int)
    requires
        forall|j: int| 0 <= j < spine.len() - 1 ==> spine[j] < #[trigger] spine[j + 1],
        0 <= a < b < spine.len(),
    ensures
        spine[a] < spine[b],
    decreases b - a,
{
    assert(spine[a] < spine[a + 1]);
    if a + 1 < b {
        lemma_refresh_spine_increasing(spine, a + 1, b);
    }
}

/// Whether an entry is taken for a directory by the refresh builder: a
/// stat'ed entry that is a directory, or one whose size is not counted at
/// all (a deduplicated hard link or a foreign-device entry).
pub open spec fn refresh_entry_is_dir(
    o: WalkOptions,
    root_device_id: u64,
    e: EntryRecord,
    seen: Set<u128>,
) -> bool {
    match e.metadata {
        Some(Ok(m)) => !spec_gate(o, root_device_id, m, seen),
        _ => false,
    }
}

/// What one refresh node looks like, as the fold prescribes it: the views
/// of its name and mtime, its directory flag, and its parent's index
/// (`None` only for the synthetic root). Sizes, entry counts and
/// completion flags are not part of the shape: they are finalized only
/// when traversal departs a subtree, and are governed by
/// [`refresh_sizes_consistent`] and the completion clauses instead.
pub struct RefreshNodeShape {
    pub name: Seq<char>,
    pub mtime: int,
    pub is_dir: bool,
    pub parent: Option<int>,
    /// The bytes the entry contributed when its node was created. A node
    /// that never becomes a parent keeps exactly this size; a parent's
    /// size is the finalized sum of its children instead.
    pub size: int,
}

/// Whether a refresh arena carries exactly the prescribed names, mtimes,
/// directory flags and parent links, node for node.
#[verifier::opaque]
pub open spec fn refresh_nodes_match_shape(
    nodes: Seq<RefreshNode>,
    shape: Seq<RefreshNodeShape>,
) -> bool {
    &&& nodes.len() == shape.len()
    &&& forall|i: int|
        0 <= i < nodes.len() ==> {
            &&& (#[trigger] nodes[i]).data.name@ == shape[i].name
            &&& nodes[i].data.mtime as int == shape[i].mtime
            &&& nodes[i].data.is_dir == shape[i].is_dir
            &&& (match (nodes[i].parent, shape[i].parent) {
                (Some(a), Some(b)) => a as int == b,
                (None, None) => true,
                _ => false,
            })
        }
}

/// Whether every node that never became a parent holds exactly the bytes
/// its entry contributed at creation. Together with
/// [`refresh_sizes_consistent`] and the root's child sum this determines
/// every node's size.
#[verifier::opaque]
pub open spec fn refresh_childless_sizes_match(
    nodes: Seq<RefreshNode>,
    shape: Seq<RefreshNodeShape>,
) -> bool {
    forall|i: int|
        0 <= i < nodes.len() && i < shape.len() && !refresh_has_child(nodes, i) ==> (
        #[trigger] nodes[i]).data.size as int == shape[i].size
}

/// A finalizing update on a node that has children cannot break the
/// childless-size property.
proof fn lemma_refresh_childless_after_update(
    nodes0: Seq<RefreshNode>,
    nodes: Seq<RefreshNode>,
    shape: Seq<RefreshNodeShape>,
    u: int,
)
    requires
        refresh_childless_sizes_match(nodes0, shape),
        nodes.len() == nodes0.len(),
        0 <= u < nodes0.len(),
        forall|k: int| 0 <= k < nodes0.len() && k != u ==> nodes[k] == nodes0[k],
        nodes[u].parent == nodes0[u].parent,
        refresh_has_child(nodes0, u),
    ensures
        refresh_childless_sizes_match(nodes, shape),
{
    reveal(refresh_childless_sizes_match);
    assert(nodes =~= nodes0.update(u, nodes[u]));
    assert forall|i: int|
        0 <= i < nodes.len() && i < shape.len() && !refresh_has_child(nodes, i) implies (
    #[trigger] nodes[i]).data.size as int == shape[i].size by {
        lemma_refresh_has_child_update(nodes0, u, nodes[u], i);
        assert(!refresh_has_child(nodes0, i));
        assert(i != u);
        assert(nodes[i] == nodes0[i]);
    }
}

/// Appending a node whose creation size carries the appended shape keeps
/// the childless-size property.
proof fn lemma_refresh_childless_after_push(
    nodes0: Seq<RefreshNode>,
    shape0: Seq<RefreshNodeShape>,
    n: RefreshNode,
    sh: RefreshNodeShape,
)
    requires
        refresh_childless_sizes_match(nodes0, shape0),
        nodes0.len() == shape0.len(),
        n.data.size as int == sh.size,
    ensures
        refresh_childless_sizes_match(nodes0.push(n), shape0.push(sh)),
{
    reveal(refresh_childless_sizes_match);
    let nodes = nodes0.push(n);
    let shape = shape0.push(sh);
    assert forall|i: int|
        0 <= i < nodes.len() && i < shape.len() && !refresh_has_child(nodes, i) implies (
    #[trigger] nodes[i]).data.size as int == shape[i].size by {
        lemma_refresh_has_child_push(nodes0, n, i);
        if i < nodes0.len() {
            assert(!refresh_has_child(nodes0, i));
            assert(nodes[i] == nodes0[i]);
            assert(shape[i] == shape0[i]);
        } else {
            assert(nodes[i] == n);
            assert(shape[i] == sh);
        }
    }
}

/// The mtime one entry carries into its refresh node: its modification
/// time, or 0 when it failed or was never fetched.
pub open spec fn refresh_entry_mtime(e: EntryRecord) -> int {
    match e.metadata {
        Some(Ok(m)) => match m.modified {
            Ok(t) => t as int,
            Err(_) => 0,
        },
        _ => 0,
    }
}

/// The shape of the node one yielded entry becomes: named by the root
/// path at depth 0 and by its file name below, carrying its mtime and
/// whether it was taken for a directory, under the given parent.
pub open spec fn refresh_entry_shape(
    o: WalkOptions,
    root_device_id: u64,
    root_path: Seq<char>,
    e: EntryRecord,
    seen: Set<u128>,
    parent: int,
) -> RefreshNodeShape {
    RefreshNodeShape {
        name: if e.depth == 0 {
            root_path
        } else {
            e.file_name@
        },
        mtime: refresh_entry_mtime(e),
        is_dir: refresh_entry_is_dir(o, root_device_id, e, seen),
        parent: Some(parent),
        size: match e.metadata {
            Some(Ok(m)) => spec_counted_size(o, root_device_id, m, seen) as int,
            _ => 0,
        },
    }
}

/// A finalizing update (size, entry count, completion) leaves the shape
/// of the arena intact.
proof fn lemma_refresh_match_after_update(
    nodes0: Seq<RefreshNode>,
    nodes: Seq<RefreshNode>,
    shape: Seq<RefreshNodeShape>,
    u: int,
)
    requires
        refresh_nodes_match_shape(nodes0, shape),
        nodes.len() == nodes0.len(),
        0 <= u < nodes0.len(),
        forall|k: int| 0 <= k < nodes0.len() && k != u ==> nodes[k] == nodes0[k],
        nodes[u].data.name == nodes0[u].data.name,
        nodes[u].data.mtime == nodes0[u].data.mtime,
        nodes[u].data.is_dir == nodes0[u].data.is_dir,
        nodes[u].parent == nodes0[u].parent,
    ensures
        refresh_nodes_match_shape(nodes, shape),
{
    reveal(refresh_nodes_match_shape);
    assert forall|i: int| 0 <= i < nodes.len() implies {
        &&& (#[trigger] nodes[i]).data.name@ == shape[i].name
        &&& nodes[i].data.mtime as int == shape[i].mtime
        &&& nodes[i].data.is_dir == shape[i].is_dir
        &&& (match (nodes[i].parent, shape[i].parent) {
            (Some(a), Some(b)) => a as int == b,
            (None, None) => true,
            _ => false,
        })
    } by {
        if i != u {
            assert(nodes[i] == nodes0[i]);
        }
    }
}

/// Appending one node whose fields carry the appended shape keeps the
/// arena matching.
proof fn lemma_refresh_match_after_push(
    nodes0: Seq<RefreshNode>,
    shape0: Seq<RefreshNodeShape>,
    n: RefreshNode,
    sh: RefreshNodeShape,
)
    requires
        refresh_nodes_match_shape(nodes0, shape0),
        n.data.name@ == sh.name,
        n.data.mtime as int == sh.mtime,
        n.data.is_dir == sh.is_dir,
        (match (n.parent, sh.parent) {
            (Some(a), Some(b)) => a as int == b,
            (None, None) => true,
            _ => false,
        }),
    ensures
        refresh_nodes_match_shape(nodes0.push(n), shape0.push(sh)),
{
    reveal(refresh_nodes_match_shape);
    let nodes = nodes0.push(n);
    let shape = shape0.push(sh);
    assert forall|i: int| 0 <= i < nodes.len() implies {
        &&& (#[trigger] nodes[i]).data.name@ == shape[i].name
        &&& nodes[i].data.mtime as int == shape[i].mtime
        &&& nodes[i].data.is_dir == shape[i].is_dir
        &&& (match (nodes[i].parent, shape[i].parent) {
            (Some(a), Some(b)) => a as int == b,
            (None, None) => true,
            _ => false,
        })
    } by {
        if i < nodes0.len() {
            assert(nodes[i] == nodes0[i]);
            assert(shape[i] == shape0[i]);
        } else {
            assert(nodes[i] == n);
            assert(shape[i] == sh);
        }
    }
}

/// The observable state of the refresh fold over a stream: like the tree
/// fold of [`crate::traverse`], but tracking whether the previous entry
/// was taken for a directory, since only such entries may be stepped down
/// into.
pub struct RefreshFoldState {
    /// No contract violation or entry-counter overflow so far.
    pub ok: bool,
    /// Depth of the previous successfully yielded entry.
    pub prev_depth: int,
    /// Whether any entry node exists yet.
    pub started: bool,
    /// Whether the previous entry was taken for a directory.
    pub prev_is_dir: bool,
    /// The hard-link filter contents.
    pub seen: Set<u128>,
    /// Accumulated io errors.
    pub errors: int,
    /// Accumulated traversed entries.
    pub entries: int,
    /// The shape of every node so far, in arena order: the synthetic
    /// root, then one node per yielded entry, plus one placeholder per
    /// enumeration error arriving while the walk position is at root
    /// depth.
    pub shape: Seq<RefreshNodeShape>,
    /// The indices of the open ancestors, outermost first; the synthetic
    /// root is always open.
    pub spine: Seq<int>,
    /// The index of the previous entry's node.
    pub prev_node: int,
}

/// The initial refresh fold state: nothing walked yet, only the synthetic
/// root.
pub open spec fn refresh_fold_init() -> RefreshFoldState {
    RefreshFoldState {
        ok: true,
        prev_depth: 0,
        started: false,
        prev_is_dir: false,
        seen: Set::empty(),
        errors: 0,
        entries: 0,
        shape: seq![
            RefreshNodeShape {
                name: Seq::empty(),
                mtime: 0,
                is_dir: true,
                parent: None,
                size: 0,
            },
        ],
        spine: seq![0int],
        prev_node: 0,
    }
}

/// The io errors one successfully yielded entry contributes.
pub open spec fn refresh_entry_errors(
    o: WalkOptions,
    root_device_id: u64,
    e: EntryRecord,
    seen: Set<u128>,
) -> int {
    match e.metadata {
        None => 0,
        Some(Err(_)) => 1,
        Some(Ok(m)) => (if spec_size_error(o, root_device_id, m, seen) {
            1int
        } else {
            0int
        }) + (if m.modified is Err {
            1int
        } else {
            0int
        }),
    }
}

/// How one stream item advances the refresh fold. Beyond the ordering
/// demands of the plain tree fold, an entry one level deeper than its
/// predecessor is in order only if that predecessor was taken for a
/// directory; a walker that descends into anything else has broken its
/// contract.
pub open spec fn refresh_step(
    o: WalkOptions,
    root_device_id: u64,
    root_path: Seq<char>,
    st: RefreshFoldState,
    item: Result<EntryRecord, IoError>,
) -> RefreshFoldState {
    if !st.ok {
        st
    } else if st.entries >= u64::MAX {
        RefreshFoldState { ok: false, ..st }
    } else {
        match item {
            Err(_) => RefreshFoldState {
                entries: st.entries + 1,
                errors: st.errors + 1,
                shape: if st.prev_depth == 0 {
                    st.shape.push(
                        RefreshNodeShape {
                            name: root_path,
                            mtime: 0,
                            is_dir: false,
                            parent: Some(st.spine.last()),
                            size: 0,
                        },
                    )
                } else {
                    st.shape
                },
                ..st
            },
            Ok(e) => {
                let d = e.depth as int;
                if d > st.prev_depth + 1 || (d == st.prev_depth + 1 && !(st.started
                    && st.prev_is_dir)) {
                    RefreshFoldState { ok: false, ..st }
                } else {
                    let spine = if d == st.prev_depth + 1 {
                        st.spine.push(st.prev_node)
                    } else {
                        st.spine.take(d + 1)
                    };
                    RefreshFoldState {
                        ok: true,
                        prev_depth: d,
                        started: true,
                        prev_is_dir: refresh_entry_is_dir(o, root_device_id, e, st.seen),
                        seen: match e.metadata {
                            Some(Ok(m)) => spec_seen_after(o, m, st.seen),
                            _ => st.seen,
                        },
                        errors: st.errors + refresh_entry_errors(o, root_device_id, e, st.seen),
                        entries: st.entries + 1,
                        shape: st.shape.push(
                            refresh_entry_shape(
                                o,
                                root_device_id,
                                root_path,
                                e,
                                st.seen,
                                spine.last(),
                            ),
                        ),
                        spine,
                        prev_node: st.shape.len() as int,
                    }
                }
            },
        }
    }
}

/// The refresh fold over a whole stream, item by item from the front.
pub open spec fn refresh_fold_items(
    o: WalkOptions,
    root_device_id: u64,
    root_path: Seq<char>,
    st: RefreshFoldState,
    items: Seq<Result<EntryRecord, IoError>>,
) -> RefreshFoldState
    decreases items.len(),
{
    if items.len() == 0 {
        st
    } else {
        refresh_fold_items(
            o,
            root_device_id,
            root_path,
            refresh_step(o, root_device_id, root_path, st, items.first()),
            items.drop_first(),
        )
    }
}

/// The refresh fold over a sequence of walked roots.
pub open spec fn refresh_fold_roots(
    o: WalkOptions,
    st: RefreshFoldState,
    roots: Seq<RootWalk>,
) -> RefreshFoldState
    decreases roots.len(),
{
    if roots.len() == 0 {
        st
    } else {
        let r = roots.first();
        let st1 = match r.device_id {
            Err(_) => RefreshFoldState { errors: st.errors + 1, ..st },
            Ok(dev) => refresh_fold_items(o, dev, r.path@, st, r.entries@),
        };
        refresh_fold_roots(o, st1, roots.drop_first())
    }
}

/// A fold that has stopped stays where it stopped.
proof fn lemma_refresh_fold_items_stuck(
    o: WalkOptions,
    root_device_id: u64,
    root_path: Seq<char>,
    st: RefreshFoldState,
    items: Seq<Result<EntryRecord, IoError>>,
)
    requires
        !st.ok,
    ensures
        refresh_fold_items(o, root_device_id, root_path, st, items) == st,
    decreases items.len(),
{
    if items.len() > 0 {
        lemma_refresh_fold_items_stuck(o, root_device_id, root_path, st, items.drop_first());
    }
}

/// Once a fold has stopped, no later root restores it.
proof fn lemma_refresh_fold_roots_stuck(o: WalkOptions, st: RefreshFoldState, roots: Seq<RootWalk>)
    requires
        !st.ok,
    ensures
        !refresh_fold_roots(o, st, roots).ok,
    decreases roots.len(),
{
    if roots.len() > 0 {
        let r = roots.first();
        match r.device_id {
            Err(_) => {
                lemma_refresh_fold_roots_stuck(
                    o,
                    RefreshFoldState { errors: st.errors + 1, ..st },
                    roots.drop_first(),
                );
            },
            Ok(dev) => {
                lemma_refresh_fold_items_stuck(o, dev, r.path@, st, r.entries@);
                lemma_refresh_fold_roots_stuck(o, st, roots.drop_first());
            },
        }
    }
}

/// A per-depth accumulator of the refresh build: the bytes and the entry
/// count folded into one open directory so far.
#[derive(Clone, Copy, Debug, PartialEq, Eq)]
pub(crate) struct EntryInfo {
    pub size: u128,
    pub entries_count: Option<u64>,
}

impl EntryInfo {
    /// Fold another accumulator's entry count into this one; counts
    /// saturate instead of overflowing.
    pub(crate) fn add_count(&mut self, other: &EntryInfo)
        ensures
            final(self).size == old(self).size,
            final(self).entries_count == (match (old(self).entries_count, other.entries_count) {
                (Some(a), Some(b)) => Some((spec_sat_add_u64(a as int, b as int)) as u64),
                (None, Some(b)) => Some(b),
                (Some(a), None) => Some(a),
                (None, None) => None::<u64>,
            }),
    {
        self.entries_count = match (self.entries_count, other.entries_count) {
            (Some(a), Some(b)) => Some(sat_add_u64(a, b)),
            (None, Some(b)) => Some(b),
            (Some(a), None) => Some(a),
            (None, None) => None,
        };
    }
}

/// The summed sizes of a stack of accumulators.
pub(crate) open spec fn info_sum(s: Seq<EntryInfo>) -> int
    decreases s.len(),
{
    if s.len() == 0 {
        0
    } else {
        info_sum(s.drop_last()) + s.last().size
    }
}

proof fn lemma_info_sum_nonneg(s: Seq<EntryInfo>)
    ensures
        info_sum(s) >= 0,
    decreases s.len(),
{
    if s.len() > 0 {
        lemma_info_sum_nonneg(s.drop_last());
    }
}

proof fn lemma_info_sum_push(s: Seq<EntryInfo>, v: EntryInfo)
    ensures
        info_sum(s.push(v)) == info_sum(s) + v.size,
{
    assert(s.push(v).drop_last() =~= s);
}

proof fn lemma_refresh_child_sum_nonneg(nodes: Seq<RefreshNode>, p: int, upto: int)
    ensures
        refresh_child_sum(nodes, p, upto) >= 0,
    decreases upto,
{
    if upto > 0 {
        lemma_refresh_child_sum_nonneg(nodes, p, upto - 1);
    }
}

/// Replacing one node, without changing its parent, moves only its own
/// parent's child sum.
proof fn lemma_refresh_child_sum_update(
    nodes: Seq<RefreshNode>,
    u: int,
    nd: RefreshNode,
    p: int,
    upto: int,
)
    requires
        0 <= u < nodes.len(),
        nodes[u].parent == nd.parent,
        0 <= upto <= nodes.len(),
    ensures
        refresh_child_sum(nodes.update(u, nd), p, upto) == refresh_child_sum(nodes, p, upto) + if u
            < upto && refresh_is_child_of(nodes, u, p) {
            nd.data.size - nodes[u].data.size
        } else {
            0
        },
    decreases upto,
{
    if upto > 0 {
        lemma_refresh_child_sum_update(nodes, u, nd, p, upto - 1);
        if upto - 1 != u {
            assert(nodes.update(u, nd)[upto - 1] == nodes[upto - 1]);
        }
    }
}

/// Write a finalized directory's accumulator into its node and mark the
/// subtree complete. Only nodes taken for directories are ever finalized.
fn set_entry_info_or_panic(tree: &mut RefreshTree, node_idx: TreeIndex, info: EntryInfo)
    requires
        node_idx < old(tree).nodes@.len(),
        old(tree).nodes@[node_idx as int].data.is_dir,
    ensures
        final(tree).nodes@ == old(tree).nodes@.update(
            node_idx as int,
            final(tree).nodes@[node_idx as int],
        ),
        final(tree).nodes@.len() == old(tree).nodes@.len(),
        final(tree).nodes@[node_idx as int].parent == old(tree).nodes@[node_idx as int].parent,
        final(tree).nodes@[node_idx as int].data == (RefreshEntryData {
            size: info.size,
            entry_count: info.entries_count,
            is_complete: true,
            ..old(tree).nodes@[node_idx as int].data
        }),
{
    tree.nodes[node_idx].data.size = info.size;
    tree.nodes[node_idx].data.entry_count = info.entries_count;
    tree.nodes[node_idx].data.is_complete = true;
}

/// The parent of a node that has one, or a fatal walker-contract breach.
fn parent_or_panic(tree: &RefreshTree, parent_node_idx: TreeIndex) -> (r: TreeIndex)
    requires
        parent_node_idx < tree.nodes@.len(),
        tree.nodes@[parent_node_idx as int].parent is Some,
    ensures
        Some(r) == tree.nodes@[parent_node_idx as int].parent,
{
    match tree.nodes[parent_node_idx].parent {
        Some(q) => q,
        None => vstd::pervasive::unreached(),
    }
}

/// The top of the accumulator stack, or a fatal walker-contract breach.
fn pop_or_panic(v: &mut Vec<EntryInfo>) -> (r: EntryInfo)
    requires
        old(v)@.len() > 0,
    ensures
        r == old(v)@.last(),
        final(v)@ == old(v)@.drop_last(),
{
    match v.pop() {
        Some(x) => x,
        None => vstd::pervasive::unreached(),
    }
}

/// Appending a new child under the deepest open directory, while growing
/// the current accumulator by its size, keeps the exact-sum package.
proof fn lemma_refresh_append_sums(b0: RefreshBuilder, b1: RefreshBuilder, n: RefreshNode)
    requires
        b0.inv_core(),
        n.parent == Some(b0.spine@.last()),
        b1.spine@ == b0.spine@,
        b1.directory_info_per_depth_level@ == b0.directory_info_per_depth_level@,
        b1.tree.nodes@ == b0.tree.nodes@.push(n),
        b1.current_directory_at_depth.size as int == b0.current_directory_at_depth.size as int
            + n.data.size as int,
    ensures
        b1.sums_ok(),
{
    let nodes0 = b0.tree.nodes@;
    let nodes = b1.tree.nodes@;
    let spine = b0.spine@;
    let stack = b0.directory_info_per_depth_level@;
    let last = spine.last() as int;
    lemma_refresh_child_sum_push_full(nodes0, n, last);
    assert forall|j: int| 1 <= j < spine.len() implies nodes[#[trigger] spine[j] as int].data.size
        == 0 by {
        assert(nodes[spine[j] as int] == nodes0[spine[j] as int]);
    }
    assert forall|j: int| 0 <= j < stack.len() implies (#[trigger] stack[j]).size as int
        == refresh_child_sum(nodes, spine[j] as int, nodes.len() as int) by {
        lemma_refresh_child_sum_push_full(nodes0, n, spine[j] as int);
        assert(spine[j] as int != last) by {
            lemma_refresh_spine_increasing(spine, j, spine.len() - 1);
        }
    }
    assert forall|p: int|
        1 <= p < nodes.len() && #[trigger] refresh_has_child(nodes, p) && !spine.contains(
            p as usize,
        ) implies nodes[p].data.size as int == refresh_child_sum(nodes, p, nodes.len() as int) by {
        lemma_refresh_has_child_push(nodes0, n, p);
        lemma_refresh_child_sum_push_full(nodes0, n, p);
        assert(p != last);
        assert(p < nodes0.len());
        assert(nodes[p] == nodes0[p]);
        assert(!refresh_parent_is(n, p));
    }
}

/// Stepping down into the previous directory node: its accumulator
/// starts at the size of the new child appended beneath it, and the
/// exact-sum package is kept, because the directory stepped into holds
/// size 0 and has no children yet.
proof fn lemma_refresh_descend_sums(b0: RefreshBuilder, b1: RefreshBuilder, n: RefreshNode)
    requires
        b0.inv_core(),
        b0.previous_node_idx != 0,
        refresh_is_child_of(
            b0.tree.nodes@,
            b0.previous_node_idx as int,
            b0.spine@.last() as int,
        ),
        forall|k: int| !refresh_is_child_of(b0.tree.nodes@, k, b0.previous_node_idx as int),
        forall|j: int|
            0 <= j < b0.spine@.len() ==> #[trigger] b0.spine@[j] < b0.previous_node_idx,
        b0.tree.nodes@[b0.previous_node_idx as int].data.size == 0,
        n.parent == Some(b0.previous_node_idx),
        b1.spine@ == b0.spine@.push(b0.previous_node_idx),
        b1.directory_info_per_depth_level@ == b0.directory_info_per_depth_level@.push(
            b0.current_directory_at_depth,
        ),
        b1.tree.nodes@ == b0.tree.nodes@.push(n),
        b1.current_directory_at_depth.size == n.data.size,
    ensures
        b1.sums_ok(),
{
    let nodes0 = b0.tree.nodes@;
    let nodes = b1.tree.nodes@;
    let spine0 = b0.spine@;
    let spine = b1.spine@;
    let stack0 = b0.directory_info_per_depth_level@;
    let stack = b1.directory_info_per_depth_level@;
    let prev = b0.previous_node_idx as int;
    assert(spine.last() == b0.previous_node_idx);
    lemma_refresh_no_child_sum_zero(nodes0, prev, nodes0.len() as int);
    lemma_refresh_child_sum_push_full(nodes0, n, prev);
    assert(b1.current_directory_at_depth.size as int == refresh_child_sum(
        nodes,
        prev,
        nodes.len() as int,
    ));
    assert forall|j: int| 1 <= j < spine.len() implies nodes[#[trigger] spine[j] as int].data.size
        == 0 by {
        if j < spine0.len() {
            assert(spine[j] == spine0[j]);
            assert(nodes[spine0[j] as int] == nodes0[spine0[j] as int]);
        } else {
            assert(spine[j] == b0.previous_node_idx);
            assert(nodes[prev] == nodes0[prev]);
        }
    }
    assert forall|j: int| 0 <= j < stack.len() implies (#[trigger] stack[j]).size as int
        == refresh_child_sum(nodes, spine[j] as int, nodes.len() as int) by {
        lemma_refresh_child_sum_push_full(nodes0, n, spine[j] as int);
        assert(spine[j] < b0.previous_node_idx);
        assert(!refresh_parent_is(n, spine[j] as int));
        if j < stack0.len() {
            assert(stack[j] == stack0[j]);
            assert(spine[j] == spine0[j]);
        } else {
            assert(j == stack0.len() as int);
            assert(stack[j] == b0.current_directory_at_depth);
            assert(spine[j] == spine0.last());
        }
    }
    assert forall|p: int|
        1 <= p < nodes.len() && #[trigger] refresh_has_child(nodes, p) && !spine.contains(
            p as usize,
        ) implies nodes[p].data.size as int == refresh_child_sum(nodes, p, nodes.len() as int) by {
        lemma_refresh_has_child_push(nodes0, n, p);
        lemma_refresh_child_sum_push_full(nodes0, n, p);
        assert(p != prev);
        assert(!refresh_parent_is(n, p));
        assert(p < nodes0.len());
        assert(nodes[p] == nodes0[p]);
        assert(!spine0.contains(p as usize)) by {
            if spine0.contains(p as usize) {
                let w = choose|w: int| 0 <= w < spine0.len() && spine0[w] == p as usize;
                assert(spine[w] == p as usize);
                assert(spine.contains(p as usize));
            }
        }
    }
}

/// Closing one level keeps the exact-sum package: the closed directory
/// now holds precisely its child sum, and the folded-up accumulator is
/// the child sum of the new deepest open directory.
#[verifier::rlimit(100)]
proof fn lemma_refresh_close_sums(b0: RefreshBuilder, b1: RefreshBuilder)
    requires
        b0.inv_core(),
        b0.directory_info_per_depth_level@.len() >= 1,
        b1.spine@ == b0.spine@.drop_last(),
        b1.directory_info_per_depth_level@ == b0.directory_info_per_depth_level@.drop_last(),
        b1.tree.nodes@ == b0.tree.nodes@.update(
            b0.spine@.last() as int,
            b1.tree.nodes@[b0.spine@.last() as int],
        ),
        b1.tree.nodes@[b0.spine@.last() as int].parent == b0.tree.nodes@[b0.spine@.last() as int].parent,
        b1.tree.nodes@[b0.spine@.last() as int].data.size == b0.current_directory_at_depth.size,
        b1.current_directory_at_depth.size as int == b0.current_directory_at_depth.size as int
            + b0.directory_info_per_depth_level@.last().size as int,
    ensures
        b1.sums_ok(),
{
    let nodes0 = b0.tree.nodes@;
    let nodes = b1.tree.nodes@;
    let spine0 = b0.spine@;
    let spine = b1.spine@;
    let stack0 = b0.directory_info_per_depth_level@;
    let stack = b1.directory_info_per_depth_level@;
    let closing = spine0.last() as int;
    let nd = nodes[closing];
    let v = b0.current_directory_at_depth.size;
    assert(spine0.len() >= 2);
    assert(refresh_is_child_of(nodes0, closing, spine0[spine0.len() - 2] as int));
    assert(spine.last() == spine0[spine0.len() - 2]);
    assert(nodes0[closing].data.size == 0);

    assert forall|j: int| 1 <= j < spine.len() implies nodes[#[trigger] spine[j] as int].data.size
        == 0 by {
        assert(nodes0[spine0[j] as int].data.size == 0);
        assert(spine[j] as int != closing) by {
            lemma_refresh_spine_increasing(spine0, j, spine0.len() - 1);
        }
        assert(nodes[spine[j] as int] == nodes0[spine[j] as int]);
    }

    assert forall|p: int|
        1 <= p < nodes.len() && #[trigger] refresh_has_child(nodes, p) && !spine.contains(
            p as usize,
        ) implies nodes[p].data.size as int == refresh_child_sum(nodes, p, nodes.len() as int) by {
        lemma_refresh_has_child_update(nodes0, closing, nd, p);
        lemma_refresh_child_sum_update(nodes0, closing, nd, p, nodes0.len() as int);
        if p == closing {
            assert(nodes[p].data.size == v);
            assert(refresh_child_sum(nodes0, p, nodes0.len() as int)
                == b0.current_directory_at_depth.size as int);
            assert(!refresh_is_child_of(nodes0, closing, p)) by {
                if refresh_is_child_of(nodes0, closing, p) {
                    assert(refresh_parent_is(nodes0[closing], p));
                    assert(p == spine0[spine0.len() - 2] as int);
                    lemma_refresh_spine_increasing(spine0, spine0.len() - 2, spine0.len() - 1);
                }
            }
        } else {
            assert(!spine0.contains(p as usize)) by {
                if spine0.contains(p as usize) {
                    let w = choose|w: int| 0 <= w < spine0.len() && spine0[w] == p as usize;
                    assert(w < spine0.len() - 1);
                    assert(spine[w] == p as usize);
                    assert(spine.contains(p as usize));
                }
            }
            assert(nodes[p] == nodes0[p]);
            assert(!refresh_is_child_of(nodes0, closing, p)) by {
                if refresh_is_child_of(nodes0, closing, p) {
                    assert(refresh_parent_is(nodes0[closing], p));
                    assert(refresh_parent_is(nodes0[closing], spine0[spine0.len() - 2] as int));
                    assert(p == spine0[spine0.len() - 2] as int);
                    assert(spine.contains(p as usize));
                }
            }
        }
    }

    assert forall|j: int| 0 <= j < stack.len() implies (#[trigger] stack[j]).size as int
        == refresh_child_sum(nodes, spine[j] as int, nodes.len() as int) by {
        assert(stack[j] == stack0[j]);
        lemma_refresh_child_sum_update(nodes0, closing, nd, spine0[j] as int, nodes0.len() as int);
        assert(!refresh_is_child_of(nodes0, closing, spine0[j] as int)) by {
            if refresh_is_child_of(nodes0, closing, spine0[j] as int) {
                assert(refresh_parent_is(nodes0[closing], spine0[j] as int));
                assert(refresh_parent_is(nodes0[closing], spine0[spine0.len() - 2] as int));
                assert(spine0[j] == spine0[spine0.len() - 2]);
                if j < spine0.len() - 2 {
                    lemma_refresh_spine_increasing(spine0, j, spine0.len() - 2);
                }
            }
        }
    }

    // the folded-up accumulator is the child sum of the new deepest node
    lemma_refresh_child_sum_update(nodes0, closing, nd, spine.last() as int, nodes0.len() as int);
    assert(refresh_is_child_of(nodes0, closing, spine.last() as int));
    assert(stack0[stack0.len() as int - 1].size as int == refresh_child_sum(
        nodes0,
        spine0[stack0.len() as int - 1] as int,
        nodes0.len() as int,
    ));
    assert(spine0[stack0.len() as int - 1] == spine.last());
}

/// The in-progress state of one refresh build: like the tree builder of
/// [`crate::traverse`], with per-depth accumulators that also carry entry
/// counts, and the ghost fold state the exec fields follow.
struct RefreshBuilder {
    tree: RefreshTree,
    previous_node_idx: TreeIndex,
    parent_node_idx: TreeIndex,
    directory_info_per_depth_level: Vec<EntryInfo>,
    current_directory_at_depth: EntryInfo,
    previous_depth: usize,
    entries_traversed: u64,
    io_errors: u64,
    inodes: InodeFilter,
    spine: Ghost<Seq<usize>>,
    st: Ghost<RefreshFoldState>,
    mass: Ghost<int>,
}

impl RefreshBuilder {
    /// The structural invariant of a refresh build: a well-formed arena
    /// whose open ancestors are all directories, one accumulator per open
    /// level, counters following the fold state, and all accumulators
    /// together bounded by the counted bytes so far.
    spec fn inv_core(&self) -> bool {
        let nodes = self.tree.nodes@;
        let spine = self.spine@;
        let stack = self.directory_info_per_depth_level@;
        &&& refresh_tree_wf(nodes)
        &&& nodes[0].data.name@ == Seq::<char>::empty()
        &&& forall|k: int| 0 <= k < nodes.len() ==> !(#[trigger] nodes[k]).data.is_visited
        &&& spine.len() == stack.len() + 1
        &&& spine[0] == 0usize
        &&& forall|j: int| 0 <= j < spine.len() ==> (#[trigger] spine[j]) < nodes.len()
        &&& forall|j: int| 0 <= j < spine.len() - 1 ==> spine[j] < #[trigger] spine[j + 1]
        &&& forall|j: int|
            1 <= j < spine.len() ==> refresh_is_child_of(
                nodes,
                #[trigger] spine[j] as int,
                spine[j - 1] as int,
            )
        &&& forall|j: int|
            0 <= j < spine.len() ==> nodes[#[trigger] spine[j] as int].data.is_dir
        &&& self.parent_node_idx == spine.last()
        &&& self.previous_node_idx < nodes.len()
        &&& self.mass@ >= 0
        &&& self.current_directory_at_depth.size + info_sum(stack) <= self.mass@
        &&& self.mass@ <= self.st@.entries * (u64::MAX as int)
        &&& self.st@.entries == self.entries_traversed as int
        &&& self.io_errors as int == spec_clip_u64(self.st@.errors)
        &&& self.st@.errors >= 0
        &&& self.st@.seen == self.inodes@
        &&& self.sums_ok()
    }

    /// The exact-sum package, which a refresh build keeps at all times:
    /// open directories hold size 0 until finalized, the current
    /// accumulator is the child sum of the deepest open directory, each
    /// stacked accumulator is the child sum of its open directory, and
    /// every node off the open chain that has children holds exactly
    /// their summed sizes.
    spec fn sums_ok(&self) -> bool {
        let nodes = self.tree.nodes@;
        let spine = self.spine@;
        let stack = self.directory_info_per_depth_level@;
        &&& forall|j: int|
            1 <= j < spine.len() ==> nodes[#[trigger] spine[j] as int].data.size == 0
        &&& self.current_directory_at_depth.size as int == refresh_child_sum(
            nodes,
            spine.last() as int,
            nodes.len() as int,
        )
        &&& forall|j: int|
            0 <= j < stack.len() ==> (#[trigger] stack[j]).size as int == refresh_child_sum(
                nodes,
                spine[j] as int,
                nodes.len() as int,
            )
        &&& forall|p: int|
            1 <= p < nodes.len() && #[trigger] refresh_has_child(nodes, p) && !spine.contains(
                p as usize,
            ) ==> nodes[p].data.size as int == refresh_child_sum(nodes, p, nodes.len() as int)
    }

    /// The invariant between two stream items.
    spec fn wf(&self) -> bool {
        let nodes = self.tree.nodes@;
        &&& self.inv_core()
        &&& self.previous_depth == self.directory_info_per_depth_level@.len()
        &&& self.tree.nodes@.len() == self.st@.shape.len()
        &&& refresh_nodes_match_shape(nodes, self.st@.shape)
        &&& refresh_childless_sizes_match(nodes, self.st@.shape)
        &&& self.st@.shape[0].size == 0
        &&& (forall|j: int|
            1 <= j < self.spine@.len() ==> refresh_has_child(
                nodes,
                #[trigger] self.spine@[j] as int,
            ))
        &&& self.spine@.len() == self.st@.spine.len()
        &&& (forall|j: int|
            0 <= j < self.spine@.len() ==> (#[trigger] self.spine@[j]) as int == self.st@.spine[j])
        &&& self.previous_node_idx as int == self.st@.prev_node
        &&& self.st@.ok
        &&& self.st@.prev_depth == self.previous_depth as int
        &&& self.st@.started == (self.previous_node_idx != 0)
        &&& (self.st@.started ==> {
            &&& refresh_is_child_of(
                nodes,
                self.previous_node_idx as int,
                self.parent_node_idx as int,
            )
            &&& (forall|k: int| !refresh_is_child_of(nodes, k, self.previous_node_idx as int))
            &&& (forall|j: int|
                0 <= j < self.spine@.len() ==> #[trigger] self.spine@[j] < self.previous_node_idx)
            &&& nodes[self.previous_node_idx as int].data.is_dir == self.st@.prev_is_dir
            &&& (nodes[self.previous_node_idx as int].data.is_dir
                ==> nodes[self.previous_node_idx as int].data.size == 0)
        })
        &&& (!self.st@.started ==> {
            &&& self.previous_depth == 0
            &&& self.parent_node_idx == 0
            &&& self.previous_node_idx == 0
        })
    }

    /// A fresh build: a tree holding only the synthetic root directory.
    fn new() -> (b: RefreshBuilder)
        ensures
            b.wf(),
            b.st@ == refresh_fold_init(),
            b.tree.nodes@.len() == 1,
    {
        let mut nodes: Vec<RefreshNode> = Vec::new();
        let mut root_data = RefreshEntryData::default();
        root_data.is_dir = true;
        nodes.push(RefreshNode { data: root_data, parent: None });
        let ghost initial_spine: Seq<usize> = seq![0usize];
        let b = RefreshBuilder {
            tree: RefreshTree { nodes },
            previous_node_idx: 0,
            parent_node_idx: 0,
            directory_info_per_depth_level: Vec::new(),
            current_directory_at_depth: EntryInfo { size: 0, entries_count: None },
            previous_depth: 0,
            entries_traversed: 0,
            io_errors: 0,
            inodes: InodeFilter::new(),
            spine: Ghost(initial_spine),
            st: Ghost(refresh_fold_init()),
            mass: Ghost(0),
        };
        proof {
            assert(b.spine@.last() == 0usize);
            assert(info_sum(b.directory_info_per_depth_level@) == 0);
            assert(refresh_child_sum(b.tree.nodes@, 0, 0) == 0);
            assert(!refresh_is_child_of(b.tree.nodes@, 0, 0));
            assert(refresh_child_sum(b.tree.nodes@, 0, 1) == 0);
            reveal(refresh_nodes_match_shape);
            assert(refresh_nodes_match_shape(b.tree.nodes@, b.st@.shape));
            reveal(refresh_childless_sizes_match);
            assert(refresh_childless_sizes_match(b.tree.nodes@, b.st@.shape));
        }
        b
    }

    /// Record the io error of a root whose device id could not be
    /// resolved; the walk position does not move.
    fn add_device_error(&mut self)
        requires
            old(self).wf(),
        ensures
            final(self).wf(),
            final(self).st@ == (RefreshFoldState {
                errors: old(self).st@.errors + 1,
                ..old(self).st@
            }),
            final(self).tree == old(self).tree,
            final(self).entries_traversed == old(self).entries_traversed,
    {
        self.io_errors = sat_add_u64(self.io_errors, 1);
        proof {
            self.st = Ghost(RefreshFoldState { errors: self.st@.errors + 1, ..self.st@ });
        }
    }

    /// Close the deepest open level: write its accumulator into the open
    /// directory, marking it complete, and fold it into the accumulator
    /// below.
    #[verifier::rlimit(100)]
    fn close_level(&mut self)
        requires
            old(self).inv_core(),
            old(self).directory_info_per_depth_level@.len() >= 1,
        ensures
            final(self).inv_core(),
            final(self).directory_info_per_depth_level@ == old(
                self,
            ).directory_info_per_depth_level@.drop_last(),
            final(self).spine@ == old(self).spine@.drop_last(),
            final(self).parent_node_idx == final(self).spine@.last(),
            final(self).tree.nodes@.len() == old(self).tree.nodes@.len(),
            forall|k: int|
                0 <= k < old(self).tree.nodes@.len() ==> (#[trigger] final(self).tree.nodes@[k]).parent
                    == old(self).tree.nodes@[k].parent,
            forall|k: int|
                0 <= k < old(self).tree.nodes@.len() && k != old(self).spine@.last() as int
                    ==> final(self).tree.nodes@[k] == old(self).tree.nodes@[k],
            final(self).tree.nodes@[old(self).spine@.last() as int].data.is_dir == old(
                self,
            ).tree.nodes@[old(self).spine@.last() as int].data.is_dir,
            final(self).tree.nodes@[old(self).spine@.last() as int].data.name == old(
                self,
            ).tree.nodes@[old(self).spine@.last() as int].data.name,
            final(self).tree.nodes@[old(self).spine@.last() as int].data.mtime == old(
                self,
            ).tree.nodes@[old(self).spine@.last() as int].data.mtime,
            final(self).current_directory_at_depth.size as int == old(
                self,
            ).current_directory_at_depth.size as int + old(
                self,
            ).directory_info_per_depth_level@.last().size as int,
            forall|p: int|
                refresh_has_child(final(self).tree.nodes@, p) <==> #[trigger] refresh_has_child(
                    old(self).tree.nodes@,
                    p,
                ),
            final(self).st == old(self).st,
            final(self).mass == old(self).mass,
            final(self).inodes == old(self).inodes,
            final(self).entries_traversed == old(self).entries_traversed,
            final(self).io_errors == old(self).io_errors,
            final(self).previous_node_idx == old(self).previous_node_idx,
            final(self).previous_depth == old(self).previous_depth,
    {
        let ghost nodes0 = self.tree.nodes@;
        let ghost spine0 = self.spine@;
        let ghost stack0 = self.directory_info_per_depth_level@;
        let closing = self.parent_node_idx;
        proof {
            assert(spine0.len() >= 2);
            assert(spine0[spine0.len() - 1] == closing);
            assert(refresh_is_child_of(nodes0, closing as int, spine0[spine0.len() - 2] as int));
        }
        set_entry_info_or_panic(&mut self.tree, closing, self.current_directory_at_depth);
        let dir_info = pop_or_panic(&mut self.directory_info_per_depth_level);
        proof {
            assert(self.current_directory_at_depth.size + dir_info.size <= self.mass@) by {
                assert(info_sum(stack0) == info_sum(stack0.drop_last()) + dir_info.size);
                lemma_info_sum_nonneg(stack0.drop_last());
            }
            assert(self.mass@ <= (u64::MAX as int) * (u64::MAX as int)) by {
                assert(self.st@.entries * (u64::MAX as int) <= (u64::MAX as int) * (
                u64::MAX as int)) by (nonlinear_arith)
                    requires
                        0 <= self.st@.entries <= u64::MAX as int,
                ;
            }
            assert((u64::MAX as int) * (u64::MAX as int) < u128::MAX as int) by (nonlinear_arith);
        }
        self.current_directory_at_depth.size = self.current_directory_at_depth.size
            + dir_info.size;
        self.current_directory_at_depth.add_count(&dir_info);
        let up = parent_or_panic(&self.tree, closing);
        self.parent_node_idx = up;
        proof {
            self.spine = Ghost(self.spine@.drop_last());
            let nodes = self.tree.nodes@;
            let spine = self.spine@;
            assert(spine.last() == spine0[spine0.len() - 2]);
            assert forall|j: int| 1 <= j < spine.len() implies refresh_is_child_of(
                nodes,
                #[trigger] spine[j] as int,
                spine[j - 1] as int,
            ) by {
                assert(refresh_is_child_of(nodes0, spine0[j] as int, spine0[j - 1] as int));
            }
            assert forall|j: int|
                0 <= j < spine.len() implies nodes[#[trigger] spine[j] as int].data.is_dir by {
                assert(nodes0[spine0[j] as int].data.is_dir);
                if spine[j] as int != closing as int {
                    assert(nodes[spine[j] as int] == nodes0[spine[j] as int]);
                }
            }
            assert(info_sum(self.directory_info_per_depth_level@) == info_sum(stack0)
                - dir_info.size);
            assert forall|p: int|
                refresh_has_child(self.tree.nodes@, p) <==> #[trigger] refresh_has_child(
                nodes0,
                p,
            ) by {
                lemma_refresh_has_child_update(
                    nodes0,
                    closing as int,
                    self.tree.nodes@[closing as int],
                    p,
                );
                assert(self.tree.nodes@ =~= nodes0.update(
                    closing as int,
                    self.tree.nodes@[closing as int],
                ));
            }
            lemma_refresh_close_sums(*old(self), *self);
        }
    }

    /// Close every still-open level, then write the root's totals: the
    /// summed sizes of its direct children (clipped at the counter width)
    /// and the total entry count; the root is then complete.
    fn finish(&mut self)
        requires
            old(self).wf(),
        ensures
            refresh_tree_wf(final(self).tree.nodes@),
            final(self).tree.nodes@.len() == old(self).tree.nodes@.len(),
            final(self).tree.nodes@[0].data.name@ == Seq::<char>::empty(),
            forall|k: int|
                0 <= k < final(self).tree.nodes@.len()
                    ==> !(#[trigger] final(self).tree.nodes@[k]).data.is_visited,
            final(self).tree.nodes@[0].data.size as int == spec_clip_u128(
                refresh_child_sum(
                    final(self).tree.nodes@,
                    0,
                    final(self).tree.nodes@.len() as int,
                ),
            ),
            final(self).tree.nodes@[0].data.is_complete,
            final(self).tree.nodes@[0].data.entry_count == (if old(self).entries_traversed > 0 {
                Some(old(self).entries_traversed)
            } else {
                None::<u64>
            }),
            refresh_sizes_consistent(final(self).tree.nodes@),
            refresh_nodes_match_shape(final(self).tree.nodes@, old(self).st@.shape),
            refresh_childless_sizes_match(final(self).tree.nodes@, old(self).st@.shape),
            final(self).st == old(self).st,
            final(self).entries_traversed == old(self).entries_traversed,
            final(self).io_errors == old(self).io_errors,
    {
        while self.directory_info_per_depth_level.len() > 0
            invariant
                self.inv_core(),
                self.st == old(self).st,
                self.tree.nodes@.len() == old(self).tree.nodes@.len(),
                self.entries_traversed == old(self).entries_traversed,
                self.io_errors == old(self).io_errors,
                refresh_nodes_match_shape(self.tree.nodes@, old(self).st@.shape),
                refresh_childless_sizes_match(self.tree.nodes@, old(self).st@.shape),
                forall|j: int|
                    1 <= j < self.spine@.len() ==> refresh_has_child(
                        self.tree.nodes@,
                        #[trigger] self.spine@[j] as int,
                    ),
            decreases self.directory_info_per_depth_level@.len(),
        {
            let ghost at_entry = *self;
            self.close_level();
            proof {
                lemma_refresh_match_after_update(
                    at_entry.tree.nodes@,
                    self.tree.nodes@,
                    old(self).st@.shape,
                    at_entry.spine@.last() as int,
                );
                assert(refresh_has_child(at_entry.tree.nodes@, at_entry.spine@.last() as int))
                    by {
                    assert(at_entry.spine@.last() == at_entry.spine@[at_entry.spine@.len() - 1]);
                }
                lemma_refresh_childless_after_update(
                    at_entry.tree.nodes@,
                    self.tree.nodes@,
                    old(self).st@.shape,
                    at_entry.spine@.last() as int,
                );
                assert forall|j: int|
                    1 <= j < self.spine@.len() implies refresh_has_child(
                    self.tree.nodes@,
                    #[trigger] self.spine@[j] as int,
                ) by {
                    assert(self.spine@[j] == at_entry.spine@[j]);
                    assert(refresh_has_child(at_entry.tree.nodes@, at_entry.spine@[j] as int));
                }
            }
        }
        let mut root_size: u128 = 0;
        let mut k: usize = 0;
        let n = self.tree.nodes.len();
        let ghost done = *self;
        while k < n
            invariant
                k <= n,
                n == self.tree.nodes@.len(),
                *self == done,
                root_size as int == spec_clip_u128(refresh_child_sum(self.tree.nodes@, 0, k as int)),
            decreases n - k,
        {
            proof {
                lemma_refresh_child_sum_nonneg(self.tree.nodes@, 0, k as int);
            }
            match self.tree.nodes[k].parent {
                Some(p) => {
                    if p == 0 {
                        let sz = self.tree.nodes[k].data.size;
                        root_size = sat_add_u128(root_size, sz);
                    }
                },
                None => {},
            }
            k = k + 1;
        }
        let entry_count: Option<u64> = if self.entries_traversed > 0 {
            Some(self.entries_traversed)
        } else {
            None
        };
        let ghost nodes0 = self.tree.nodes@;
        proof {
            assert forall|p: int|
                1 <= p < nodes0.len() && #[trigger] refresh_has_child(nodes0, p) implies nodes0[p].data.size
                as int == refresh_child_sum(nodes0, p, nodes0.len() as int) by {
                assert(!self.spine@.contains(p as usize)) by {
                    if self.spine@.contains(p as usize) {
                        let w = choose|w: int|
                            0 <= w < self.spine@.len() && self.spine@[w] == p as usize;
                        assert(w == 0);
                    }
                }
            }
        }
        set_entry_info_or_panic(
            &mut self.tree,
            0,
            EntryInfo { size: root_size, entries_count: entry_count },
        );
        proof {
            let nodes = self.tree.nodes@;
            let nd = nodes[0];
            lemma_refresh_child_sum_update(nodes0, 0, nd, 0, nodes0.len() as int);
            assert(!refresh_is_child_of(nodes0, 0, 0));
            assert forall|i: int| 1 <= i < nodes.len() implies ((#[trigger] nodes[i].parent)
                matches Some(p) && (p as int) < i) by {
                assert(nodes[i] == nodes0[i]);
            }
            assert forall|p: int|
                1 <= p < nodes.len() && #[trigger] refresh_has_child(nodes, p) implies nodes[p].data.size
                as int == refresh_child_sum(nodes, p, nodes.len() as int) by {
                lemma_refresh_has_child_update(nodes0, 0, nd, p);
                lemma_refresh_child_sum_update(nodes0, 0, nd, p, nodes0.len() as int);
                assert(nodes[p] == nodes0[p]);
            }
            lemma_refresh_match_after_update(nodes0, nodes, old(self).st@.shape, 0);
            if refresh_has_child(nodes0, 0) {
                lemma_refresh_childless_after_update(nodes0, nodes, old(self).st@.shape, 0);
            } else {
                lemma_refresh_no_child_sum_zero(nodes0, 0, nodes0.len() as int);
                assert(root_size == 0);
                reveal(refresh_childless_sizes_match);
                assert forall|i: int|
                    0 <= i < nodes.len() && i < old(self).st@.shape.len()
                    && !refresh_has_child(nodes, i) implies (#[trigger] nodes[i]).data.size
                    as int == old(self).st@.shape[i].size by {
                    lemma_refresh_has_child_update(nodes0, 0, nd, i);
                    if i != 0 {
                        assert(nodes[i] == nodes0[i]);
                    }
                }
            }
        }
    }

    /// Fold one enumeration error into the build: one more traversed
    /// entry, one more io error, and — while the walk position is still
    /// at root depth — a placeholder node for the root path, so the root
    /// is represented in the tree.
    #[verifier::rlimit(100)]
    fn step_err(
        &mut self,
        o: &WalkOptions,
        device_id: u64,
        root_path: &String,
        item: &Result<EntryRecord, IoError>,
    )
        requires
            old(self).wf(),
            old(self).entries_traversed < u64::MAX,
            item is Err,
        ensures
            final(self).wf(),
            final(self).st@ == refresh_step(*o, device_id, root_path@, old(self).st@, *item),
            old(self).previous_depth == 0 ==> final(self).tree.nodes@.len() == old(
                self,
            ).tree.nodes@.len() + 1 && final(self).tree.nodes@.last().data.name == *root_path,
            old(self).previous_depth != 0 ==> final(self).tree.nodes@ == old(self).tree.nodes@,
            final(self).entries_traversed == old(self).entries_traversed + 1,
    {
        let ghost st0 = self.st@;
        let ghost st1 = refresh_step(*o, device_id, root_path@, self.st@, *item);
        proof {
            assert(st1.entries * (u64::MAX as int) <= (st0.entries + 1) * (u64::MAX as int));
            assert((st0.entries + 1) * (u64::MAX as int) == st0.entries * (u64::MAX as int) + (
            u64::MAX as int)) by (nonlinear_arith);
        }
                self.entries_traversed = self.entries_traversed + 1;
                self.io_errors = sat_add_u64(self.io_errors, 1);
                proof {
                    self.st = Ghost(st1);
                }
                if self.previous_depth == 0 {
                    let ghost before = *self;
                    let mut data = RefreshEntryData::default();
                    data.name = root_path.clone();
                    let n = RefreshNode { data, parent: Some(self.parent_node_idx) };
                    self.tree.nodes.push(n);
                    proof {
                        let nodes0 = before.tree.nodes@;
                        let nodes = self.tree.nodes@;
                        lemma_refresh_push_wf(nodes0, n);
                        assert(nodes[0] == nodes0[0]);
                        assert forall|k: int|
                            0 <= k < nodes.len() implies !(#[trigger] nodes[k]).data.is_visited by {
                            if k < nodes0.len() {
                                assert(nodes[k] == nodes0[k]);
                            } else {
                                assert(nodes[k] == n);
                            }
                        }
                        assert forall|j: int|
                            0 <= j < self.spine@.len() implies nodes[#[trigger] self.spine@[j] as int].data.is_dir
                            && (j >= 1 ==> refresh_is_child_of(
                            nodes,
                            self.spine@[j] as int,
                            self.spine@[j - 1] as int,
                        )) by {
                            assert(nodes[self.spine@[j] as int] == nodes0[self.spine@[j] as int]);
                        }
                        if self.st@.started {
                            assert(self.previous_node_idx != 0);
                            assert(refresh_parent_is(
                                nodes0[self.previous_node_idx as int],
                                self.parent_node_idx as int,
                            ));
                            assert(nodes0[self.previous_node_idx as int].parent matches Some(q)
                                && (q as int) < self.previous_node_idx as int);
                            assert forall|k: int| !refresh_is_child_of(
                                nodes,
                                k,
                                self.previous_node_idx as int,
                            ) by {
                                if 0 <= k < nodes.len() - 1 {
                                    assert(nodes[k] == nodes0[k]);
                                    assert(!refresh_is_child_of(
                                        nodes0,
                                        k,
                                        self.previous_node_idx as int,
                                    ));
                                } else if k == nodes.len() - 1 {
                                    assert(nodes[k].parent == Some(before.parent_node_idx));
                                }
                            }
                            assert(nodes[self.previous_node_idx as int] == nodes0[self.previous_node_idx as int]);
                        }
                        lemma_refresh_append_sums(before, *self, n);
                        assert(st1.shape.drop_last() =~= st0.shape);
                        assert(st1.shape.last().parent == Some(st0.spine.last()));
                        assert(st0.spine.last() == st0.spine[st0.spine.len() - 1]);
                        assert(before.spine@[before.spine@.len() - 1] == before.parent_node_idx);
                        lemma_refresh_match_after_push(nodes0, st0.shape, n, st1.shape.last());
                        lemma_refresh_childless_after_push(
                            nodes0,
                            st0.shape,
                            n,
                            st1.shape.last(),
                        );
                        assert(st0.shape.push(st1.shape.last()) =~= st1.shape);
                        assert forall|j: int|
                            1 <= j < self.spine@.len() implies refresh_has_child(
                            nodes,
                            #[trigger] self.spine@[j] as int,
                        ) by {
                            lemma_refresh_has_child_push(nodes0, n, self.spine@[j] as int);
                            assert(refresh_has_child(nodes0, before.spine@[j] as int));
                        }
                    }
                }
    }

    /// Fold one stream item into the refresh build. Returns `false`,
    /// leaving the build untouched, exactly when the fold stops: the
    /// walker broke its ordering contract, stepped down into something
    /// not taken for a directory, or the entry counter would overflow.
    /// Otherwise the build advances by one [`refresh_step`]: a yielded
    /// entry becomes a new node carrying its name, counted size, mtime,
    /// directory flag, completion flag, and an initial entry count.
    #[verifier::rlimit(100)]
    #[verifier::spinoff_prover]
    fn step(
        &mut self,
        o: &WalkOptions,
        device_id: u64,
        root_path: &String,
        item: &Result<EntryRecord, IoError>,
    ) -> (r: bool)
        requires
            old(self).wf(),
        ensures
            r == refresh_step(*o, device_id, root_path@, old(self).st@, *item).ok,
            !r ==> *final(self) == *old(self),
            r ==> final(self).wf(),
            r ==> final(self).st@ == refresh_step(*o, device_id, root_path@, old(self).st@, *item),
            r ==> match *item {
                Ok(e) => {
                    &&& final(self).tree.nodes@.len() == old(self).tree.nodes@.len() + 1
                    &&& final(self).tree.nodes@.last().data.name == (if e.depth == 0 {
                        *root_path
                    } else {
                        e.file_name
                    })
                    &&& final(self).tree.nodes@.last().data.size as int == (match e.metadata {
                        Some(Ok(m)) => spec_counted_size(
                            *o,
                            device_id,
                            m,
                            old(self).st@.seen,
                        ) as int,
                        _ => 0int,
                    })
                    &&& final(self).tree.nodes@.last().data.is_dir == refresh_entry_is_dir(
                        *o,
                        device_id,
                        e,
                        old(self).st@.seen,
                    )
                    &&& final(self).tree.nodes@.last().data.is_complete == (match e.metadata {
                        Some(Ok(m)) => spec_gate(*o, device_id, m, old(self).st@.seen),
                        Some(Err(_)) => true,
                        None => false,
                    })
                    &&& final(self).tree.nodes@.last().data.entry_count == (
                    if refresh_entry_is_dir(*o, device_id, e, old(self).st@.seen) {
                        Some(0u64)
                    } else {
                        None::<u64>
                    })
                    &&& !final(self).tree.nodes@.last().data.is_visited
                },
                Err(_) => {
                    &&& (old(self).previous_depth == 0 ==> final(self).tree.nodes@.len() == old(
                        self,
                    ).tree.nodes@.len() + 1 && final(self).tree.nodes@.last().data.name
                        == *root_path)
                    &&& (old(self).previous_depth != 0 ==> final(self).tree.nodes@ == old(
                        self,
                    ).tree.nodes@)
                },
            },
            r ==> final(self).entries_traversed == old(self).entries_traversed + 1,
    {
        if self.entries_traversed == u64::MAX {
            return false;
        }
        let ghost st0 = self.st@;
        let ghost st1 = refresh_step(*o, device_id, root_path@, self.st@, *item);
        proof {
            assert(st1.entries * (u64::MAX as int) <= (st0.entries + 1) * (u64::MAX as int));
            assert((st0.entries + 1) * (u64::MAX as int) == st0.entries * (u64::MAX as int) + (
            u64::MAX as int)) by (nonlinear_arith);
        }
        match item {
            Err(_) => {
                self.step_err(o, device_id, root_path, item);
                true
            },
            Ok(e) => {
                let depth = e.depth;
                if depth > self.previous_depth {
                    let prev = self.previous_node_idx;
                    let descendable = prev != 0 && self.tree.nodes[prev].data.is_dir;
                    if depth != self.previous_depth + 1 || !descendable {
                        return false;
                    }
                }
                self.entries_traversed = self.entries_traversed + 1;
                let mut data = RefreshEntryData::default();
                data.name = if depth < 1 {
                    root_path.clone()
                } else {
                    e.file_name.clone()
                };
                let mut file_size: u128 = 0;
                match &e.metadata {
                    Some(Ok(m)) => {
                        let outcome = entry_file_size(o, device_id, m, &mut self.inodes);
                        if outcome.counted {
                            file_size = outcome.size;
                            if outcome.size_error {
                                self.io_errors = sat_add_u64(self.io_errors, 1);
                            }
                            // files are complete immediately
                            data.is_complete = true;
                        } else {
                            data.entry_count = Some(0);
                            data.is_dir = true;
                        }
                        match m.modified {
                            Ok(t) => {
                                data.mtime = t;
                            },
                            Err(_) => {
                                self.io_errors = sat_add_u64(self.io_errors, 1);
                            },
                        }
                    },
                    Some(Err(_)) => {
                        self.io_errors = sat_add_u64(self.io_errors, 1);
                        // with no metadata the item is complete
                        data.is_complete = true;
                    },
                    None => {},
                }
                data.size = file_size;
                proof {
                    assert(file_size <= u64::MAX);
                    self.mass = Ghost(self.mass@ + file_size as int);
                    self.st = Ghost(st1);
                    lemma_info_sum_nonneg(self.directory_info_per_depth_level@);
                    assert(st1.shape.drop_last() =~= st0.shape);
                    assert(st1.shape.last() == refresh_entry_shape(
                        *o,
                        device_id,
                        root_path@,
                        *e,
                        st0.seen,
                        st1.spine.last(),
                    ));
                }
                if depth > self.previous_depth {
                    proof {
                        assert(st1.spine == st0.spine.push(st0.prev_node));
                        assert(st1.spine.last() == st0.prev_node);
                        assert forall|j: int|
                            0 <= j < self.spine@.len() implies st1.spine[j] == (
                        #[trigger] self.spine@[j]) as int by {
                            assert(st1.spine[j] == st0.spine[j]);
                        }
                    }
                    self.descend(data, depth);
                } else if depth < self.previous_depth {
                    proof {
                        assert(st1.spine == st0.spine.take(depth as int + 1));
                        assert((depth as int + 1) <= st0.spine.len());
                        assert(st1.spine.last() == st0.spine[depth as int]);
                        assert(st0.spine[depth as int] == self.spine@[depth as int] as int);
                        assert forall|j: int|
                            0 <= j <= depth as int implies st1.spine[j] == (
                        #[trigger] self.spine@[j]) as int by {
                            assert(st1.spine[j] == st0.spine[j]);
                        }
                    }
                    self.step_out(data, depth);
                } else {
                    proof {
                        assert(st1.spine == st0.spine);
                        assert(st1.spine.last() == st0.spine[st0.spine.len() - 1]);
                        assert(self.spine@[self.spine@.len() - 1] == self.parent_node_idx);
                    }
                    self.add_sibling(data, depth);
                }
                true
            },
        }
    }

    /// Step one level down into the previous directory node.
    #[verifier::rlimit(100)]
    fn descend(&mut self, data: RefreshEntryData, depth: usize)
        requires
            old(self).inv_core(),
            old(self).previous_depth == old(self).directory_info_per_depth_level@.len(),
            depth == old(self).previous_depth + 1,
            old(self).previous_node_idx != 0,
            old(self).tree.nodes@[old(self).previous_node_idx as int].data.is_dir,
            old(self).tree.nodes@[old(self).previous_node_idx as int].data.size == 0,
            old(self).st@.shape.last().parent == Some(old(self).previous_node_idx as int),
            old(self).st@.spine.len() == old(self).spine@.len() + 1,
            forall|j: int|
                0 <= j < old(self).spine@.len() ==> old(self).st@.spine[j] == (#[trigger] old(
                    self,
                ).spine@[j]) as int,
            old(self).st@.spine.last() == old(self).previous_node_idx as int,
            refresh_is_child_of(
                old(self).tree.nodes@,
                old(self).previous_node_idx as int,
                old(self).parent_node_idx as int,
            ),
            forall|k: int|
                !refresh_is_child_of(old(self).tree.nodes@, k, old(self).previous_node_idx as int),
            forall|j: int|
                0 <= j < old(self).spine@.len() ==> #[trigger] old(self).spine@[j] < old(
                    self,
                ).previous_node_idx,
            old(self).st@.ok,
            old(self).st@.started,
            old(self).st@.prev_depth == depth as int,
            old(self).st@.prev_is_dir == data.is_dir,
            old(self).st@.shape.len() == old(self).tree.nodes@.len() + 1,
            refresh_nodes_match_shape(old(self).tree.nodes@, old(self).st@.shape.drop_last()),
            old(self).st@.shape.last().name == data.name@,
            old(self).st@.shape.last().mtime == data.mtime as int,
            old(self).st@.shape.last().is_dir == data.is_dir,
            old(self).st@.shape.last().size == data.size as int,
            old(self).st@.shape[0].size == 0,
            refresh_childless_sizes_match(
                old(self).tree.nodes@,
                old(self).st@.shape.drop_last(),
            ),
            forall|j: int|
                1 <= j < old(self).spine@.len() ==> refresh_has_child(
                    old(self).tree.nodes@,
                    #[trigger] old(self).spine@[j] as int,
                ),
            old(self).st@.prev_node == old(self).tree.nodes@.len() as int,
            !data.is_visited,
            data.is_dir ==> data.size == 0,
            old(self).current_directory_at_depth.size + info_sum(
                old(self).directory_info_per_depth_level@,
            ) + data.size <= old(self).mass@,
        ensures
            final(self).wf(),
            final(self).st == old(self).st,
            final(self).tree.nodes@ == old(self).tree.nodes@.push(
                RefreshNode { data, parent: Some(old(self).previous_node_idx) },
            ),
            final(self).entries_traversed == old(self).entries_traversed,
    {
        let ghost before = *self;
        let file_size = data.size;
        self.directory_info_per_depth_level.push(self.current_directory_at_depth);
        self.current_directory_at_depth = EntryInfo {
            size: file_size,
            entries_count: Some(1),
        };
        self.parent_node_idx = self.previous_node_idx;
        proof {
            self.spine = Ghost(self.spine@.push(self.previous_node_idx));
            lemma_info_sum_push(
                before.directory_info_per_depth_level@,
                before.current_directory_at_depth,
            );
        }
        let n = RefreshNode { data, parent: Some(self.parent_node_idx) };
        let idx = self.tree.nodes.len();
        self.tree.nodes.push(n);
        self.previous_node_idx = idx;
        self.previous_depth = depth;
        proof {
            let nodes0 = before.tree.nodes@;
            let nodes = self.tree.nodes@;
            lemma_refresh_push_wf(nodes0, n);
            assert forall|j: int|
                0 <= j < self.spine@.len() implies nodes[#[trigger] self.spine@[j] as int].data.is_dir
                && ((j >= 1 && j < self.spine@.len()) ==> refresh_is_child_of(
                nodes,
                self.spine@[j] as int,
                self.spine@[j - 1] as int,
            )) by {
                assert((self.spine@[j] as int) < nodes0.len());
                assert(nodes[self.spine@[j] as int] == nodes0[self.spine@[j] as int]);
                if j >= 1 && j < self.spine@.len() - 1 {
                    assert(refresh_is_child_of(nodes0, self.spine@[j] as int, self.spine@[j
                        - 1] as int));
                }
            }
            assert(refresh_is_child_of(
                nodes,
                before.previous_node_idx as int,
                before.parent_node_idx as int,
            )) by {
                assert(nodes[before.previous_node_idx as int] == nodes0[before.previous_node_idx as int]);
            }
            assert(nodes[0] == nodes0[0]);
            assert forall|k: int| 0 <= k < nodes.len() implies !(#[trigger] nodes[k]).data.is_visited by {
                if k < nodes0.len() {
                    assert(nodes[k] == nodes0[k]);
                } else {
                    assert(nodes[k] == n);
                }
            }
            lemma_refresh_descend_sums(before, *self, n);
            lemma_refresh_match_after_push(
                nodes0,
                self.st@.shape.drop_last(),
                n,
                self.st@.shape.last(),
            );
            lemma_refresh_childless_after_push(
                nodes0,
                self.st@.shape.drop_last(),
                n,
                self.st@.shape.last(),
            );
            assert(self.st@.shape.drop_last().push(self.st@.shape.last()) =~= self.st@.shape);
            assert forall|j: int|
                1 <= j < self.spine@.len() implies refresh_has_child(
                nodes,
                #[trigger] self.spine@[j] as int,
            ) by {
                lemma_refresh_has_child_push(nodes0, n, self.spine@[j] as int);
                if j < old(self).spine@.len() {
                    assert(self.spine@[j] == old(self).spine@[j]);
                    assert(refresh_has_child(nodes0, old(self).spine@[j] as int));
                } else {
                    assert(self.spine@[j] == old(self).previous_node_idx);
                    assert(refresh_parent_is(n, old(self).previous_node_idx as int));
                }
            }
            assert(self.st@.spine.last() == self.st@.spine[self.st@.spine.len() - 1]);
            assert forall|j: int|
                0 <= j < self.spine@.len() implies (#[trigger] self.spine@[j]) as int
                == self.st@.spine[j] by {
                if j < old(self).spine@.len() {
                    assert(self.spine@[j] == old(self).spine@[j]);
                    assert(self.st@.spine[j] == (old(self).spine@[j]) as int);
                } else {
                    assert(self.spine@[j] == old(self).previous_node_idx);
                    assert(j == self.st@.spine.len() - 1);
                }
            }
        }
    }

    /// Add the new entry beside the previous one, under the same parent.
    #[verifier::rlimit(100)]
    fn add_sibling(&mut self, data: RefreshEntryData, depth: usize)
        requires
            old(self).inv_core(),
            old(self).previous_depth == old(self).directory_info_per_depth_level@.len(),
            depth == old(self).previous_depth,
            old(self).st@.ok,
            old(self).st@.started,
            old(self).st@.prev_depth == depth as int,
            old(self).st@.prev_is_dir == data.is_dir,
            old(self).st@.shape.last().parent == Some(old(self).parent_node_idx as int),
            old(self).st@.spine.len() == old(self).spine@.len(),
            forall|j: int|
                0 <= j < old(self).spine@.len() ==> old(self).st@.spine[j] == (#[trigger] old(
                    self,
                ).spine@[j]) as int,
            old(self).st@.shape.len() == old(self).tree.nodes@.len() + 1,
            refresh_nodes_match_shape(old(self).tree.nodes@, old(self).st@.shape.drop_last()),
            old(self).st@.shape.last().name == data.name@,
            old(self).st@.shape.last().mtime == data.mtime as int,
            old(self).st@.shape.last().is_dir == data.is_dir,
            old(self).st@.shape.last().size == data.size as int,
            old(self).st@.shape[0].size == 0,
            refresh_childless_sizes_match(
                old(self).tree.nodes@,
                old(self).st@.shape.drop_last(),
            ),
            forall|j: int|
                1 <= j < old(self).spine@.len() ==> refresh_has_child(
                    old(self).tree.nodes@,
                    #[trigger] old(self).spine@[j] as int,
                ),
            old(self).st@.prev_node == old(self).tree.nodes@.len() as int,
            !data.is_visited,
            data.is_dir ==> data.size == 0,
            old(self).current_directory_at_depth.size + info_sum(
                old(self).directory_info_per_depth_level@,
            ) + data.size <= old(self).mass@,
        ensures
            final(self).wf(),
            final(self).st == old(self).st,
            final(self).tree.nodes@ == old(self).tree.nodes@.push(
                RefreshNode { data, parent: Some(old(self).parent_node_idx) },
            ),
            final(self).entries_traversed == old(self).entries_traversed,
    {
        let ghost before = *self;
        let file_size = data.size;
        proof {
            lemma_info_sum_nonneg(self.directory_info_per_depth_level@);
            assert(self.mass@ <= (u64::MAX as int) * (u64::MAX as int)) by {
                assert(self.st@.entries * (u64::MAX as int) <= (u64::MAX as int) * (
                u64::MAX as int)) by (nonlinear_arith)
                    requires
                        0 <= self.st@.entries <= u64::MAX as int,
                ;
            }
            assert((u64::MAX as int) * (u64::MAX as int) < u128::MAX as int) by (nonlinear_arith);
        }
        self.current_directory_at_depth.size = self.current_directory_at_depth.size + file_size;
        self.current_directory_at_depth.entries_count = match self
            .current_directory_at_depth
            .entries_count {
            Some(c) => Some(sat_add_u64(c, 1)),
            None => Some(1),
        };
        let n = RefreshNode { data, parent: Some(self.parent_node_idx) };
        let idx = self.tree.nodes.len();
        self.tree.nodes.push(n);
        self.previous_node_idx = idx;
        self.previous_depth = depth;
        proof {
            let nodes0 = before.tree.nodes@;
            let nodes = self.tree.nodes@;
            lemma_refresh_push_wf(nodes0, n);
            assert forall|j: int|
                0 <= j < self.spine@.len() implies nodes[#[trigger] self.spine@[j] as int].data.is_dir
                && (j >= 1 ==> refresh_is_child_of(
                nodes,
                self.spine@[j] as int,
                self.spine@[j - 1] as int,
            )) by {
                assert(nodes[self.spine@[j] as int] == nodes0[self.spine@[j] as int]);
            }
            assert(nodes[0] == nodes0[0]);
            assert forall|k: int| 0 <= k < nodes.len() implies !(#[trigger] nodes[k]).data.is_visited by {
                if k < nodes0.len() {
                    assert(nodes[k] == nodes0[k]);
                } else {
                    assert(nodes[k] == n);
                }
            }
            lemma_refresh_append_sums(before, *self, n);
            lemma_refresh_match_after_push(
                nodes0,
                self.st@.shape.drop_last(),
                n,
                self.st@.shape.last(),
            );
            lemma_refresh_childless_after_push(
                nodes0,
                self.st@.shape.drop_last(),
                n,
                self.st@.shape.last(),
            );
            assert(self.st@.shape.drop_last().push(self.st@.shape.last()) =~= self.st@.shape);
            assert forall|j: int|
                1 <= j < self.spine@.len() implies refresh_has_child(
                nodes,
                #[trigger] self.spine@[j] as int,
            ) by {
                lemma_refresh_has_child_push(nodes0, n, self.spine@[j] as int);
                assert(refresh_has_child(nodes0, old(self).spine@[j] as int));
                assert(self.spine@[j] == old(self).spine@[j]);
            }
            assert forall|j: int|
                0 <= j < self.spine@.len() implies (#[trigger] self.spine@[j]) as int
                == self.st@.spine[j] by {
                assert(self.spine@[j] == old(self).spine@[j]);
                assert(self.st@.spine[j] == (old(self).spine@[j]) as int);
            }
        }
    }

    /// Step back out to a shallower level, finalizing each departed
    /// directory, then add the new entry under the landed-on open node.
    #[verifier::rlimit(100)]
    fn step_out(&mut self, data: RefreshEntryData, depth: usize)
        requires
            old(self).inv_core(),
            old(self).previous_depth == old(self).directory_info_per_depth_level@.len(),
            depth < old(self).previous_depth,
            old(self).st@.ok,
            old(self).st@.started,
            old(self).st@.prev_depth == depth as int,
            old(self).st@.prev_is_dir == data.is_dir,
            old(self).st@.shape.last().parent == Some(old(self).spine@[depth as int] as int),
            old(self).st@.spine.len() == depth as int + 1,
            forall|j: int|
                0 <= j <= depth as int ==> old(self).st@.spine[j] == (#[trigger] old(
                    self,
                ).spine@[j]) as int,
            old(self).st@.shape.len() == old(self).tree.nodes@.len() + 1,
            refresh_nodes_match_shape(old(self).tree.nodes@, old(self).st@.shape.drop_last()),
            old(self).st@.shape.last().name == data.name@,
            old(self).st@.shape.last().mtime == data.mtime as int,
            old(self).st@.shape.last().is_dir == data.is_dir,
            old(self).st@.shape.last().size == data.size as int,
            old(self).st@.shape[0].size == 0,
            refresh_childless_sizes_match(
                old(self).tree.nodes@,
                old(self).st@.shape.drop_last(),
            ),
            forall|j: int|
                1 <= j < old(self).spine@.len() ==> refresh_has_child(
                    old(self).tree.nodes@,
                    #[trigger] old(self).spine@[j] as int,
                ),
            old(self).st@.prev_node == old(self).tree.nodes@.len() as int,
            !data.is_visited,
            data.is_dir ==> data.size == 0,
            old(self).current_directory_at_depth.size + info_sum(
                old(self).directory_info_per_depth_level@,
            ) + data.size <= old(self).mass@,
        ensures
            final(self).wf(),
            final(self).st == old(self).st,
            final(self).tree.nodes@.len() == old(self).tree.nodes@.len() + 1,
            final(self).tree.nodes@.last() == (RefreshNode {
                data,
                parent: Some(final(self).parent_node_idx),
            }),
            final(self).entries_traversed == old(self).entries_traversed,
    {
        let file_size = data.size;
        proof {
            assert(old(self).spine@.take(
                old(self).directory_info_per_depth_level@.len() as int + 1,
            ) =~= old(self).spine@);
        }
        while self.directory_info_per_depth_level.len() > depth
            invariant
                self.inv_core(),
                depth <= self.directory_info_per_depth_level@.len(),
                self.st == old(self).st,
                self.mass == old(self).mass,
                self.tree.nodes@.len() == old(self).tree.nodes@.len(),
                self.entries_traversed == old(self).entries_traversed,
                self.current_directory_at_depth.size + info_sum(
                    self.directory_info_per_depth_level@,
                ) + file_size as int <= self.mass@,
                refresh_nodes_match_shape(self.tree.nodes@, old(self).st@.shape.drop_last()),
                refresh_childless_sizes_match(
                    self.tree.nodes@,
                    old(self).st@.shape.drop_last(),
                ),
                forall|j: int|
                    1 <= j < self.spine@.len() ==> refresh_has_child(
                        self.tree.nodes@,
                        #[trigger] self.spine@[j] as int,
                    ),
                self.directory_info_per_depth_level@.len() <= old(
                    self,
                ).directory_info_per_depth_level@.len(),
                old(self).spine@.len() == old(self).directory_info_per_depth_level@.len() + 1,
                self.spine@ == old(self).spine@.take(
                    self.directory_info_per_depth_level@.len() as int + 1,
                ),
            decreases self.directory_info_per_depth_level@.len(),
        {
            let ghost at_entry = *self;
            self.close_level();
            proof {
                assert(info_sum(at_entry.directory_info_per_depth_level@) == info_sum(
                    self.directory_info_per_depth_level@,
                ) + at_entry.directory_info_per_depth_level@.last().size);
                assert(at_entry.spine@ == old(self).spine@.take(
                    at_entry.directory_info_per_depth_level@.len() as int + 1,
                ));
                assert(self.spine@ == at_entry.spine@.drop_last());
                assert(old(self).spine@.take(
                    at_entry.directory_info_per_depth_level@.len() as int + 1,
                ).drop_last() =~= old(self).spine@.take(
                    self.directory_info_per_depth_level@.len() as int + 1,
                ));
                lemma_refresh_match_after_update(
                    at_entry.tree.nodes@,
                    self.tree.nodes@,
                    old(self).st@.shape.drop_last(),
                    at_entry.spine@.last() as int,
                );
                assert(refresh_has_child(at_entry.tree.nodes@, at_entry.spine@.last() as int))
                    by {
                    assert(at_entry.spine@.last() == at_entry.spine@[at_entry.spine@.len() - 1]);
                }
                lemma_refresh_childless_after_update(
                    at_entry.tree.nodes@,
                    self.tree.nodes@,
                    old(self).st@.shape.drop_last(),
                    at_entry.spine@.last() as int,
                );
                assert forall|j: int|
                    1 <= j < self.spine@.len() implies refresh_has_child(
                    self.tree.nodes@,
                    #[trigger] self.spine@[j] as int,
                ) by {
                    assert(self.spine@[j] == at_entry.spine@[j]);
                    assert(refresh_has_child(at_entry.tree.nodes@, at_entry.spine@[j] as int));
                }
            }
        }
        let ghost mid = *self;
        proof {
            lemma_info_sum_nonneg(self.directory_info_per_depth_level@);
            assert(self.mass@ <= (u64::MAX as int) * (u64::MAX as int)) by {
                assert(self.st@.entries * (u64::MAX as int) <= (u64::MAX as int) * (
                u64::MAX as int)) by (nonlinear_arith)
                    requires
                        0 <= self.st@.entries <= u64::MAX as int,
                ;
            }
            assert((u64::MAX as int) * (u64::MAX as int) < u128::MAX as int) by (nonlinear_arith);
        }
        self.current_directory_at_depth.size = self.current_directory_at_depth.size + file_size;
        self.current_directory_at_depth.entries_count = match self
            .current_directory_at_depth
            .entries_count {
            Some(c) => Some(sat_add_u64(c, 1)),
            None => Some(1),
        };
        let n = RefreshNode { data, parent: Some(self.parent_node_idx) };
        let idx = self.tree.nodes.len();
        self.tree.nodes.push(n);
        self.previous_node_idx = idx;
        self.previous_depth = depth;
        proof {
            let nodes0 = mid.tree.nodes@;
            let nodes = self.tree.nodes@;
            lemma_refresh_push_wf(nodes0, n);
            assert forall|j: int|
                0 <= j < self.spine@.len() implies nodes[#[trigger] self.spine@[j] as int].data.is_dir
                && (j >= 1 ==> refresh_is_child_of(
                nodes,
                self.spine@[j] as int,
                self.spine@[j - 1] as int,
            )) by {
                assert(nodes[self.spine@[j] as int] == nodes0[self.spine@[j] as int]);
            }
            assert(nodes[0] == nodes0[0]);
            assert forall|k: int| 0 <= k < nodes.len() implies !(#[trigger] nodes[k]).data.is_visited by {
                if k < nodes0.len() {
                    assert(nodes[k] == nodes0[k]);
                } else {
                    assert(nodes[k] == n);
                }
            }
            lemma_refresh_append_sums(mid, *self, n);
            lemma_refresh_match_after_push(
                nodes0,
                self.st@.shape.drop_last(),
                n,
                self.st@.shape.last(),
            );
            lemma_refresh_childless_after_push(
                nodes0,
                self.st@.shape.drop_last(),
                n,
                self.st@.shape.last(),
            );
            assert(self.st@.shape.drop_last().push(self.st@.shape.last()) =~= self.st@.shape);
            assert forall|j: int|
                1 <= j < self.spine@.len() implies refresh_has_child(
                nodes,
                #[trigger] self.spine@[j] as int,
            ) by {
                lemma_refresh_has_child_push(nodes0, n, self.spine@[j] as int);
                assert(refresh_has_child(nodes0, mid.spine@[j] as int));
                assert(self.spine@[j] == mid.spine@[j]);
            }
            assert forall|j: int|
                0 <= j < self.spine@.len() implies (#[trigger] self.spine@[j]) as int
                == self.st@.spine[j] by {
                assert(self.spine@[j] == old(self).spine@[j]);
                assert(self.st@.spine[j] == (old(self).spine@[j]) as int);
            }
        }
    }
}

/// Appending a refresh node whose parent exists keeps the arena
/// well-formed, keeps every existing node, and the new node has no
/// children.
proof fn lemma_refresh_push_wf(nodes0: Seq<RefreshNode>, n: RefreshNode)
    requires
        refresh_tree_wf(nodes0),
        n.parent matches Some(q) && (q as int) < nodes0.len(),
    ensures
        refresh_tree_wf(nodes0.push(n)),
        forall|k: int| !refresh_is_child_of(nodes0.push(n), k, nodes0.len() as int),
        forall|k: int| 0 <= k < nodes0.len() ==> nodes0.push(n)[k] == nodes0[k],
{
    let nodes = nodes0.push(n);
    assert forall|i: int| 1 <= i < nodes.len() implies ((#[trigger] nodes[i].parent) matches Some(
        p,
    ) && (p as int) < i) by {
        if i < nodes0.len() {
            assert(nodes[i] == nodes0[i]);
        }
    }
    assert forall|k: int| !refresh_is_child_of(nodes, k, nodes0.len() as int) by {
        if 0 <= k < nodes.len() {
            assert(nodes[k].parent matches Some(q) ==> (q as int) < k);
            assert(k == 0 ==> nodes[k].parent is None);
        }
    }
}

/// The result of one refresh traversal: the flagged tree and the walk's
/// counters, ready to be reconciled against a previously displayed tree
/// by a consumer.
#[derive(Debug)]
pub struct Refresh {
    /// A tree representing the entire filesystem traversal.
    pub tree: RefreshTree,
    /// The synthetic top-level node of the tree.
    pub root_index: TreeIndex,
    /// The number of files and directories seen during the traversal.
    pub entries_traversed: u64,
    /// The time at which the traversal started.
    pub start: std::time::Instant,
    /// Milliseconds the traversal took. Set only once done.
    pub elapsed: Option<u64>,
    /// Total number of io errors encountered during the traversal.
    pub io_errors: u64,
    /// Total bytes seen during the traversal.
    pub total_bytes: Option<u128>,
}

/// Consumes throttled progress reports during a refresh build and may
/// cancel it.
pub trait RefreshUpdate {
    /// Shown the in-progress refresh; returns whether to cancel the whole
    /// build.
    fn update(&mut self, refresh: &Refresh) -> bool;
}

impl Refresh {
    /// Fold already-collected root walks into a refresh tree.
    ///
    /// The build succeeds exactly when the fold of [`refresh_step`] over
    /// the roots stays within the walker's contract. The tree then
    /// carries exactly the fold's shape: one node per yielded entry —
    /// named by the root path at depth 0 and by its file name below,
    /// with its mtime, directory flag and parent — plus one placeholder
    /// per enumeration error arriving at root depth, under the nameless
    /// synthetic root. Every node that never became a parent keeps the
    /// bytes its entry contributed; every directory with children holds
    /// exactly their summed sizes; the complete root node holds the
    /// summed sizes of its children (clipped at the counter width) and
    /// the total entry count; and no node is marked visited: that flag
    /// belongs to the consumer's reconciliation pass.
    pub fn from_entries(walk_options: &WalkOptions, input: &Vec<RootWalk>) -> (r: Result<
        Refresh,
        WalkerContractViolation,
    >)
        ensures
            ({
                let fold = refresh_fold_roots(*walk_options, refresh_fold_init(), input@);
                &&& (r is Ok <==> fold.ok)
                &&& (r matches Ok(t) ==> {
                    &&& refresh_tree_wf(t.tree.nodes@)
                    &&& t.root_index == 0
                    &&& t.entries_traversed == fold.entries
                    &&& t.io_errors as int == spec_clip_u64(fold.errors)
                    &&& refresh_nodes_match_shape(t.tree.nodes@, fold.shape)
                    &&& refresh_childless_sizes_match(t.tree.nodes@, fold.shape)
                    &&& t.tree.nodes@[0].data.name@ == Seq::<char>::empty()
                    &&& (forall|k: int|
                        0 <= k < t.tree.nodes@.len() ==> !(#[trigger] t.tree.nodes@[k]).data.is_visited)
                    &&& t.tree.nodes@[0].data.size as int == spec_clip_u128(
                        refresh_child_sum(t.tree.nodes@, 0, t.tree.nodes@.len() as int),
                    )
                    &&& refresh_sizes_consistent(t.tree.nodes@)
                    &&& t.tree.nodes@[0].data.is_complete
                    &&& t.tree.nodes@[0].data.entry_count == (if fold.entries > 0 {
                        Some(fold.entries as u64)
                    } else {
                        None::<u64>
                    })
                    &&& t.total_bytes == Some(t.tree.nodes@[0].data.size)
                    &&& t.elapsed is Some
                })
            }),
    {
        let start = instant_now();
        let ghost goal = refresh_fold_roots(*walk_options, refresh_fold_init(), input@);
        let mut b = RefreshBuilder::new();
        let mut i: usize = 0;
        proof {
            assert(input@.skip(0) =~= input@);
        }
        while i < input.len()
            invariant
                i <= input@.len(),
                b.wf(),
                goal == refresh_fold_roots(*walk_options, refresh_fold_init(), input@),
                refresh_fold_roots(*walk_options, b.st@, input@.skip(i as int)) == goal,
            decreases input@.len() - i,
        {
            proof {
                assert(input@.skip(i as int).first() == input@[i as int]);
                assert(input@.skip(i as int).drop_first() =~= input@.skip(i as int + 1));
            }
            let root = &input[i];
            match root.device_id {
                Err(_) => {
                    b.add_device_error();
                },
                Ok(device_id) => {
                    let mut k: usize = 0;
                    proof {
                        assert(root.entries@.skip(0) =~= root.entries@);
                    }
                    while k < root.entries.len()
                        invariant
                            k <= root.entries@.len(),
                            b.wf(),
                            goal == refresh_fold_roots(
                                *walk_options,
                                refresh_fold_init(),
                                input@,
                            ),
                            refresh_fold_roots(
                                *walk_options,
                                refresh_fold_items(
                                    *walk_options,
                                    device_id,
                                    root.path@,
                                    b.st@,
                                    root.entries@.skip(k as int),
                                ),
                                input@.skip(i as int + 1),
                            ) == goal,
                        decreases root.entries@.len() - k,
                    {
                        proof {
                            assert(root.entries@.skip(k as int).first() == root.entries@[k as int]);
                            assert(root.entries@.skip(k as int).drop_first() =~= root.entries@.skip(
                                k as int + 1,
                            ));
                        }
                        let ghost st_bad = refresh_step(
                            *walk_options,
                            device_id,
                            root.path@,
                            b.st@,
                            root.entries@[k as int],
                        );
                        if !b.step(walk_options, device_id, &root.path, &root.entries[k]) {
                            proof {
                                assert(!st_bad.ok);
                                assert(root.entries@.skip(k as int).len() > 0);
                                assert(refresh_fold_items(
                                    *walk_options,
                                    device_id,
                                    root.path@,
                                    b.st@,
                                    root.entries@.skip(k as int),
                                ) == refresh_fold_items(
                                    *walk_options,
                                    device_id,
                                    root.path@,
                                    st_bad,
                                    root.entries@.skip(k as int + 1),
                                ));
                                lemma_refresh_fold_items_stuck(
                                    *walk_options,
                                    device_id,
                                    root.path@,
                                    st_bad,
                                    root.entries@.skip(k as int + 1),
                                );
                                lemma_refresh_fold_roots_stuck(
                                    *walk_options,
                                    st_bad,
                                    input@.skip(i as int + 1),
                                );
                                assert(!goal.ok);
                            }
                            return Err(WalkerContractViolation);
                        }
                        k = k + 1;
                    }
                    proof {
                        assert(root.entries@.skip(root.entries@.len() as int) =~= Seq::<
                            Result<EntryRecord, IoError>,
                        >::empty());
                    }
                },
            }
            i = i + 1;
        }
        proof {
            assert(input@.skip(input@.len() as int) =~= Seq::<RootWalk>::empty());
            assert(b.st@ == goal);
        }
        b.finish();
        let entries_traversed = b.entries_traversed;
        let io_errors = b.io_errors;
        let root_size = b.tree.nodes[0].data.size;
        let elapsed = elapsed_millis(&start);
        Ok(
            Refresh {
                tree: b.tree,
                root_index: 0,
                entries_traversed,
                start,
                elapsed: Some(elapsed),
                io_errors,
                total_bytes: Some(root_size),
            },
        )
    }

    /// Walk the given root paths through `walker` and fold the entries
    /// into a refresh tree, as [`Refresh::from_entries`] does, reporting
    /// the in-progress refresh through `update` at most roughly every 250
    /// milliseconds. Returns `Ok(None)`, discarding the partial tree, if
    /// `update` asks to cancel; fails fast if the walker breaks its
    /// ordering contract. With no roots to walk, neither can happen: the
    /// build succeeds and yields the lone synthetic root.
    pub fn from_walk<W: Walker, U: RefreshUpdate>(
        walker: &mut W,
        walk_options: &WalkOptions,
        input: &Vec<String>,
        update: &mut U,
    ) -> (r: Result<Option<Refresh>, WalkerContractViolation>)
        ensures
            (r matches Ok(ot) ==> (ot matches Some(t) ==> {
                &&& refresh_tree_wf(t.tree.nodes@)
                &&& t.root_index == 0
                &&& t.tree.nodes@[0].data.name@ == Seq::<char>::empty()
                &&& (forall|k: int|
                    0 <= k < t.tree.nodes@.len() ==> !(#[trigger] t.tree.nodes@[k]).data.is_visited)
                &&& t.tree.nodes@[0].data.size as int == spec_clip_u128(
                    refresh_child_sum(t.tree.nodes@, 0, t.tree.nodes@.len() as int),
                )
                &&& refresh_sizes_consistent(t.tree.nodes@)
                &&& t.tree.nodes@[0].data.is_complete
                &&& t.total_bytes == Some(t.tree.nodes@[0].data.size)
                &&& t.elapsed is Some
            })),
            input@.len() == 0 ==> (r matches Ok(ot) && ot is Some),
    {
        let start = instant_now();
        let mut b = RefreshBuilder::new();
        let mut throttle = Throttle::new(250, None);
        let mut i: usize = 0;
        while i < input.len()
            invariant
                b.wf(),
            decreases input@.len() - i,
        {
            let path = &input[i];
            match walker.device_id(path.as_str()) {
                Err(_) => {
                    b.add_device_error();
                },
                Ok(device_id) => {
                    let raw = walker.walk(path.as_str(), device_id);
                    let mut k: usize = 0;
                    while k < raw.len()
                        invariant
                            b.wf(),
                            input@.len() > 0,
                        decreases raw@.len() - k,
                    {
                        let item: Result<EntryRecord, IoError> = match &raw[k] {
                            Ok(e) => Ok(record_of_entry(e)),
                            Err(_) => Err(IoError),
                        };
                        if !b.step(walk_options, device_id, path, &item) {
                            return Err(WalkerContractViolation);
                        }
                        if throttle.can_update() {
                            let snapshot = Refresh {
                                tree: b.tree.clone(),
                                root_index: 0,
                                entries_traversed: b.entries_traversed,
                                start,
                                elapsed: None,
                                io_errors: b.io_errors,
                                total_bytes: None,
                            };
                            if update.update(&snapshot) {
                                return Ok(None);
                            }
                        }
                        k = k + 1;
                    }
                },
            }
            i = i + 1;
        }
        b.finish();
        let entries_traversed = b.entries_traversed;
        let io_errors = b.io_errors;
        let root_size = b.tree.nodes[0].data.size;
        let elapsed = elapsed_millis(&start);
        Ok(
            Some(
                Refresh {
                    tree: b.tree,
                    root_index: 0,
                    entries_traversed,
                    start,
                    elapsed: Some(elapsed),
                    io_errors,
                    total_bytes: Some(root_size),
                },
            ),
        )
    }
}

} // verus!
