use dua::fs_walk::Entry;
use dua::fs_walk::EntryRecord;
use dua::fs_walk::IoError;
use dua::fs_walk::Metadata;
use dua::fs_walk::MetaRecord;
use dua::fs_walk::WalkOptions;
use dua::fs_walk::Walker;
use dua::refresh::Refresh;
use dua::refresh::RefreshEntryData;
use dua::refresh::RefreshNode;
use dua::refresh::RefreshTree;
use dua::refresh::RefreshUpdate;
use dua::traverse::EntryData;
use dua::traverse::RootWalk;
use dua::traverse::Traversal;
use dua::traverse::Tree;
use dua::traverse::TreeNode;
use dua::traverse::TraversalUpdate;
use std::collections::HashMap;

#[derive(Clone, Copy)]
pub struct MockMetadata {
    pub is_dir: bool,
    pub dev: u64,
    pub ino: u64,
    pub nlink: u64,
    pub apparent_size: u64,
    pub size_on_disk: Result<u64, IoError>,
    pub modified: Result<u64, IoError>,
}

impl Default for MockMetadata {
    fn default() -> Self {
        MockMetadata {
            is_dir: false,
            dev: 0,
            ino: 0,
            nlink: 0,
            apparent_size: 0,
            size_on_disk: Ok(0),
            modified: Ok(0),
        }
    }
}

impl Metadata for MockMetadata {
    fn is_dir(&self) -> bool {
        self.is_dir
    }
    fn dev(&self) -> u64 {
        self.dev
    }
    fn ino(&self) -> u64 {
        self.ino
    }
    fn nlink(&self) -> u64 {
        self.nlink
    }
    fn apparent_size(&self) -> u64 {
        self.apparent_size
    }
    fn size_on_disk(&self) -> Result<u64, IoError> {
        self.size_on_disk
    }
    fn modified(&self) -> Result<u64, IoError> {
        self.modified
    }
}

#[derive(Clone)]
pub struct MockEntry {
    pub dept: usize,
    pub path: String,
    pub file_name: String,
    pub parent_path: String,
    pub metadata: Option<Result<MockMetadata, IoError>>,
}

impl Entry for MockEntry {
    type Meta = MockMetadata;

    fn depth(&self) -> usize {
        self.dept
    }
    fn path(&self) -> String {
        self.path.clone()
    }
    fn file_name(&self) -> String {
        self.file_name.clone()
    }
    fn parent_path(&self) -> String {
        self.parent_path.clone()
    }
    fn metadata(&self) -> Option<Result<MockMetadata, IoError>> {
        self.metadata
    }
}

pub struct MockWalker {
    pub device_id: Result<u64, IoError>,
    pub entries: HashMap<String, Vec<Result<MockEntry, IoError>>>,
}

impl Walker for MockWalker {
    type E = MockEntry;

    fn device_id(&self, _path: &str) -> Result<u64, IoError> {
        self.device_id
    }

    fn walk(&mut self, path: &str, _root_device_id: u64) -> Vec<Result<MockEntry, IoError>> {
        self.entries.remove(path).unwrap_or_default()
    }
}

pub struct NeverCancel;

impl TraversalUpdate for NeverCancel {
    fn update(&mut self, _traversal: &Traversal) -> bool {
        false
    }
}

pub struct CancelAtOnce;

impl TraversalUpdate for CancelAtOnce {
    fn update(&mut self, _traversal: &Traversal) -> bool {
        true
    }
}

pub struct NeverCancelRefresh;

impl RefreshUpdate for NeverCancelRefresh {
    fn update(&mut self, _refresh: &Refresh) -> bool {
        false
    }
}

fn dir_entry(depth: usize, name: &str, path: &str, parent: &str) -> MockEntry {
    MockEntry {
        dept: depth,
        file_name: name.to_string(),
        path: path.to_string(),
        parent_path: parent.to_string(),
        metadata: Some(Ok(MockMetadata {
            is_dir: true,
            size_on_disk: Ok(0),
            ..MockMetadata::default()
        })),
    }
}

fn file_entry(depth: usize, name: &str, path: &str, parent: &str, size: u64) -> MockEntry {
    MockEntry {
        dept: depth,
        file_name: name.to_string(),
        path: path.to_string(),
        parent_path: parent.to_string(),
        metadata: Some(Ok(MockMetadata {
            is_dir: false,
            size_on_disk: Ok(size),
            ..MockMetadata::default()
        })),
    }
}

/// The shape of a tree: one `(name, size, parent)` triple per node, in
/// arena order.
fn tree_shape(tree: &Tree) -> Vec<(String, u128, Option<usize>)> {
    tree.nodes
        .iter()
        .map(|n| (n.data.name.clone(), n.data.size, n.parent))
        .collect()
}

#[test]
fn size_of_entry_data() {
    assert_eq!(
        std::mem::size_of::<EntryData>(),
        64,
        "the size of this should not change unexpectedly as it affects overall memory consumption"
    );
}

#[test]
fn test_from_walker() {
    let mut entries: HashMap<String, Vec<Result<MockEntry, IoError>>> = HashMap::new();
    entries.insert(
        "test".to_string(),
        vec![
            Ok(dir_entry(0, "test", "test", "")),
            Ok(dir_entry(1, "a", "test/a", "test")),
            Ok(file_entry(2, "a.txt", "test/a/a.txt", "test/a", 10)),
            Ok(file_entry(1, "b.txt", "test/b.txt", "test", 11)),
        ],
    );

    let mut walker = MockWalker { device_id: Ok(0), entries };
    let walk_options = WalkOptions::default();
    let mut update = NeverCancel;

    let t = Traversal::from_walker(
        &mut walker,
        &walk_options,
        &vec!["test".to_string()],
        &mut update,
    )
    .unwrap()
    .unwrap();

    assert_eq!(t.entries_traversed, 4);
    assert_eq!(t.io_errors, 0);
    assert_eq!(t.total_bytes.unwrap(), 21);
    assert_eq!(
        tree_shape(&t.tree),
        vec![
            ("".to_string(), 21u128, None),
            ("test".to_string(), 21u128, Some(0)),
            ("a".to_string(), 10u128, Some(1)),
            ("a.txt".to_string(), 10u128, Some(2)),
            ("b.txt".to_string(), 11u128, Some(1)),
        ]
    );
}

#[test]
fn test_from_walker_when_device_id_error_then_empty_tree() {
    let entries: HashMap<String, Vec<Result<MockEntry, IoError>>> = HashMap::new();
    let mut walker = MockWalker { device_id: Err(IoError), entries };
    let walk_options = WalkOptions::default();
    let mut update = NeverCancel;

    let t = Traversal::from_walker(
        &mut walker,
        &walk_options,
        &vec!["test".to_string()],
        &mut update,
    )
    .unwrap()
    .unwrap();

    assert_eq!(t.entries_traversed, 0);
    assert_eq!(t.io_errors, 1);
    assert_eq!(t.total_bytes.unwrap(), 0);
    assert_eq!(tree_shape(&t.tree), vec![("".to_string(), 0u128, None)]);
}

#[test]
fn test_from_walker_when_entry_error() {
    let mut entries: HashMap<String, Vec<Result<MockEntry, IoError>>> = HashMap::new();
    entries.insert(
        "test".to_string(),
        vec![
            Ok(dir_entry(0, "test", "test", "")),
            Ok(dir_entry(1, "test", "test/test", "test")),
            Err(IoError),
        ],
    );

    let mut walker = MockWalker { device_id: Ok(0), entries };
    let walk_options = WalkOptions::default();
    let mut update = NeverCancel;

    let t = Traversal::from_walker(
        &mut walker,
        &walk_options,
        &vec!["test".to_string()],
        &mut update,
    )
    .unwrap()
    .unwrap();

    assert_eq!(t.entries_traversed, 3);
    assert_eq!(t.io_errors, 1);
    assert_eq!(t.total_bytes.unwrap(), 0);
    assert_eq!(
        tree_shape(&t.tree),
        vec![
            ("".to_string(), 0u128, None),
            ("test".to_string(), 0u128, Some(0)),
            ("test".to_string(), 0u128, Some(1)),
        ]
    );
}

#[test]
fn test_from_walker_when_root_entry_error() {
    let mut entries: HashMap<String, Vec<Result<MockEntry, IoError>>> = HashMap::new();
    entries.insert("test".to_string(), vec![Err(IoError)]);

    let mut walker = MockWalker { device_id: Ok(0), entries };
    let walk_options = WalkOptions::default();
    let mut update = NeverCancel;

    let t = Traversal::from_walker(
        &mut walker,
        &walk_options,
        &vec!["test".to_string()],
        &mut update,
    )
    .unwrap()
    .unwrap();

    assert_eq!(t.entries_traversed, 1);
    assert_eq!(t.io_errors, 1);
    assert_eq!(t.total_bytes.unwrap(), 0);
    assert_eq!(
        tree_shape(&t.tree),
        vec![
            ("".to_string(), 0u128, None),
            ("test".to_string(), 0u128, Some(0)),
        ]
    );
}

#[test]
fn test_from_walker_root_twice() {
    let mut entries: HashMap<String, Vec<Result<MockEntry, IoError>>> = HashMap::new();
    entries.insert(
        "test".to_string(),
        vec![
            Ok(dir_entry_sized(0, "test", "test", "", 10)),
            Ok(dir_entry_sized(1, "a", "test/a", "test", 10)),
            Ok(file_entry(2, "a.txt", "test/a/a.txt", "a", 10)),
        ],
    );
    entries.insert(
        "test1".to_string(),
        vec![
            Ok(dir_entry_sized(0, "test1", "test1", "", 10)),
            Ok(dir_entry_sized(1, "a", "test1/a", "test1", 10)),
            Ok(file_entry(2, "a.txt", "test1/a/a.txt", "a", 10)),
        ],
    );

    let mut walker = MockWalker { device_id: Ok(0), entries };
    let walk_options = WalkOptions::default();
    let mut update = NeverCancel;

    let t = Traversal::from_walker(
        &mut walker,
        &walk_options,
        &vec!["test".to_string(), "test1".to_string()],
        &mut update,
    )
    .unwrap()
    .unwrap();

    assert_eq!(t.entries_traversed, 6);
    assert_eq!(t.io_errors, 0);
    assert_eq!(t.total_bytes.unwrap(), 20);
    assert_eq!(
        tree_shape(&t.tree),
        vec![
            ("".to_string(), 20u128, None),
            ("test".to_string(), 10u128, Some(0)),
            ("a".to_string(), 10u128, Some(1)),
            ("a.txt".to_string(), 10u128, Some(2)),
            ("test1".to_string(), 10u128, Some(0)),
            ("a".to_string(), 10u128, Some(4)),
            ("a.txt".to_string(), 10u128, Some(5)),
        ]
    );
}

fn dir_entry_sized(depth: usize, name: &str, path: &str, parent: &str, size: u64) -> MockEntry {
    MockEntry {
        dept: depth,
        file_name: name.to_string(),
        path: path.to_string(),
        parent_path: parent.to_string(),
        metadata: Some(Ok(MockMetadata {
            is_dir: true,
            size_on_disk: Ok(size),
            ..MockMetadata::default()
        })),
    }
}

fn record_dir(depth: usize, name: &str) -> EntryRecord {
    EntryRecord {
        depth,
        file_name: name.to_string(),
        metadata: Some(Ok(MetaRecord {
            is_dir: true,
            dev: 0,
            ino: 0,
            nlink: 0,
            apparent_size: 0,
            size_on_disk: Ok(0),
            modified: Ok(0),
        })),
    }
}

fn record_file(depth: usize, name: &str, size: u64) -> EntryRecord {
    EntryRecord {
        depth,
        file_name: name.to_string(),
        metadata: Some(Ok(MetaRecord {
            is_dir: false,
            dev: 0,
            ino: 0,
            nlink: 0,
            apparent_size: 0,
            size_on_disk: Ok(size),
            modified: Ok(0),
        })),
    }
}

// A walker that yields an entry more than one level deeper than its
// predecessor has broken its contract: the build fails fast.
#[test]
fn test_from_entries_rejects_depth_jump() {
    let input = vec![RootWalk {
        path: "test".to_string(),
        device_id: Ok(0),
        entries: vec![Ok(record_dir(0, "test")), Ok(record_file(2, "a.txt", 5))],
    }];
    let walk_options = WalkOptions::default();
    let r = Traversal::from_entries(&walk_options, &input);
    assert!(r.is_err());
}

// A walker that yields a deep entry before any root entry has broken its
// contract as well.
#[test]
fn test_from_entries_rejects_headless_stream() {
    let input = vec![RootWalk {
        path: "test".to_string(),
        device_id: Ok(0),
        entries: vec![Ok(record_file(1, "a.txt", 5))],
    }];
    let walk_options = WalkOptions::default();
    let r = Traversal::from_entries(&walk_options, &input);
    assert!(r.is_err());
}

// Scenario: tree build over test/{a/{a.txt:10}, b.txt:11} through the
// pre-collected entry point.
#[test]
fn test_from_entries_builds_consistent_tree() {
    let input = vec![RootWalk {
        path: "test".to_string(),
        device_id: Ok(0),
        entries: vec![
            Ok(record_dir(0, "test")),
            Ok(record_dir(1, "a")),
            Ok(record_file(2, "a.txt", 10)),
            Ok(record_file(1, "b.txt", 11)),
        ],
    }];
    let walk_options = WalkOptions::default();
    let t = Traversal::from_entries(&walk_options, &input).unwrap();
    assert_eq!(t.entries_traversed, 4);
    assert_eq!(t.io_errors, 0);
    assert_eq!(t.total_bytes.unwrap(), 21);
    assert_eq!(
        tree_shape(&t.tree),
        vec![
            ("".to_string(), 21u128, None),
            ("test".to_string(), 21u128, Some(0)),
            ("a".to_string(), 10u128, Some(1)),
            ("a.txt".to_string(), 10u128, Some(2)),
            ("b.txt".to_string(), 11u128, Some(1)),
        ]
    );
}

/// The shape of a refresh tree: `(name, size, entry_count, is_dir,
/// is_complete, parent)` per node, in arena order.
fn refresh_shape(
    tree: &RefreshTree,
) -> Vec<(String, u128, Option<u64>, bool, bool, Option<usize>)> {
    tree.nodes
        .iter()
        .map(|n| {
            (
                n.data.name.clone(),
                n.data.size,
                n.data.entry_count,
                n.data.is_dir,
                n.data.is_complete,
                n.parent,
            )
        })
        .collect()
}

#[test]
fn test_refresh() {
    let mut tree = Tree { nodes: Vec::new() };
    tree.nodes.push(TreeNode {
        data: EntryData {
            name: "".to_string(),
            size: 0,
            mtime: 0,
            metadata_io_error: false,
        },
        parent: None,
    });
    tree.nodes.push(TreeNode {
        data: EntryData {
            name: "a".to_string(),
            size: 0,
            mtime: 0,
            metadata_io_error: false,
        },
        parent: Some(0),
    });
    tree.nodes.push(TreeNode {
        data: EntryData {
            name: "dir".to_string(),
            size: 0,
            mtime: 0,
            metadata_io_error: false,
        },
        parent: Some(0),
    });
    tree.nodes.push(TreeNode {
        data: EntryData {
            name: "b".to_string(),
            size: 0,
            mtime: 0,
            metadata_io_error: false,
        },
        parent: Some(2),
    });
    println!("{tree:#?}");

    let mut refresh_tree = RefreshTree { nodes: Vec::new() };
    let root = RefreshEntryData {
        name: "".to_string(),
        size: 0,
        mtime: 0,
        entry_count: None,
        is_dir: true,
        is_complete: true,
        is_visited: false,
    };
    refresh_tree.nodes.push(RefreshNode { data: root, parent: None });
    refresh_tree.nodes.push(RefreshNode {
        data: RefreshEntryData {
            name: "a".to_string(),
            size: 0,
            mtime: 0,
            entry_count: None,
            is_dir: false,
            is_complete: true,
            is_visited: false,
        },
        parent: Some(0),
    });
    refresh_tree.nodes.push(RefreshNode {
        data: RefreshEntryData {
            name: "dir".to_string(),
            size: 0,
            mtime: 0,
            entry_count: None,
            is_dir: true,
            is_complete: true,
            is_visited: false,
        },
        parent: Some(0),
    });
    refresh_tree.nodes.push(RefreshNode {
        data: RefreshEntryData {
            name: "b".to_string(),
            size: 0,
            mtime: 0,
            entry_count: None,
            is_dir: false,
            is_complete: true,
            is_visited: false,
        },
        parent: Some(2),
    });
    refresh_tree.nodes.push(RefreshNode {
        data: RefreshEntryData {
            name: "c".to_string(),
            size: 0,
            mtime: 0,
            entry_count: None,
            is_dir: false,
            is_complete: true,
            is_visited: false,
        },
        parent: Some(0),
    });
    println!("{refresh_tree:#?}");
}

// The refresh build of test/{a/{a.txt:10}, b.txt:11}: every finalized
// directory is complete, carries its descendant count, and the root holds
// the full total.
#[test]
fn test_refresh_from_walk_counts() {
    let mut entries: HashMap<String, Vec<Result<MockEntry, IoError>>> = HashMap::new();
    entries.insert(
        "test".to_string(),
        vec![
            Ok(dir_entry(0, "test", "test", "")),
            Ok(dir_entry(1, "a", "test/a", "test")),
            Ok(file_entry(2, "a.txt", "test/a/a.txt", "test/a", 10)),
            Ok(file_entry(1, "b.txt", "test/b.txt", "test", 11)),
        ],
    );

    let mut walker = MockWalker { device_id: Ok(0), entries };
    let walk_options = WalkOptions::default();
    let mut update = NeverCancelRefresh;

    let t = Refresh::from_walk(
        &mut walker,
        &walk_options,
        &vec!["test".to_string()],
        &mut update,
    )
    .unwrap()
    .unwrap();

    assert_eq!(t.entries_traversed, 4);
    assert_eq!(t.io_errors, 0);
    assert_eq!(t.total_bytes.unwrap(), 21);
    assert_eq!(
        refresh_shape(&t.tree),
        vec![
            ("".to_string(), 21u128, Some(4), true, true, None),
            ("test".to_string(), 21u128, Some(3), true, true, Some(0)),
            ("a".to_string(), 10u128, Some(1), true, true, Some(1)),
            ("a.txt".to_string(), 10u128, None, false, true, Some(2)),
            ("b.txt".to_string(), 11u128, None, false, true, Some(1)),
        ]
    );
}

// Cancelling from the update callback discards the whole in-progress tree.
#[test]
fn test_from_walker_cancellation_returns_nothing() {
    let mut entries: HashMap<String, Vec<Result<MockEntry, IoError>>> = HashMap::new();
    entries.insert(
        "test".to_string(),
        vec![
            Ok(dir_entry(0, "test", "test", "")),
            Ok(file_entry(1, "b.txt", "test/b.txt", "test", 11)),
        ],
    );

    let mut walker = MockWalker { device_id: Ok(0), entries };
    let walk_options = WalkOptions::default();
    let mut update = CancelAtOnce;

    let r = Traversal::from_walker(
        &mut walker,
        &walk_options,
        &vec!["test".to_string()],
        &mut update,
    )
    .unwrap();
    assert!(r.is_none());
}

// A refresh walker that steps down into something not taken for a
// directory has broken its contract: the refresh build fails fast instead
// of producing a corrupt tree.
#[test]
fn test_refresh_rejects_descent_into_file() {
    let mut entries: HashMap<String, Vec<Result<MockEntry, IoError>>> = HashMap::new();
    entries.insert(
        "test".to_string(),
        vec![
            Ok(file_entry(0, "a", "test/a", "test", 1)),
            Ok(file_entry(1, "b", "test/a/b", "test/a", 2)),
        ],
    );

    let mut walker = MockWalker { device_id: Ok(0), entries };
    let walk_options = WalkOptions::default();
    let mut update = NeverCancelRefresh;

    let r = Refresh::from_walk(
        &mut walker,
        &walk_options,
        &vec!["test".to_string()],
        &mut update,
    );
    assert!(r.is_err());
}

// With no roots to walk, a tree build can neither fail nor be cancelled:
// it yields the lone synthetic root.
#[test]
fn test_from_walker_empty_input() {
    let entries: HashMap<String, Vec<Result<MockEntry, IoError>>> = HashMap::new();
    let mut walker = MockWalker { device_id: Ok(0), entries };
    let walk_options = WalkOptions::default();
    let mut update = CancelAtOnce;

    let t = Traversal::from_walker(&mut walker, &walk_options, &Vec::new(), &mut update)
        .unwrap()
        .unwrap();
    assert_eq!(t.entries_traversed, 0);
    assert_eq!(t.io_errors, 0);
    assert_eq!(tree_shape(&t.tree), vec![("".to_string(), 0u128, None)]);
}

// The same holds for a refresh build; the lone root is a complete
// directory with no entry count, and nothing is marked visited.
#[test]
fn test_refresh_from_walk_empty_input() {
    let entries: HashMap<String, Vec<Result<MockEntry, IoError>>> = HashMap::new();
    let mut walker = MockWalker { device_id: Ok(0), entries };
    let walk_options = WalkOptions::default();
    let mut update = NeverCancelRefresh;

    let t = Refresh::from_walk(&mut walker, &walk_options, &Vec::new(), &mut update)
        .unwrap()
        .unwrap();
    assert_eq!(t.entries_traversed, 0);
    assert_eq!(t.io_errors, 0);
    assert_eq!(
        refresh_shape(&t.tree),
        vec![("".to_string(), 0u128, None, true, true, None)]
    );
}
