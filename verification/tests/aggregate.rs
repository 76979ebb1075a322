use dua::fs_walk::Entry;
use dua::fs_walk::EntryRecord;
use dua::fs_walk::IoError;
use dua::fs_walk::Metadata;
use dua::fs_walk::MetaRecord;
use dua::fs_walk::RootWalk;
use dua::fs_walk::WalkOptions;
use dua::fs_walk::Walker;
use dua::aggregate;
use dua::aggregate_entries;
use dua::AggregateProgress;
use dua::InodeFilter;
use dua::Statistics;
use std::collections::HashMap;

pub struct NoProgress;

impl AggregateProgress for NoProgress {
    fn progress(&mut self, _entries_traversed: u64) {}
    fn end_of_root(&mut self) {}
}

#[derive(Clone, Copy)]
pub struct MockMetadata {
    pub is_dir: bool,
    pub dev: u64,
    pub ino: u64,
    pub nlink: u64,
    pub apparent_size: u64,
    pub size_on_disk: Result<u64, IoError>,
    pub modified: Result<u64, IoError>,
}

impl Default for MockMetadata {
    fn default() -> Self {
        MockMetadata {
            is_dir: false,
            dev: 0,
            ino: 0,
            nlink: 0,
            apparent_size: 0,
            size_on_disk: Ok(0),
            modified: Ok(0),
        }
    }
}

impl Metadata for MockMetadata {
    fn is_dir(&self) -> bool {
        self.is_dir
    }
    fn dev(&self) -> u64 {
        self.dev
    }
    fn ino(&self) -> u64 {
        self.ino
    }
    fn nlink(&self) -> u64 {
        self.nlink
    }
    fn apparent_size(&self) -> u64 {
        self.apparent_size
    }
    fn size_on_disk(&self) -> Result<u64, IoError> {
        self.size_on_disk
    }
    fn modified(&self) -> Result<u64, IoError> {
        self.modified
    }
}

#[derive(Clone)]
pub struct MockEntry {
    pub dept: usize,
    pub path: String,
    pub file_name: String,
    pub parent_path: String,
    pub metadata: Option<Result<MockMetadata, IoError>>,
}

impl Entry for MockEntry {
    type Meta = MockMetadata;

    fn depth(&self) -> usize {
        self.dept
    }
    fn path(&self) -> String {
        self.path.clone()
    }
    fn file_name(&self) -> String {
        self.file_name.clone()
    }
    fn parent_path(&self) -> String {
        self.parent_path.clone()
    }
    fn metadata(&self) -> Option<Result<MockMetadata, IoError>> {
        self.metadata
    }
}

pub struct MockWalker {
    pub device_id: Result<u64, IoError>,
    pub entries: HashMap<String, Vec<Result<MockEntry, IoError>>>,
}

impl Walker for MockWalker {
    type E = MockEntry;

    fn device_id(&self, _path: &str) -> Result<u64, IoError> {
        self.device_id
    }

    fn walk(&mut self, path: &str, _root_device_id: u64) -> Vec<Result<MockEntry, IoError>> {
        self.entries.remove(path).unwrap_or_default()
    }
}

fn file_entry(path_prefix: &str, name: &str, size_on_disk: Result<u64, IoError>) -> MockEntry {
    MockEntry {
        dept: 0,
        file_name: name.to_string(),
        path: format!("{}/{}", path_prefix, name),
        parent_path: path_prefix.to_string(),
        metadata: Some(Ok(MockMetadata {
            size_on_disk,
            ..MockMetadata::default()
        })),
    }
}

#[test]
fn test_aggregate() {
    let mut entries: HashMap<String, Vec<Result<MockEntry, IoError>>> = HashMap::new();
    entries.insert(
        "test".to_string(),
        vec![
            Ok(file_entry("test", "a.txt", Ok(10))),
            Ok(file_entry("test", "b.txt", Ok(20))),
        ],
    );
    entries.insert(
        "other".to_string(),
        vec![
            Ok(file_entry("other", "a.txt", Ok(7))),
            Ok(file_entry("other", "b.txt", Ok(5))),
        ],
    );

    let mut walker = MockWalker { device_id: Ok(0), entries };
    let walk_options = WalkOptions::default();

    let (res, stats, list) = aggregate(
        Option::<NoProgress>::None,
        &mut walker,
        &walk_options,
        false,
        &vec!["test".to_string(), "other".to_string()],
    );

    assert_eq!(res.num_errors, 0);
    assert_eq!(res.num_roots, 2);
    assert_eq!(res.total, 42);
    assert_eq!(stats.entries_traversed, 4);
    assert_eq!(stats.largest_file_in_bytes, 20);
    assert_eq!(stats.smallest_file_in_bytes, 5);
    assert_eq!(list.len(), 2);
    assert_eq!(
        list,
        vec![
            ("test".to_string(), 30u128, 0u64),
            ("other".to_string(), 12u128, 0u64),
        ]
    );
}

#[test]
fn test_aggregate_size_error() {
    let mut entries: HashMap<String, Vec<Result<MockEntry, IoError>>> = HashMap::new();
    entries.insert(
        "test".to_string(),
        vec![Ok(file_entry("test", "a.txt", Err(IoError)))],
    );

    let mut walker = MockWalker { device_id: Ok(0), entries };
    let walk_options = WalkOptions::default();

    let (res, stats, list) = aggregate(
        Option::<NoProgress>::None,
        &mut walker,
        &walk_options,
        false,
        &vec!["test".to_string()],
    );

    assert_eq!(res.num_errors, 1);
    assert_eq!(res.num_roots, 1);
    assert_eq!(res.total, 0);
    assert_eq!(stats.entries_traversed, 1);
    assert_eq!(stats.largest_file_in_bytes, 0);
    assert_eq!(stats.smallest_file_in_bytes, 0);
    assert_eq!(list.len(), 1);
    assert_eq!(list, vec![("test".to_string(), 0u128, 1u64)]);
}

#[test]
fn test_aggregate_empty() {
    let entries: HashMap<String, Vec<Result<MockEntry, IoError>>> = HashMap::new();

    let mut walker = MockWalker { device_id: Ok(0), entries };
    let walk_options = WalkOptions::default();

    let (res, stats, list) = aggregate(
        Option::<NoProgress>::None,
        &mut walker,
        &walk_options,
        false,
        &vec!["test".to_string()],
    );

    assert_eq!(res.num_errors, 0);
    assert_eq!(res.num_roots, 1);
    assert_eq!(res.total, 0);
    assert_eq!(stats.entries_traversed, 0);
    assert_eq!(stats.largest_file_in_bytes, 0);
    assert_eq!(stats.smallest_file_in_bytes, 0);
    assert_eq!(list.len(), 1);
    assert_eq!(list, vec![("test".to_string(), 0u128, 0u64)]);
}

#[test]
fn test_aggregate_cross_filesystem() {
    let mut entries: HashMap<String, Vec<Result<MockEntry, IoError>>> = HashMap::new();
    entries.insert(
        "test".to_string(),
        vec![
            Ok(file_entry("test", "a.txt", Ok(10))),
            Ok(file_entry("test", "b.txt", Ok(20))),
        ],
    );
    entries.insert(
        "other".to_string(),
        vec![
            Ok(file_entry("other", "a.txt", Ok(7))),
            Ok(file_entry("other", "b.txt", Ok(5))),
        ],
    );

    // the roots resolve to device 1 while every entry is on device 0
    let mut walker = MockWalker { device_id: Ok(1), entries };
    let walk_options = WalkOptions::default();

    let (res, stats, list) = aggregate(
        Option::<NoProgress>::None,
        &mut walker,
        &walk_options,
        false,
        &vec!["test".to_string(), "other".to_string()],
    );

    assert_eq!(res.num_errors, 0);
    assert_eq!(res.num_roots, 2);
    assert_eq!(res.total, 0);
    assert_eq!(stats.entries_traversed, 4);
    assert_eq!(stats.largest_file_in_bytes, 0);
    assert_eq!(stats.smallest_file_in_bytes, 0);
    assert_eq!(list.len(), 2);
    assert_eq!(
        list,
        vec![
            ("test".to_string(), 0u128, 0u64),
            ("other".to_string(), 0u128, 0u64),
        ]
    );
}

#[test]
fn test_aggregate_apparent_size() {
    let mut entries: HashMap<String, Vec<Result<MockEntry, IoError>>> = HashMap::new();
    let mut a1 = file_entry("test", "a.txt", Ok(10));
    if let Some(Ok(m)) = &mut a1.metadata {
        m.apparent_size = 1;
    }
    let mut b1 = file_entry("test", "b.txt", Ok(20));
    if let Some(Ok(m)) = &mut b1.metadata {
        m.apparent_size = 2;
    }
    let mut a2 = file_entry("other", "a.txt", Ok(7));
    if let Some(Ok(m)) = &mut a2.metadata {
        m.apparent_size = 3;
    }
    let mut b2 = file_entry("other", "b.txt", Ok(5));
    if let Some(Ok(m)) = &mut b2.metadata {
        m.apparent_size = 4;
    }
    entries.insert("test".to_string(), vec![Ok(a1), Ok(b1)]);
    entries.insert("other".to_string(), vec![Ok(a2), Ok(b2)]);

    let mut walker = MockWalker { device_id: Ok(0), entries };
    let walk_options = WalkOptions {
        apparent_size: true,
        ..WalkOptions::default()
    };

    let (res, stats, list) = aggregate(
        Option::<NoProgress>::None,
        &mut walker,
        &walk_options,
        false,
        &vec!["test".to_string(), "other".to_string()],
    );

    assert_eq!(res.num_errors, 0);
    assert_eq!(res.num_roots, 2);
    assert_eq!(res.total, 10);
    assert_eq!(stats.entries_traversed, 4);
    assert_eq!(stats.largest_file_in_bytes, 4);
    assert_eq!(stats.smallest_file_in_bytes, 1);
    assert_eq!(list.len(), 2);
    assert_eq!(
        list,
        vec![
            ("test".to_string(), 3u128, 0u64),
            ("other".to_string(), 7u128, 0u64),
        ]
    );
}

#[test]
fn test_aggregate_sort_by_bytes() {
    let mut entries: HashMap<String, Vec<Result<MockEntry, IoError>>> = HashMap::new();
    entries.insert(
        "test".to_string(),
        vec![
            Ok(file_entry("test", "a.txt", Ok(10))),
            Ok(file_entry("test", "b.txt", Ok(20))),
        ],
    );
    entries.insert(
        "other".to_string(),
        vec![
            Ok(file_entry("other", "a.txt", Ok(7))),
            Ok(file_entry("other", "b.txt", Ok(50))),
        ],
    );

    let mut walker = MockWalker { device_id: Ok(0), entries };
    let walk_options = WalkOptions::default();

    let (res, stats, list) = aggregate(
        Option::<NoProgress>::None,
        &mut walker,
        &walk_options,
        true,
        &vec!["test".to_string(), "other".to_string()],
    );

    assert_eq!(res.num_errors, 0);
    assert_eq!(res.num_roots, 2);
    assert_eq!(res.total, 87);
    assert_eq!(stats.entries_traversed, 4);
    assert_eq!(stats.largest_file_in_bytes, 50);
    assert_eq!(stats.smallest_file_in_bytes, 7);
    assert_eq!(list.len(), 2);
    assert_eq!(
        list,
        vec![
            ("test".to_string(), 30u128, 0u64),
            ("other".to_string(), 57u128, 0u64),
        ]
    );
}

#[test]
fn test_aggregate_directory_ignored() {
    let mut entries: HashMap<String, Vec<Result<MockEntry, IoError>>> = HashMap::new();
    entries.insert(
        "test".to_string(),
        vec![Ok(MockEntry {
            dept: 0,
            file_name: "a".to_string(),
            path: "test/a".to_string(),
            parent_path: "test".to_string(),
            metadata: Some(Ok(MockMetadata {
                is_dir: true,
                apparent_size: 11,
                size_on_disk: Ok(10),
                ..MockMetadata::default()
            })),
        })],
    );

    let mut walker = MockWalker { device_id: Ok(0), entries };
    let walk_options = WalkOptions::default();

    let (res, stats, list) = aggregate(
        Option::<NoProgress>::None,
        &mut walker,
        &walk_options,
        true,
        &vec!["test".to_string()],
    );

    assert_eq!(res.num_errors, 0);
    assert_eq!(res.num_roots, 1);
    assert_eq!(res.total, 0);
    assert_eq!(stats.entries_traversed, 1);
    assert_eq!(list.len(), 1);
}

#[test]
fn test_aggregate_entry_error() {
    let mut entries: HashMap<String, Vec<Result<MockEntry, IoError>>> = HashMap::new();
    entries.insert("test".to_string(), vec![Err(IoError)]);

    let paths: Vec<String> = entries.keys().cloned().collect();

    let mut walker = MockWalker { device_id: Ok(0), entries };
    let walk_options = WalkOptions::default();

    let (res, stats, list) = aggregate(
        Option::<NoProgress>::None,
        &mut walker,
        &walk_options,
        true,
        &paths,
    );

    assert_eq!(res.num_errors, 1);
    assert_eq!(res.num_roots, 1);
    assert_eq!(res.total, 0);
    assert_eq!(stats.entries_traversed, 1);
    assert_eq!(list.len(), 1);
}

#[test]
fn test_aggregate_device_id_error() {
    let mut entries: HashMap<String, Vec<Result<MockEntry, IoError>>> = HashMap::new();
    entries.insert(
        "test".to_string(),
        vec![Ok(MockEntry {
            dept: 0,
            file_name: "a".to_string(),
            path: "test/a".to_string(),
            parent_path: "test".to_string(),
            metadata: Some(Ok(MockMetadata {
                is_dir: true,
                apparent_size: 11,
                size_on_disk: Ok(10),
                ..MockMetadata::default()
            })),
        })],
    );

    let paths: Vec<String> = entries.keys().cloned().collect();

    let mut walker = MockWalker { device_id: Err(IoError), entries };
    let walk_options = WalkOptions::default();

    let (res, stats, list) = aggregate(
        Option::<NoProgress>::None,
        &mut walker,
        &walk_options,
        true,
        &paths,
    );

    assert_eq!(res.num_errors, 1);
    assert_eq!(res.num_roots, 1);
    assert_eq!(res.total, 0);
    assert_eq!(stats.entries_traversed, 0);
    assert_eq!(list.len(), 1);
}

#[test]
fn test_aggregate_metadata_error() {
    let mut entries: HashMap<String, Vec<Result<MockEntry, IoError>>> = HashMap::new();
    entries.insert(
        "test".to_string(),
        vec![Ok(MockEntry {
            dept: 0,
            file_name: "a".to_string(),
            path: "test/a".to_string(),
            parent_path: "test".to_string(),
            metadata: Some(Err(IoError)),
        })],
    );

    let paths: Vec<String> = entries.keys().cloned().collect();

    let mut walker = MockWalker { device_id: Ok(0), entries };
    let walk_options = WalkOptions::default();

    let (res, stats, list) = aggregate(
        Option::<NoProgress>::None,
        &mut walker,
        &walk_options,
        true,
        &paths,
    );

    assert_eq!(res.num_errors, 1);
    assert_eq!(res.num_roots, 1);
    assert_eq!(res.total, 0);
    assert_eq!(stats.entries_traversed, 1);
    assert_eq!(list.len(), 1);
}

#[test]
fn test_aggregate_metadata_none() {
    let mut entries: HashMap<String, Vec<Result<MockEntry, IoError>>> = HashMap::new();
    entries.insert(
        "test".to_string(),
        vec![Ok(MockEntry {
            dept: 0,
            file_name: "a".to_string(),
            path: "test/a".to_string(),
            parent_path: "test".to_string(),
            metadata: None,
        })],
    );

    let paths: Vec<String> = entries.keys().cloned().collect();

    let mut walker = MockWalker { device_id: Ok(0), entries };
    let walk_options = WalkOptions::default();

    let (res, stats, list) = aggregate(
        Option::<NoProgress>::None,
        &mut walker,
        &walk_options,
        true,
        &paths,
    );

    assert_eq!(res.num_errors, 0);
    assert_eq!(res.num_roots, 1);
    assert_eq!(res.total, 0);
    assert_eq!(stats.entries_traversed, 1);
    assert_eq!(list.len(), 1);
}

fn record(is_dir: bool, dev: u64, ino: u64, nlink: u64, size_on_disk: u64) -> EntryRecord {
    EntryRecord {
        depth: 0,
        file_name: "f".to_string(),
        metadata: Some(Ok(MetaRecord {
            is_dir,
            dev,
            ino,
            nlink,
            apparent_size: 0,
            size_on_disk: Ok(size_on_disk),
            modified: Ok(0),
        })),
    }
}

fn fresh_stats() -> Statistics {
    Statistics {
        entries_traversed: 0,
        smallest_file_in_bytes: u128::MAX,
        largest_file_in_bytes: 0,
    }
}

// Two entries sharing (dev, ino) with nlink > 1 contribute their size once
// when hard links are deduplicated.
#[test]
fn test_hard_links_counted_once() {
    let entries = vec![Ok(record(false, 1, 42, 2, 10)), Ok(record(false, 1, 42, 2, 10))];
    let mut inodes = InodeFilter::new();
    let mut stats = fresh_stats();
    let options = WalkOptions::default();
    let (bytes, errors) = aggregate_entries(&options, 1, &entries, &mut inodes, &mut stats);
    assert_eq!(bytes, 10);
    assert_eq!(errors, 0);
}

// The same two entries contribute their size twice when every hard link is
// counted.
#[test]
fn test_hard_links_counted_twice() {
    let entries = vec![Ok(record(false, 1, 42, 2, 10)), Ok(record(false, 1, 42, 2, 10))];
    let mut inodes = InodeFilter::new();
    let mut stats = fresh_stats();
    let options = WalkOptions {
        count_hard_links: true,
        ..WalkOptions::default()
    };
    let (bytes, errors) = aggregate_entries(&options, 1, &entries, &mut inodes, &mut stats);
    assert_eq!(bytes, 20);
    assert_eq!(errors, 0);
}

// An entry on a foreign device contributes nothing unless crossing
// filesystems is allowed, in which case it contributes its full size.
#[test]
fn test_cross_device_entry() {
    let entries = vec![Ok(record(false, 7, 1, 1, 33))];

    let mut inodes = InodeFilter::new();
    let mut stats = fresh_stats();
    let options = WalkOptions::default();
    let (bytes, _) = aggregate_entries(&options, 0, &entries, &mut inodes, &mut stats);
    assert_eq!(bytes, 0);

    let entries = vec![Ok(record(false, 7, 1, 1, 33))];
    let mut inodes = InodeFilter::new();
    let mut stats = fresh_stats();
    let options = WalkOptions {
        cross_filesystems: true,
        ..WalkOptions::default()
    };
    let (bytes, _) = aggregate_entries(&options, 0, &entries, &mut inodes, &mut stats);
    assert_eq!(bytes, 33);
}

// A failed size-on-disk fetch counts as one error and contributes nothing,
// but only when the size would actually have been counted.
#[test]
fn test_size_error_only_when_counted() {
    let mut gated = record(true, 0, 0, 0, 0);
    if let Some(Ok(m)) = &mut gated.metadata {
        m.size_on_disk = Err(IoError);
    }
    let mut failing = record(false, 0, 0, 0, 0);
    if let Some(Ok(m)) = &mut failing.metadata {
        m.size_on_disk = Err(IoError);
    }
    let entries = vec![Ok(gated), Ok(failing)];
    let mut inodes = InodeFilter::new();
    let mut stats = fresh_stats();
    let options = WalkOptions::default();
    let (bytes, errors) = aggregate_entries(&options, 0, &entries, &mut inodes, &mut stats);
    assert_eq!(bytes, 0);
    assert_eq!(errors, 1);
    assert_eq!(stats.entries_traversed, 2);
}

// The extreme-size statistics range over non-directory entries only: a
// directory's zero contribution does not drag the smallest size down.
#[test]
fn test_statistics_skip_directories() {
    let entries = vec![Ok(record(true, 0, 0, 0, 0)), Ok(record(false, 0, 0, 0, 10))];
    let mut inodes = InodeFilter::new();
    let mut stats = fresh_stats();
    let options = WalkOptions::default();
    let (bytes, errors) = aggregate_entries(&options, 0, &entries, &mut inodes, &mut stats);
    assert_eq!(bytes, 10);
    assert_eq!(errors, 0);
    assert_eq!(stats.entries_traversed, 2);
    assert_eq!(stats.smallest_file_in_bytes, 10);
    assert_eq!(stats.largest_file_in_bytes, 10);
}

// Entries without metadata, or with failed metadata, do not touch the
// extremes either; when no non-directory entry was counted at all, the
// smallest size falls back to 0.
#[test]
fn test_statistics_fall_back_when_nothing_counted() {
    let mut entries: HashMap<String, Vec<Result<MockEntry, IoError>>> = HashMap::new();
    entries.insert(
        "test".to_string(),
        vec![
            Ok(MockEntry {
                dept: 0,
                file_name: "a".to_string(),
                path: "test/a".to_string(),
                parent_path: "test".to_string(),
                metadata: Some(Ok(MockMetadata {
                    is_dir: true,
                    size_on_disk: Ok(7),
                    ..MockMetadata::default()
                })),
            }),
            Ok(MockEntry {
                dept: 0,
                file_name: "b".to_string(),
                path: "test/b".to_string(),
                parent_path: "test".to_string(),
                metadata: None,
            }),
            Ok(MockEntry {
                dept: 0,
                file_name: "c".to_string(),
                path: "test/c".to_string(),
                parent_path: "test".to_string(),
                metadata: Some(Err(IoError)),
            }),
        ],
    );

    let mut walker = MockWalker { device_id: Ok(0), entries };
    let walk_options = WalkOptions::default();

    let (res, stats, _) = aggregate(
        Option::<NoProgress>::None,
        &mut walker,
        &walk_options,
        false,
        &vec!["test".to_string()],
    );
    assert_eq!(res.num_errors, 1);
    assert_eq!(stats.entries_traversed, 3);
    assert_eq!(stats.smallest_file_in_bytes, 0);
    assert_eq!(stats.largest_file_in_bytes, 0);
}

// A failed device-id resolution yields the zero-byte, one-error record
// without reading the entry stream, whatever else aggregate_roots is fed.
#[test]
fn test_aggregate_roots_device_error_record() {
    let input = vec![
        RootWalk {
            path: "bad".to_string(),
            device_id: Err(IoError),
            entries: Vec::new(),
        },
        RootWalk {
            path: "good".to_string(),
            device_id: Ok(0),
            entries: vec![Ok(record(false, 0, 0, 0, 5))],
        },
    ];
    let options = WalkOptions::default();
    let (res, stats, list) = dua::aggregate_roots(&options, false, &input);
    assert_eq!(res.num_roots, 2);
    assert_eq!(res.num_errors, 1);
    assert_eq!(res.total, 5);
    assert_eq!(stats.entries_traversed, 1);
    assert_eq!(
        list,
        vec![
            ("bad".to_string(), 0u128, 1u64),
            ("good".to_string(), 5u128, 0u64),
        ]
    );
}
