//! The capability interfaces a walk is consumed through, the options that
//! configure it, and the model of what one entry contributes to a count.
//!
//! The engine never touches the operating system itself: directory
//! enumeration is injected through the [`Walker`] trait, whose entries and
//! metadata are read through [`Entry`] and [`Metadata`]. Each entry is
//! snapshotted into the plain [`EntryRecord`] / [`MetaRecord`] values the
//! verified folds work on.

use crate::crossdev;
use crate::inodefilter::spec_filter_add;
use crate::inodefilter::spec_filter_passes;
use crate::inodefilter::InodeFilter;
use vstd::prelude::*;

verus! {

/// A coarse io error. The engine never distinguishes error kinds: every
/// failure degrades the affected entry's contribution to zero and bumps a
/// counter.
#[derive(Clone, Copy, Debug, PartialEq, Eq)]
pub struct IoError;

/// How byte counts are rendered for humans.
#[derive(Clone, Copy, Debug, PartialEq, Eq)]
pub enum ByteFormat {
    /// Metric units, based on 1000.
    Metric,
    /// Binary units, based on 1024.
    Binary,
    /// Raw bytes, without additional formatting.
    Bytes,
    /// Only gigabytes, without smart-unit selection.
    GB,
    /// Only gibibytes, without smart-unit selection.
    GiB,
    /// Only megabytes, without smart-unit selection.
    MB,
    /// Only mebibytes, without smart-unit selection.
    MiB,
}

impl ByteFormat {
    /// The column width needed for the numeric part of a formatted size.
    pub fn width(self) -> (r: usize)
        ensures
            r == match self {
                ByteFormat::Metric => 10int,
                ByteFormat::Binary => 11int,
                ByteFormat::Bytes => 12int,
                ByteFormat::MiB | ByteFormat::MB => 12int,
                _ => 10int,
            },
    {
        match self {
            ByteFormat::Metric => 10,
            ByteFormat::Binary => 11,
            ByteFormat::Bytes => 12,
            ByteFormat::MiB | ByteFormat::MB => 12,
            _ => 10,
        }
    }

    /// The full column width of a formatted size: the number, the unit, and
    /// one space between them.
    pub fn total_width(self) -> (r: usize)
        ensures
            r == self.width_spec() + match self {
                ByteFormat::Binary | ByteFormat::MiB | ByteFormat::GiB => 3int,
                ByteFormat::Metric | ByteFormat::MB | ByteFormat::GB => 2int,
                ByteFormat::Bytes => 1int,
            } + 1int,
    {
        self.width() + match self {
            ByteFormat::Binary | ByteFormat::MiB | ByteFormat::GiB => 3,
            ByteFormat::Metric | ByteFormat::MB | ByteFormat::GB => 2,
            ByteFormat::Bytes => 1,
        } + 1
    }

    /// What `width` returns.
    pub open spec fn width_spec(self) -> int {
        match self {
            ByteFormat::Metric => 10,
            ByteFormat::Binary => 11,
            ByteFormat::Bytes => 12,
            ByteFormat::MiB | ByteFormat::MB => 12,
            _ => 10,
        }
    }

    /// Pair a byte count with this format, ready to be rendered.
    pub fn display(self, bytes: u128) -> (r: ByteFormatDisplay)
        ensures
            r.format == self,
            r.bytes == bytes,
    {
        ByteFormatDisplay { format: self, bytes }
    }
}

/// A byte count together with the format it should be rendered in.
/// Rendering itself needs floating point and is left to the consumer.
#[derive(Clone, Copy, Debug, PartialEq, Eq)]
pub struct ByteFormatDisplay {
    pub format: ByteFormat,
    pub bytes: u128,
}

/// The kind of ordering applied during filesystem iteration.
#[derive(Clone, Copy, Debug, PartialEq, Eq)]
pub enum TraversalSorting {
    Unsorted,
    AlphabeticalByFileName,
}

/// Configures a filesystem walk, including output and formatting options.
/// Immutable for the duration of one walk.
#[derive(Clone, Debug)]
pub struct WalkOptions {
    /// The number of threads the walker may use: 0 asks for a default-sized
    /// pool, 1 forces serial enumeration, any other value a dedicated pool.
    pub threads: usize,
    pub byte_format: ByteFormat,
    /// Count every hard link of a file, instead of counting each inode once.
    pub count_hard_links: bool,
    /// Count logical file length instead of occupied disk blocks.
    pub apparent_size: bool,
    pub sorting: TraversalSorting,
    /// Follow the walk onto other mounted filesystems.
    pub cross_filesystems: bool,
    /// Directories the walker must not descend into.
    pub ignore_dirs: Vec<String>,
}

impl Default for WalkOptions {
    /// The default configuration: metric format, unsorted, one filesystem,
    /// inodes counted once, sizes on disk.
    fn default() -> (r: WalkOptions)
        ensures
            r.threads == 0,
            r.byte_format == ByteFormat::Metric,
            !r.count_hard_links,
            !r.apparent_size,
            r.sorting == TraversalSorting::Unsorted,
            !r.cross_filesystems,
            r.ignore_dirs@ == Seq::<String>::empty(),
    {
        WalkOptions {
            threads: 0,
            byte_format: ByteFormat::Metric,
            count_hard_links: false,
            apparent_size: false,
            sorting: TraversalSorting::Unsorted,
            cross_filesystems: false,
            ignore_dirs: Vec::new(),
        }
    }
}

/// A plain snapshot of one entry's metadata, as read through [`Metadata`].
#[derive(Clone, Copy, Debug, PartialEq, Eq)]
pub struct MetaRecord {
    pub is_dir: bool,
    /// Device id of the filesystem holding the entry.
    pub dev: u64,
    /// Inode number, unique per device.
    pub ino: u64,
    /// Hard-link count.
    pub nlink: u64,
    /// Logical file length in bytes.
    pub apparent_size: u64,
    /// Physical bytes occupied on disk; the platform lookup can fail.
    pub size_on_disk: Result<u64, IoError>,
    /// Seconds since the epoch of the last modification; can fail.
    pub modified: Result<u64, IoError>,
}

/// A plain snapshot of one walk entry, as read through [`Entry`]: its depth
/// below the root (0 for the root itself), its file name, and its metadata.
/// The metadata is `None` for directories the walker declined to stat, and
/// present-with-error when fetching it failed.
#[derive(Debug, PartialEq, Eq)]
pub struct EntryRecord {
    pub depth: usize,
    pub file_name: String,
    pub metadata: Option<Result<MetaRecord, IoError>>,
}

/// One walked root as handed to the consumers that take pre-collected
/// entries: its path, the result of resolving its device id, and the
/// entries its walk produced.
#[derive(Debug)]
pub struct RootWalk {
    pub path: String,
    pub device_id: Result<u64, IoError>,
    pub entries: Vec<Result<EntryRecord, IoError>>,
}

/// Metadata of one filesystem object.
pub trait Metadata {
    fn is_dir(&self) -> bool;

    fn dev(&self) -> u64;

    fn ino(&self) -> u64;

    fn nlink(&self) -> u64;

    fn apparent_size(&self) -> u64;

    fn size_on_disk(&self) -> Result<u64, IoError>;

    fn modified(&self) -> Result<u64, IoError>;
}

/// One filesystem object yielded by a walk.
pub trait Entry {
    type Meta: Metadata;

    /// Depth below the root: 0 for the root entry itself.
    fn depth(&self) -> usize;

    /// The absolute path of the entry.
    fn path(&self) -> String;

    /// The file name of the entry, without its parent path.
    fn file_name(&self) -> String;

    /// The path of the entry's parent.
    fn parent_path(&self) -> String;

    /// The entry's metadata: `None` when the walker intentionally did not
    /// fetch it, `Some(Err(..))` when fetching failed.
    fn metadata(&self) -> Option<Result<Self::Meta, IoError>>;
}

/// Abstract directory enumeration: the only seam through which the engine
/// sees a filesystem. Entries of one root must be produced in pre-order
/// depth-first order: a directory's children are fully emitted, recursively,
/// before any sibling of the directory. The consumers check that order and
/// fail fast on a violation.
pub trait Walker {
    type E: Entry;

    /// The device id of the filesystem holding `path`.
    fn device_id(&self, path: &str) -> Result<u64, IoError>;

    /// Enumerate one root. Enumeration errors surface as `Err` items rather
    /// than aborting the walk.
    fn walk(&mut self, path: &str, root_device_id: u64) -> Vec<Result<Self::E, IoError>>;
}

/// Take the plain snapshot of one entry that the verified folds consume.
pub fn record_of_entry<E: Entry>(entry: &E) -> EntryRecord {
    let metadata: Option<Result<MetaRecord, IoError>> = match entry.metadata() {
        None => None,
        Some(Err(e)) => Some(Err(e)),
        Some(Ok(m)) => Some(
            Ok(
                MetaRecord {
                    is_dir: m.is_dir(),
                    dev: m.dev(),
                    ino: m.ino(),
                    nlink: m.nlink(),
                    apparent_size: m.apparent_size(),
                    size_on_disk: m.size_on_disk(),
                    modified: m.modified(),
                },
            ),
        ),
    };
    EntryRecord { depth: entry.depth(), file_name: entry.file_name(), metadata }
}

/// Whether an entry's size is counted at all: directories are never counted,
/// hard links only the first time their inode is seen (unless every link is
/// to be counted), and entries on a foreign device only when crossing
/// filesystems was requested.
pub open spec fn spec_gate(o: WalkOptions, root_device_id: u64, m: MetaRecord, seen: Set<
    u128,
>) -> bool {
    &&& !m.is_dir
    &&& (o.count_hard_links || spec_filter_passes(seen, m.dev, m.ino, m.nlink))
    &&& (o.cross_filesystems || m.dev == root_device_id)
}

/// The inode filter state after one entry was examined. The filter learns an
/// inode exactly when the entry is a non-directory and links are not counted
/// individually, whatever the cross-device test says.
pub open spec fn spec_seen_after(o: WalkOptions, m: MetaRecord, seen: Set<u128>) -> Set<u128> {
    if !m.is_dir && !o.count_hard_links {
        spec_filter_add(seen, m.dev, m.ino, m.nlink)
    } else {
        seen
    }
}

/// The size an entry reports before any gating: its logical length when
/// apparent size was requested, otherwise its size on disk, with a failed
/// lookup reporting 0.
pub open spec fn spec_raw_size(o: WalkOptions, m: MetaRecord) -> int {
    if o.apparent_size {
        m.apparent_size as int
    } else {
        match m.size_on_disk {
            Ok(s) => s as int,
            Err(_) => 0,
        }
    }
}

/// The bytes one entry contributes: its raw size if the counting policy
/// admits it, and 0 otherwise. A failed size-on-disk lookup contributes 0
/// (and counts as an error, see [`spec_size_error`]).
pub open spec fn spec_counted_size(o: WalkOptions, root_device_id: u64, m: MetaRecord, seen: Set<
    u128,
>) -> u128 {
    if spec_gate(o, root_device_id, m, seen) {
        spec_raw_size(o, m) as u128
    } else {
        0
    }
}

/// Whether examining an entry hits a size-fetch failure: only entries whose
/// size on disk would actually have been counted can do so.
pub open spec fn spec_size_error(o: WalkOptions, root_device_id: u64, m: MetaRecord, seen: Set<
    u128,
>) -> bool {
    spec_gate(o, root_device_id, m, seen) && !o.apparent_size && m.size_on_disk is Err
}

/// What examining one entry's metadata yields: the bytes it contributes,
/// whether it passed the counting gate, and whether the size lookup failed.
pub(crate) struct SizeOutcome {
    pub size: u128,
    pub counted: bool,
    pub size_error: bool,
}

/// Evaluate the counting policy and size of one successfully-stat'ed
/// entry, updating the hard-link filter exactly as the policy prescribes.
pub(crate) fn entry_file_size(
    o: &WalkOptions,
    root_device_id: u64,
    m: &MetaRecord,
    inodes: &mut InodeFilter,
) -> (r: SizeOutcome)
    ensures
        r.size == spec_counted_size(*o, root_device_id, *m, old(inodes)@),
        r.counted == spec_gate(*o, root_device_id, *m, old(inodes)@),
        r.size_error == spec_size_error(*o, root_device_id, *m, old(inodes)@),
        final(inodes)@ == spec_seen_after(*o, *m, old(inodes)@),
{
    let counted = !m.is_dir && (o.count_hard_links || inodes.add_raw(m.dev, m.ino, m.nlink)) && (
    o.cross_filesystems || crossdev::is_same_device_raw(root_device_id, m.dev));
    if counted {
        if o.apparent_size {
            SizeOutcome { size: m.apparent_size as u128, counted, size_error: false }
        } else {
            match m.size_on_disk {
                Ok(s) => SizeOutcome { size: s as u128, counted, size_error: false },
                Err(_) => SizeOutcome { size: 0, counted, size_error: true },
            }
        }
    } else {
        SizeOutcome { size: 0, counted, size_error: false }
    }
}

} // verus!
