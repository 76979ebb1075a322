//! Flat aggregation: per-root byte totals plus global statistics.
//!
//! For each root path, the stream of entries produced by a walker is folded
//! into one `(path, bytes, errors)` record; the records, the global
//! [`WalkResult`] and the [`Statistics`] are returned together. The exact
//! meaning of one root's fold is pinned by [`agg_fold`]; [`aggregate`] ties
//! the totals of the records it returns to the grand totals, whatever entries
//! the walker produced.

use crate::common::spec_clip_u128;
use crate::common::spec_clip_u64;
use crate::common::spec_sat_add_u64;
use crate::common::sat_add_u128;
use crate::common::sat_add_u64;
use crate::common::Throttle;
use crate::common::WalkResult;
use crate::fs_walk::entry_file_size;
use crate::fs_walk::record_of_entry;
use crate::fs_walk::spec_counted_size;
use crate::fs_walk::spec_raw_size;
use crate::fs_walk::spec_seen_after;
use crate::fs_walk::spec_size_error;
use crate::fs_walk::EntryRecord;
use crate::fs_walk::IoError;
use crate::fs_walk::RootWalk;
use crate::fs_walk::WalkOptions;
use crate::fs_walk::Walker;
use crate::inodefilter::spec_inode_key;
use crate::inodefilter::InodeFilter;
use vstd::multiset::Multiset;
use vstd::prelude::*;

verus! {

/// Statistics obtained during a filesystem walk.
#[derive(Debug, Clone, PartialEq, Eq)]
pub struct Statistics {
    /// The number of entries seen during filesystem traversal.
    pub entries_traversed: u64,
    /// The smallest counted size of a non-directory entry, in bytes; 0
    /// when no such entry was encountered.
    pub smallest_file_in_bytes: u128,
    /// The largest counted size of a non-directory entry, in bytes.
    pub largest_file_in_bytes: u128,
}

/// Consumes rate-limited progress reports during a long aggregation.
pub trait AggregateProgress {
    /// Called with the number of entries enumerated so far.
    fn progress(&mut self, entries_traversed: u64);

    /// Called when one root's stream has been exhausted.
    fn end_of_root(&mut self);
}

pub open spec fn min_int(a: int, b: int) -> int {
    if a < b {
        a
    } else {
        b
    }
}

pub open spec fn max_int(a: int, b: int) -> int {
    if a > b {
        a
    } else {
        b
    }
}

/// The running state of one root's flat aggregation: bytes and errors of the
/// root so far, plus the globally accumulated entry count, extreme sizes and
/// hard-link filter.
pub struct AggState {
    pub bytes: int,
    pub errors: int,
    pub entries: int,
    pub largest: int,
    pub smallest: int,
    pub seen: Set<u128>,
}

/// How a single stream item changes the running aggregation state: every
/// item is one traversed entry; an enumeration error or a metadata error
/// counts one error and contributes nothing; a stat'ed entry contributes
/// its counted size. The extreme-size statistics range over non-directory
/// entries only: directories, entries without metadata and entries whose
/// metadata failed never touch them.
pub open spec fn agg_step(
    o: WalkOptions,
    root_device_id: u64,
    st: AggState,
    item: Result<EntryRecord, IoError>,
) -> AggState {
    let entries = spec_sat_add_u64(st.entries, 1);
    match item {
        Err(_) => AggState {
            bytes: st.bytes,
            errors: st.errors + 1,
            entries,
            largest: st.largest,
            smallest: st.smallest,
            seen: st.seen,
        },
        Ok(e) => match e.metadata {
            None => AggState {
                bytes: st.bytes,
                errors: st.errors,
                entries,
                largest: st.largest,
                smallest: st.smallest,
                seen: st.seen,
            },
            Some(Err(_)) => AggState {
                bytes: st.bytes,
                errors: st.errors + 1,
                entries,
                largest: st.largest,
                smallest: st.smallest,
                seen: st.seen,
            },
            Some(Ok(m)) => {
                let size = spec_counted_size(o, root_device_id, m, st.seen) as int;
                AggState {
                    bytes: st.bytes + size,
                    errors: if spec_size_error(o, root_device_id, m, st.seen) {
                        st.errors + 1
                    } else {
                        st.errors
                    },
                    entries,
                    largest: if m.is_dir {
                        st.largest
                    } else {
                        max_int(st.largest, size)
                    },
                    smallest: if m.is_dir {
                        st.smallest
                    } else {
                        min_int(st.smallest, size)
                    },
                    seen: spec_seen_after(o, m, st.seen),
                }
            },
        },
    }
}

/// The flat aggregation of a whole stream, item by item from the front.
pub open spec fn agg_fold(
    o: WalkOptions,
    root_device_id: u64,
    st: AggState,
    items: Seq<Result<EntryRecord, IoError>>,
) -> AggState
    decreases items.len(),
{
    if items.len() == 0 {
        st
    } else {
        agg_fold(o, root_device_id, agg_step(o, root_device_id, st, items.first()), items.drop_first())
    }
}

/// The sum of the counted sizes of a stream's entries, each taken under the
/// hard-link filter state it is examined in.
pub open spec fn counted_total(
    o: WalkOptions,
    root_device_id: u64,
    items: Seq<Result<EntryRecord, IoError>>,
    seen: Set<u128>,
) -> int
    decreases items.len(),
{
    if items.len() == 0 {
        0
    } else {
        let head_size = match items.first() {
            Err(_) => 0,
            Ok(e) => match e.metadata {
                Some(Ok(m)) => spec_counted_size(o, root_device_id, m, seen) as int,
                _ => 0,
            },
        };
        let seen1 = match items.first() {
            Ok(e) => match e.metadata {
                Some(Ok(m)) => spec_seen_after(o, m, seen),
                _ => seen,
            },
            Err(_) => seen,
        };
        head_size + counted_total(o, root_device_id, items.drop_first(), seen1)
    }
}

/// A root's aggregate total is the sum of its counted leaf sizes under the
/// active gating policy: the bytes of the fold grow over the initial state
/// by exactly the counted total of the stream.
pub proof fn lemma_fold_bytes_are_counted_total(
    o: WalkOptions,
    root_device_id: u64,
    st: AggState,
    items: Seq<Result<EntryRecord, IoError>>,
)
    ensures
        agg_fold(o, root_device_id, st, items).bytes == st.bytes + counted_total(
            o,
            root_device_id,
            items,
            st.seen,
        ),
    decreases items.len(),
{
    if items.len() > 0 {
        lemma_fold_bytes_are_counted_total(
            o,
            root_device_id,
            agg_step(o, root_device_id, st, items.first()),
            items.drop_first(),
        );
    }
}

/// Bounds of the fold, needed to run it in machine integers: bytes grow by
/// at most `u64::MAX` per item, errors by at most one, and the statistics
/// stay in range.
pub proof fn lemma_agg_fold_bounds(
    o: WalkOptions,
    root_device_id: u64,
    st: AggState,
    items: Seq<Result<EntryRecord, IoError>>,
)
    requires
        0 <= st.entries <= u64::MAX,
        0 <= st.largest <= u128::MAX,
        0 <= st.smallest <= u128::MAX,
    ensures
        ({
            let r = agg_fold(o, root_device_id, st, items);
            &&& st.bytes <= r.bytes <= st.bytes + items.len() * (u64::MAX as int)
            &&& st.errors <= r.errors <= st.errors + items.len()
            &&& 0 <= r.entries <= u64::MAX
            &&& 0 <= r.largest <= u128::MAX
            &&& 0 <= r.smallest <= u128::MAX
        }),
    decreases items.len(),
{
    if items.len() > 0 {
        let st1 = agg_step(o, root_device_id, st, items.first());
        assert(st.bytes <= st1.bytes <= st.bytes + u64::MAX);
        lemma_agg_fold_bounds(o, root_device_id, st1, items.drop_first());
    }
}

/// Fold one root's stream of entry snapshots into its byte total and error
/// count, updating the global statistics and hard-link filter on the way.
/// The result is exactly the fold of [`agg_step`] over the stream.
pub fn aggregate_entries(
    walk_options: &WalkOptions,
    device_id: u64,
    entries: &Vec<Result<EntryRecord, IoError>>,
    inodes: &mut InodeFilter,
    stats: &mut Statistics,
) -> (r: (u128, u64))
    ensures
        ({
            let st0 = AggState {
                bytes: 0,
                errors: 0,
                entries: old(stats).entries_traversed as int,
                largest: old(stats).largest_file_in_bytes as int,
                smallest: old(stats).smallest_file_in_bytes as int,
                seen: old(inodes)@,
            };
            let st1 = agg_fold(*walk_options, device_id, st0, entries@);
            &&& r.0 == st1.bytes
            &&& r.1 == st1.errors
            &&& final(stats).entries_traversed == st1.entries
            &&& final(stats).largest_file_in_bytes == st1.largest
            &&& final(stats).smallest_file_in_bytes == st1.smallest
            &&& final(inodes)@ == st1.seen
        }),
{
    let ghost st0 = AggState {
        bytes: 0,
        errors: 0,
        entries: stats.entries_traversed as int,
        largest: stats.largest_file_in_bytes as int,
        smallest: stats.smallest_file_in_bytes as int,
        seen: inodes@,
    };
    let ghost goal = agg_fold(*walk_options, device_id, st0, entries@);
    let mut num_bytes: u128 = 0;
    let mut num_errors: u64 = 0;
    let mut i: usize = 0;
    proof {
        lemma_agg_fold_bounds(*walk_options, device_id, st0, entries@);
        assert(entries@.skip(0) =~= entries@);
    }
    while i < entries.len()
        invariant
            0 <= i <= entries@.len(),
            num_bytes <= i * (u64::MAX as int),
            num_errors <= i,
            ({
                let st = AggState {
                    bytes: num_bytes as int,
                    errors: num_errors as int,
                    entries: stats.entries_traversed as int,
                    largest: stats.largest_file_in_bytes as int,
                    smallest: stats.smallest_file_in_bytes as int,
                    seen: inodes@,
                };
                agg_fold(*walk_options, device_id, st, entries@.skip(i as int)) == goal
            }),
        decreases entries@.len() - i,
    {
        let ghost st_before = AggState {
            bytes: num_bytes as int,
            errors: num_errors as int,
            entries: stats.entries_traversed as int,
            largest: stats.largest_file_in_bytes as int,
            smallest: stats.smallest_file_in_bytes as int,
            seen: inodes@,
        };
        proof {
            assert(entries@.skip(i as int).len() > 0);
            assert(entries@.skip(i as int).first() == entries@[i as int]);
            assert(entries@.skip(i as int).drop_first() =~= entries@.skip(i as int + 1));
        }
        stats.entries_traversed = sat_add_u64(stats.entries_traversed, 1);
        let item: &Result<EntryRecord, IoError> = &entries[i];
        match item {
            Err(_) => {
                num_errors = num_errors + 1;
            },
            Ok(e) => {
                let file_size: u128 = match &e.metadata {
                    Some(Ok(m)) => {
                        let outcome = entry_file_size(walk_options, device_id, m, inodes);
                        if outcome.size_error {
                            num_errors = num_errors + 1;
                        }
                        // only non-directory entries enter the extremes
                        if !m.is_dir {
                            if outcome.size > stats.largest_file_in_bytes {
                                stats.largest_file_in_bytes = outcome.size;
                            }
                            if outcome.size < stats.smallest_file_in_bytes {
                                stats.smallest_file_in_bytes = outcome.size;
                            }
                        }
                        outcome.size
                    },
                    Some(Err(_)) => {
                        num_errors = num_errors + 1;
                        0
                    },
                    None => 0,
                };
                num_bytes = num_bytes + file_size;
            },
        }
        i = i + 1;
        proof {
            let st_after = AggState {
                bytes: num_bytes as int,
                errors: num_errors as int,
                entries: stats.entries_traversed as int,
                largest: stats.largest_file_in_bytes as int,
                smallest: stats.smallest_file_in_bytes as int,
                seen: inodes@,
            };
            assert(st_after == agg_step(*walk_options, device_id, st_before, entries@[i as int
                - 1]));
        }
    }
    proof {
        assert(entries@.skip(i as int) =~= Seq::<Result<EntryRecord, IoError>>::empty());
    }
    (num_bytes, num_errors)
}

/// Two entries sharing a `(device, inode)` pair with more than one hard
/// link: together they contribute their size once when hard links are
/// deduplicated, and twice when every link is counted.
pub proof fn lemma_hard_links_counted_once(
    o: WalkOptions,
    root_device_id: u64,
    e1: EntryRecord,
    e2: EntryRecord,
    m1: crate::fs_walk::MetaRecord,
    m2: crate::fs_walk::MetaRecord,
    seen: Set<u128>,
)
    requires
        e1.metadata == Some(Result::<crate::fs_walk::MetaRecord, IoError>::Ok(m1)),
        e2.metadata == Some(Result::<crate::fs_walk::MetaRecord, IoError>::Ok(m2)),
        !m1.is_dir,
        !m2.is_dir,
        m1.dev == m2.dev,
        m1.ino == m2.ino,
        m1.nlink > 1,
        m2.nlink > 1,
        o.cross_filesystems || m1.dev == root_device_id,
        !seen.contains(spec_inode_key(m1.dev, m1.ino)),
    ensures
        counted_total(
            o,
            root_device_id,
            seq![Result::<EntryRecord, IoError>::Ok(e1), Result::<EntryRecord, IoError>::Ok(e2)],
            seen,
        ) == if o.count_hard_links {
            spec_raw_size(o, m1) + spec_raw_size(o, m2)
        } else {
            spec_raw_size(o, m1)
        },
{
    let items = seq![
        Result::<EntryRecord, IoError>::Ok(e1),
        Result::<EntryRecord, IoError>::Ok(e2),
    ];
    let rest = items.drop_first();
    let seen1 = spec_seen_after(o, m1, seen);
    let seen2 = spec_seen_after(o, m2, seen1);
    assert(items.first() == Result::<EntryRecord, IoError>::Ok(e1));
    assert(rest =~= seq![Result::<EntryRecord, IoError>::Ok(e2)]);
    assert(rest.first() == Result::<EntryRecord, IoError>::Ok(e2));
    assert(rest.drop_first() =~= Seq::<Result<EntryRecord, IoError>>::empty());
    assert(spec_inode_key(m1.dev, m1.ino) == spec_inode_key(m2.dev, m2.ino));
    assert(counted_total(o, root_device_id, rest.drop_first(), seen2) == 0);
    assert(counted_total(o, root_device_id, rest, seen1) == spec_counted_size(
        o,
        root_device_id,
        m2,
        seen1,
    ) + counted_total(o, root_device_id, rest.drop_first(), seen2));
    assert(counted_total(o, root_device_id, items, seen) == spec_counted_size(
        o,
        root_device_id,
        m1,
        seen,
    ) + counted_total(o, root_device_id, rest, seen1));
    if !o.count_hard_links {
        assert(seen1 == seen.insert(spec_inode_key(m1.dev, m1.ino)));
        assert(!crate::inodefilter::spec_filter_passes(seen1, m2.dev, m2.ino, m2.nlink));
        assert(spec_counted_size(o, root_device_id, m2, seen1) == 0);
    }
}

/// An entry on another device than its root contributes its full size when
/// crossing filesystems is allowed, and nothing when it is not.
pub proof fn lemma_cross_device_gate(
    o: WalkOptions,
    root_device_id: u64,
    m: crate::fs_walk::MetaRecord,
    seen: Set<u128>,
)
    requires
        !m.is_dir,
        m.dev != root_device_id,
        o.count_hard_links || crate::inodefilter::spec_filter_passes(seen, m.dev, m.ino, m.nlink),
    ensures
        spec_counted_size(o, root_device_id, m, seen) == if o.cross_filesystems {
            spec_raw_size(o, m)
        } else {
            0
        },
{
}

/// Per-root records ordered ascending by their byte count.
pub open spec fn spec_sorted_by_bytes(s: Seq<(String, u128, u64)>) -> bool {
    forall|i: int, j: int| 0 <= i < j < s.len() ==> #[trigger] s[i].1 <= #[trigger] s[j].1
}

/// Insert one record into a sequence, after every record whose byte count
/// does not exceed it, so that records already present keep their mutual
/// order.
pub open spec fn spec_insert_by_bytes(
    s: Seq<(String, u128, u64)>,
    x: (String, u128, u64),
) -> Seq<(String, u128, u64)>
    decreases s.len(),
{
    if s.len() == 0 {
        seq![x]
    } else if s.last().1 <= x.1 {
        s.push(x)
    } else {
        spec_insert_by_bytes(s.drop_last(), x).push(s.last())
    }
}

/// Stable insertion sort of the per-root records, ascending by byte count.
pub open spec fn spec_sort_by_bytes(s: Seq<(String, u128, u64)>) -> Seq<(String, u128, u64)>
    decreases s.len(),
{
    if s.len() == 0 {
        Seq::empty()
    } else {
        spec_insert_by_bytes(spec_sort_by_bytes(s.drop_last()), s.last())
    }
}

/// The summed byte counts of a sequence of per-root records.
pub open spec fn spec_sum_bytes(s: Seq<(String, u128, u64)>) -> int
    decreases s.len(),
{
    if s.len() == 0 {
        0
    } else {
        spec_sum_bytes(s.drop_last()) + s.last().1
    }
}

/// The summed error counts of a sequence of per-root records.
pub open spec fn spec_sum_errors(s: Seq<(String, u128, u64)>) -> int
    decreases s.len(),
{
    if s.len() == 0 {
        0
    } else {
        spec_sum_errors(s.drop_last()) + s.last().2
    }
}

/// Inserting into a sequence that is sorted by bytes keeps it sorted.
proof fn lemma_insert_by_bytes_sorted(s: Seq<(String, u128, u64)>, x: (String, u128, u64))
    requires
        spec_sorted_by_bytes(s),
    ensures
        spec_sorted_by_bytes(spec_insert_by_bytes(s, x)),
    decreases s.len(),
{
    if s.len() == 0 {
    } else if s.last().1 <= x.1 {
        let r = s.push(x);
        assert forall|i: int, j: int| 0 <= i < j < r.len() implies #[trigger] r[i].1
            <= #[trigger] r[j].1 by {
            if j < s.len() {
            } else {
                assert(r[j] == x);
                if i < s.len() - 1 {
                    assert(s[i].1 <= s[s.len() - 1].1);
                }
            }
        }
    } else {
        assert(spec_sorted_by_bytes(s.drop_last())) by {
            assert forall|i: int, j: int| 0 <= i < j < s.drop_last().len() implies #[trigger] s
                .drop_last()[i].1 <= #[trigger] s.drop_last()[j].1 by {
                assert(s[i].1 <= s[j].1);
            }
        }
        lemma_insert_by_bytes_sorted(s.drop_last(), x);
        let inner = spec_insert_by_bytes(s.drop_last(), x);
        let r = inner.push(s.last());
        lemma_insert_by_bytes_elements(s.drop_last(), x);
        assert forall|i: int, j: int| 0 <= i < j < r.len() implies #[trigger] r[i].1
            <= #[trigger] r[j].1 by {
            if j == r.len() - 1 {
                assert(r[j] == s.last());
                if i < inner.len() {
                    assert(inner.to_multiset().count(inner[i]) > 0) by {
                        broadcast use vstd::seq_lib::group_to_multiset_ensures;

                        assert(inner.contains(inner[i]));
                    }
                }
            }
        }
    }
}

/// Every element of an insertion result is the inserted record or one of
/// the old ones, and each old record at most `x` in bytes stays below the
/// insertion point.
proof fn lemma_insert_by_bytes_elements(s: Seq<(String, u128, u64)>, x: (String, u128, u64))
    ensures
        forall|i: int| 0 <= i < spec_insert_by_bytes(s, x).len() ==> (
        #[trigger] spec_insert_by_bytes(s, x)[i] == x || s.contains(spec_insert_by_bytes(s, x)[i])),
    decreases s.len(),
{
    if s.len() == 0 {
    } else if s.last().1 <= x.1 {
    } else {
        lemma_insert_by_bytes_elements(s.drop_last(), x);
        assert forall|i: int| 0 <= i < spec_insert_by_bytes(s, x).len() implies (
        #[trigger] spec_insert_by_bytes(s, x)[i] == x || s.contains(
            spec_insert_by_bytes(s, x)[i],
        )) by {
            let r = spec_insert_by_bytes(s, x);
            let inner = spec_insert_by_bytes(s.drop_last(), x);
            if i < inner.len() {
                assert(r[i] == inner[i]);
                if inner[i] != x {
                    assert(s.drop_last().contains(inner[i]));
                    let w = choose|w: int| 0 <= w < s.drop_last().len() && s.drop_last()[w]
                        == inner[i];
                    assert(s[w] == inner[i]);
                }
            } else {
                assert(r[i] == s.last());
                assert(s[s.len() - 1] == s.last());
            }
        }
    }
}

/// Records already sorted stay sorted when the last one is dropped.
proof fn lemma_sorted_drop_last(s: Seq<(String, u128, u64)>)
    requires
        spec_sorted_by_bytes(s),
        s.len() > 0,
    ensures
        spec_sorted_by_bytes(s.drop_last()),
{
    assert forall|i: int, j: int| 0 <= i < j < s.drop_last().len() implies #[trigger] s
        .drop_last()[i].1 <= #[trigger] s.drop_last()[j].1 by {
        assert(s[i].1 <= s[j].1);
    }
}

/// Where the insertion lands: inserting into a sorted sequence, at the spot
/// found by scanning from the back past every strictly larger record, is
/// exactly the stable insertion.
proof fn lemma_insert_by_bytes_at(s: Seq<(String, u128, u64)>, x: (String, u128, u64), j: int)
    requires
        spec_sorted_by_bytes(s),
        0 <= j <= s.len(),
        forall|k: int| j <= k < s.len() ==> #[trigger] s[k].1 > x.1,
        j > 0 ==> s[j - 1].1 <= x.1,
    ensures
        spec_insert_by_bytes(s, x) == s.insert(j, x),
    decreases s.len(),
{
    if s.len() == 0 {
        assert(spec_insert_by_bytes(s, x) =~= s.insert(0, x));
    } else if s.last().1 <= x.1 {
        assert(j == s.len());
        assert(s.push(x) =~= s.insert(j, x));
    } else {
        assert(j < s.len());
        lemma_sorted_drop_last(s);
        assert(forall|k: int| j <= k < s.drop_last().len() ==> #[trigger] s.drop_last()[k].1
            > x.1) by {
            assert(forall|k: int| j <= k < s.drop_last().len() ==> s.drop_last()[k] == s[k]);
        }
        assert(j > 0 ==> s.drop_last()[j - 1].1 <= x.1);
        lemma_insert_by_bytes_at(s.drop_last(), x, j);
        assert(spec_insert_by_bytes(s.drop_last(), x).push(s.last()) =~= s.insert(j, x));
    }
}

/// Insertion adds exactly the new record to the multiset of records.
proof fn lemma_insert_by_bytes_multiset(s: Seq<(String, u128, u64)>, x: (String, u128, u64))
    ensures
        spec_insert_by_bytes(s, x).to_multiset() == s.to_multiset().insert(x),
    decreases s.len(),
{
    broadcast use vstd::seq_lib::group_to_multiset_ensures;

    if s.len() == 0 {
        assert(seq![x] =~= Seq::<(String, u128, u64)>::empty().push(x));
        assert(Seq::<(String, u128, u64)>::empty().to_multiset() =~= Multiset::<(
            String,
            u128,
            u64,
        )>::empty());
        assert(spec_insert_by_bytes(s, x).to_multiset() =~= s.to_multiset().insert(x));
    } else if s.last().1 <= x.1 {
        assert(spec_insert_by_bytes(s, x).to_multiset() =~= s.to_multiset().insert(x));
    } else {
        lemma_insert_by_bytes_multiset(s.drop_last(), x);
        assert(s =~= s.drop_last().push(s.last()));
        assert(s.to_multiset() == s.drop_last().to_multiset().insert(s.last()));
        assert(spec_insert_by_bytes(s, x).to_multiset() == s.drop_last().to_multiset().insert(
            x,
        ).insert(s.last()));
        assert(s.drop_last().to_multiset().insert(x).insert(s.last())
            =~= s.drop_last().to_multiset().insert(s.last()).insert(x));
    }
}

/// Sorting by size is a permutation: the multiset of `(path, bytes, errors)`
/// records is unchanged.
pub proof fn lemma_sort_by_bytes_permutes(s: Seq<(String, u128, u64)>)
    ensures
        spec_sort_by_bytes(s).to_multiset() == s.to_multiset(),
    decreases s.len(),
{
    broadcast use vstd::seq_lib::group_to_multiset_ensures;

    if s.len() == 0 {
        assert(spec_sort_by_bytes(s).to_multiset() =~= s.to_multiset());
    } else {
        lemma_sort_by_bytes_permutes(s.drop_last());
        lemma_insert_by_bytes_multiset(spec_sort_by_bytes(s.drop_last()), s.last());
        assert(s =~= s.drop_last().push(s.last()));
        assert(s.to_multiset() == s.drop_last().to_multiset().insert(s.last()));
    }
}

/// Sorting by size orders the records ascending by byte count.
pub proof fn lemma_sort_by_bytes_sorted(s: Seq<(String, u128, u64)>)
    ensures
        spec_sorted_by_bytes(spec_sort_by_bytes(s)),
    decreases s.len(),
{
    if s.len() == 0 {
    } else {
        lemma_sort_by_bytes_sorted(s.drop_last());
        lemma_insert_by_bytes_sorted(spec_sort_by_bytes(s.drop_last()), s.last());
    }
}

/// Insertion grows the byte and error sums by exactly the new record.
proof fn lemma_insert_by_bytes_sums(s: Seq<(String, u128, u64)>, x: (String, u128, u64))
    ensures
        spec_sum_bytes(spec_insert_by_bytes(s, x)) == spec_sum_bytes(s) + x.1,
        spec_sum_errors(spec_insert_by_bytes(s, x)) == spec_sum_errors(s) + x.2,
    decreases s.len(),
{
    if s.len() == 0 {
        assert(seq![x].drop_last() =~= Seq::<(String, u128, u64)>::empty());
        assert(spec_sum_bytes(Seq::<(String, u128, u64)>::empty()) == 0);
        assert(spec_sum_errors(Seq::<(String, u128, u64)>::empty()) == 0);
        assert(seq![x].last() == x);
        assert(spec_sum_bytes(seq![x]) == x.1);
        assert(spec_sum_errors(seq![x]) == x.2);
    } else if s.last().1 <= x.1 {
        assert(s.push(x).drop_last() =~= s);
        assert(spec_sum_bytes(s.push(x)) == spec_sum_bytes(s) + x.1);
        assert(spec_sum_errors(s.push(x)) == spec_sum_errors(s) + x.2);
    } else {
        lemma_insert_by_bytes_sums(s.drop_last(), x);
        let inner = spec_insert_by_bytes(s.drop_last(), x);
        assert(inner.push(s.last()).drop_last() =~= inner);
        assert(spec_sum_bytes(inner.push(s.last())) == spec_sum_bytes(inner) + s.last().1);
        assert(spec_sum_errors(inner.push(s.last())) == spec_sum_errors(inner) + s.last().2);
    }
}

/// Sorting leaves the summed byte and error counts unchanged.
pub proof fn lemma_sort_by_bytes_sums(s: Seq<(String, u128, u64)>)
    ensures
        spec_sum_bytes(spec_sort_by_bytes(s)) == spec_sum_bytes(s),
        spec_sum_errors(spec_sort_by_bytes(s)) == spec_sum_errors(s),
    decreases s.len(),
{
    if s.len() == 0 {
    } else {
        lemma_sort_by_bytes_sums(s.drop_last());
        lemma_insert_by_bytes_sums(spec_sort_by_bytes(s.drop_last()), s.last());
    }
}

/// Insertion grows the sequence by exactly one record.
proof fn lemma_insert_by_bytes_len(s: Seq<(String, u128, u64)>, x: (String, u128, u64))
    ensures
        spec_insert_by_bytes(s, x).len() == s.len() + 1,
    decreases s.len(),
{
    if s.len() == 0 {
    } else if s.last().1 <= x.1 {
    } else {
        lemma_insert_by_bytes_len(s.drop_last(), x);
    }
}

/// Sorting keeps the number of records.
pub proof fn lemma_sort_by_bytes_len(s: Seq<(String, u128, u64)>)
    ensures
        spec_sort_by_bytes(s).len() == s.len(),
    decreases s.len(),
{
    if s.len() > 0 {
        lemma_sort_by_bytes_len(s.drop_last());
        lemma_insert_by_bytes_len(spec_sort_by_bytes(s.drop_last()), s.last());
    }
}

/// Stable-sort the per-root records ascending by byte count, in place.
/// Records with equal byte counts keep their input order.
pub fn sort_aggregates_by_size(aggregates: &mut Vec<(String, u128, u64)>)
    ensures
        final(aggregates)@ == spec_sort_by_bytes(old(aggregates)@),
        spec_sorted_by_bytes(final(aggregates)@),
{
    let ghost input0 = aggregates@;
    let mut out: Vec<(String, u128, u64)> = Vec::new();
    let mut processed: usize = 0;
    let n: usize = aggregates.len();
    proof {
        assert(input0.len() == n as int);
        assert(input0.take(0) =~= Seq::<(String, u128, u64)>::empty());
        assert(input0.skip(0) =~= input0);
    }
    while aggregates.len() > 0
        invariant
            processed as int + aggregates@.len() == input0.len(),
            input0.len() <= usize::MAX,
            aggregates@ == input0.skip(processed as int),
            out@ == spec_sort_by_bytes(input0.take(processed as int)),
            spec_sorted_by_bytes(out@),
        decreases aggregates@.len(),
    {
        proof {
            assert(input0.skip(processed as int).remove(0) =~= input0.skip(
                processed as int + 1,
            ));
            assert(input0.skip(processed as int)[0] == input0[processed as int]);
        }
        let x = aggregates.remove(0);
        let mut j: usize = out.len();
        while j > 0 && out[j - 1].1 > x.1
            invariant
                j <= out@.len(),
                forall|k: int| j <= k < out@.len() ==> #[trigger] out@[k].1 > x.1,
            decreases j,
        {
            j = j - 1;
        }
        proof {
            lemma_insert_by_bytes_at(out@, x, j as int);
            lemma_insert_by_bytes_sorted(out@, x);
            assert(input0.take(processed as int + 1).drop_last() =~= input0.take(
                processed as int,
            ));
            assert(input0.take(processed as int + 1).last() == input0[processed as int]);
        }
        out.insert(j, x);
        processed = processed + 1;
    }
    proof {
        assert(input0.take(processed as int) =~= input0);
    }
    *aggregates = out;
}

/// The record one walked root yields: its path with zero bytes and one
/// error when its device id could not be resolved (the entry stream is
/// then never read), otherwise its path with the byte and error totals of
/// the fold of [`agg_step`] over its entries.
pub open spec fn spec_root_record(o: WalkOptions, st: AggState, root: RootWalk) -> (
    String,
    u128,
    u64,
) {
    match root.device_id {
        Err(_) => (root.path, 0u128, 1u64),
        Ok(dev) => {
            let st1 = agg_fold(
                o,
                dev,
                AggState {
                    bytes: 0,
                    errors: 0,
                    entries: st.entries,
                    largest: st.largest,
                    smallest: st.smallest,
                    seen: st.seen,
                },
                root.entries@,
            );
            (root.path, st1.bytes as u128, st1.errors as u64)
        },
    }
}

/// The shared statistics and hard-link-filter state after one walked
/// root. A failed device id leaves it untouched.
pub open spec fn spec_root_state(o: WalkOptions, st: AggState, root: RootWalk) -> AggState {
    match root.device_id {
        Err(_) => st,
        Ok(dev) => {
            let st1 = agg_fold(
                o,
                dev,
                AggState {
                    bytes: 0,
                    errors: 0,
                    entries: st.entries,
                    largest: st.largest,
                    smallest: st.smallest,
                    seen: st.seen,
                },
                root.entries@,
            );
            AggState {
                bytes: 0,
                errors: 0,
                entries: st1.entries,
                largest: st1.largest,
                smallest: st1.smallest,
                seen: st1.seen,
            }
        },
    }
}

/// The records of all walked roots, in input order, under the threaded
/// statistics state.
pub open spec fn spec_roots_records(o: WalkOptions, st: AggState, roots: Seq<RootWalk>) -> Seq<
    (String, u128, u64),
>
    decreases roots.len(),
{
    if roots.len() == 0 {
        Seq::empty()
    } else {
        seq![spec_root_record(o, st, roots.first())] + spec_roots_records(
            o,
            spec_root_state(o, st, roots.first()),
            roots.drop_first(),
        )
    }
}

/// The shared statistics and hard-link-filter state after all walked
/// roots.
pub open spec fn spec_roots_state(o: WalkOptions, st: AggState, roots: Seq<RootWalk>) -> AggState
    decreases roots.len(),
{
    if roots.len() == 0 {
        st
    } else {
        spec_roots_state(o, spec_root_state(o, st, roots.first()), roots.drop_first())
    }
}

/// Each root yields exactly one record, carrying that root's path.
pub proof fn lemma_roots_records_paths(o: WalkOptions, st: AggState, roots: Seq<RootWalk>)
    ensures
        spec_roots_records(o, st, roots).len() == roots.len(),
        forall|i: int|
            0 <= i < roots.len() ==> #[trigger] spec_roots_records(o, st, roots)[i].0
                == roots[i].path,
    decreases roots.len(),
{
    if roots.len() > 0 {
        lemma_roots_records_paths(o, spec_root_state(o, st, roots.first()), roots.drop_first());
        let recs = spec_roots_records(o, st, roots);
        let rest = spec_roots_records(
            o,
            spec_root_state(o, st, roots.first()),
            roots.drop_first(),
        );
        assert forall|i: int| 0 <= i < roots.len() implies #[trigger] recs[i].0
            == roots[i].path by {
            if i == 0 {
                assert(recs[0] == spec_root_record(o, st, roots.first()));
            } else {
                assert(recs[i] == rest[i - 1]);
                assert(roots.drop_first()[i - 1] == roots[i]);
            }
        }
    }
}

/// The initial shared aggregation state: nothing traversed, no inode
/// seen, and the extreme sizes at their sentinels.
pub open spec fn agg_init() -> AggState {
    AggState {
        bytes: 0,
        errors: 0,
        entries: 0,
        largest: 0,
        smallest: u128::MAX as int,
        seen: Set::empty(),
    }
}

/// Aggregate pre-collected root walks: one `(path, bytes, errors)` record
/// per root, exactly as [`spec_root_record`] prescribes — a failed device
/// id yields the zero-byte, one-error record without reading the stream —
/// together with the grand totals (the clipped sums over the records) and
/// the statistics of the threaded fold. The records come back in input
/// order, or stably sorted ascending by bytes when requested; the smallest
/// extreme falls back to 0 when no non-directory entry was counted.
pub fn aggregate_roots(
    walk_options: &WalkOptions,
    sort_by_size_in_bytes: bool,
    input: &Vec<RootWalk>,
) -> (r: (WalkResult, Statistics, Vec<(String, u128, u64)>))
    ensures
        ({
            let recs = spec_roots_records(*walk_options, agg_init(), input@);
            let st1 = spec_roots_state(*walk_options, agg_init(), input@);
            &&& r.0.num_roots == input@.len()
            &&& r.0.total == spec_clip_u128(spec_sum_bytes(recs))
            &&& r.0.num_errors == spec_clip_u64(spec_sum_errors(recs))
            &&& r.1.entries_traversed == st1.entries
            &&& r.1.largest_file_in_bytes == st1.largest
            &&& r.1.smallest_file_in_bytes == (if st1.entries == 0 || st1.smallest > st1.largest {
                0int
            } else {
                st1.smallest
            })
            &&& r.1.smallest_file_in_bytes <= r.1.largest_file_in_bytes
            &&& (!sort_by_size_in_bytes ==> r.2@ == recs)
            &&& (sort_by_size_in_bytes ==> r.2@ == spec_sort_by_bytes(recs))
            &&& (sort_by_size_in_bytes ==> spec_sorted_by_bytes(r.2@))
        }),
{
    let ghost recs_goal = spec_roots_records(*walk_options, agg_init(), input@);
    let ghost st_goal = spec_roots_state(*walk_options, agg_init(), input@);
    let mut res = WalkResult { num_roots: 0, num_errors: 0, total: 0 };
    let mut stats = Statistics {
        entries_traversed: 0,
        smallest_file_in_bytes: u128::MAX,
        largest_file_in_bytes: 0,
    };
    let mut aggregates: Vec<(String, u128, u64)> = Vec::new();
    let mut inodes = InodeFilter::new();

    let mut i: usize = 0;
    proof {
        assert(input@.skip(0) =~= input@);
        lemma_roots_records_paths(*walk_options, agg_init(), input@);
    }
    while i < input.len()
        invariant
            i <= input@.len(),
            res.num_roots == i,
            aggregates@.len() == i as int,
            recs_goal == spec_roots_records(*walk_options, agg_init(), input@),
            st_goal == spec_roots_state(*walk_options, agg_init(), input@),
            recs_goal.len() == input@.len(),
            ({
                let st = AggState {
                    bytes: 0,
                    errors: 0,
                    entries: stats.entries_traversed as int,
                    largest: stats.largest_file_in_bytes as int,
                    smallest: stats.smallest_file_in_bytes as int,
                    seen: inodes@,
                };
                &&& spec_roots_records(*walk_options, st, input@.skip(i as int)) == recs_goal.skip(
                    i as int,
                )
                &&& spec_roots_state(*walk_options, st, input@.skip(i as int)) == st_goal
                &&& aggregates@ == recs_goal.take(i as int)
            }),
            res.total == spec_clip_u128(spec_sum_bytes(aggregates@)),
            res.num_errors == spec_clip_u64(spec_sum_errors(aggregates@)),
        decreases input@.len() - i,
    {
        let ghost st_here = AggState {
            bytes: 0,
            errors: 0,
            entries: stats.entries_traversed as int,
            largest: stats.largest_file_in_bytes as int,
            smallest: stats.smallest_file_in_bytes as int,
            seen: inodes@,
        };
        proof {
            assert(input@.skip(i as int).len() > 0);
            assert(input@.skip(i as int).first() == input@[i as int]);
            assert(input@.skip(i as int).drop_first() =~= input@.skip(i as int + 1));
            let rec_i = spec_root_record(*walk_options, st_here, input@[i as int]);
            let rest = spec_roots_records(
                *walk_options,
                spec_root_state(*walk_options, st_here, input@[i as int]),
                input@.skip(i as int + 1),
            );
            assert(recs_goal.skip(i as int) == seq![rec_i] + rest);
            assert((seq![rec_i] + rest)[0] == rec_i);
            assert((seq![rec_i] + rest).drop_first() =~= rest);
            assert(recs_goal.skip(i as int).drop_first() =~= recs_goal.skip(i as int + 1));
            assert(recs_goal[i as int] == recs_goal.skip(i as int)[0]);
            assert(spec_roots_state(*walk_options, st_here, input@.skip(i as int))
                == spec_roots_state(
                *walk_options,
                spec_root_state(*walk_options, st_here, input@[i as int]),
                input@.skip(i as int + 1),
            ));
        }
        let root = &input[i];
        res.num_roots = res.num_roots + 1;
        let ghost aggs_before = aggregates@;
        match root.device_id {
            Err(_) => {
                res.num_errors = sat_add_u64(res.num_errors, 1);
                aggregates.push((root.path.clone(), 0u128, 1u64));
            },
            Ok(device_id) => {
                let counted = aggregate_entries(
                    walk_options,
                    device_id,
                    &root.entries,
                    &mut inodes,
                    &mut stats,
                );
                let num_bytes: u128 = counted.0;
                let num_errors: u64 = counted.1;
                aggregates.push((root.path.clone(), num_bytes, num_errors));
                res.total = sat_add_u128(res.total, num_bytes);
                res.num_errors = sat_add_u64(res.num_errors, num_errors);
            },
        }
        proof {
            let st_next = AggState {
                bytes: 0,
                errors: 0,
                entries: stats.entries_traversed as int,
                largest: stats.largest_file_in_bytes as int,
                smallest: stats.smallest_file_in_bytes as int,
                seen: inodes@,
            };
            assert(st_next == spec_root_state(*walk_options, st_here, input@[i as int]));
            assert(aggregates@.drop_last() =~= aggs_before);
            assert(aggregates@.last() == recs_goal[i as int]);
            assert(aggregates@ =~= recs_goal.take(i as int + 1));
        }
        i = i + 1;
    }
    proof {
        assert(input@.skip(input@.len() as int) =~= Seq::<RootWalk>::empty());
        assert(recs_goal.skip(input@.len() as int) =~= Seq::<(String, u128, u64)>::empty());
        assert(recs_goal.take(i as int) =~= recs_goal);
    }

    if stats.entries_traversed == 0 || stats.smallest_file_in_bytes > stats.largest_file_in_bytes {
        stats.smallest_file_in_bytes = 0;
    }

    if sort_by_size_in_bytes {
        sort_aggregates_by_size(&mut aggregates);
        proof {
            lemma_sort_by_bytes_sums(recs_goal);
            lemma_sort_by_bytes_len(recs_goal);
        }
    }

    (res, stats, aggregates)
}

/// Aggregate the given root `paths`: resolve each root's device id, walk
/// it through the `walker`, and fold the entries into one
/// `(path, bytes, errors)` record per root.
///
/// The walking shell around [`aggregate_roots`]: it only collects each
/// root's device id and entry snapshots and reports progress through
/// `progress` (at most roughly every 100 milliseconds, after a one-second
/// delay); the records, totals and statistics are exactly those of
/// [`aggregate_roots`] over what the walker yielded. Whatever that was:
/// one record per root comes back, carrying its root's path, in input
/// order unless sorting is requested, in which case the records are the
/// stable ascending-by-bytes permutation of the in-order records; and the
/// grand totals equal the summed records, clipped at the counter width.
pub fn aggregate<W: Walker, P: AggregateProgress>(
    progress: Option<P>,
    walker: &mut W,
    walk_options: &WalkOptions,
    sort_by_size_in_bytes: bool,
    paths: &Vec<String>,
) -> (r: (WalkResult, Statistics, Vec<(String, u128, u64)>))
    ensures
        r.0.num_roots == paths@.len(),
        r.2@.len() == paths@.len(),
        r.0.total == spec_clip_u128(spec_sum_bytes(r.2@)),
        r.0.num_errors == spec_clip_u64(spec_sum_errors(r.2@)),
        r.1.entries_traversed == 0 ==> r.1.smallest_file_in_bytes == 0,
        r.1.smallest_file_in_bytes <= r.1.largest_file_in_bytes,
        !sort_by_size_in_bytes ==> forall|k: int|
            0 <= k < paths@.len() ==> #[trigger] r.2@[k].0 == paths@[k],
        sort_by_size_in_bytes ==> spec_sorted_by_bytes(r.2@),
        sort_by_size_in_bytes ==> exists|pre: Seq<(String, u128, u64)>|
            pre.len() == paths@.len() && (forall|k: int|
                0 <= k < pre.len() ==> #[trigger] pre[k].0 == paths@[k]) && r.2@
                == spec_sort_by_bytes(pre),
{
    let mut progress = progress;
    let mut throttle = Throttle::new(100, Some(1000));
    let mut collected: Vec<RootWalk> = Vec::new();
    let mut seen_entries: u64 = 0;

    let mut i: usize = 0;
    while i < paths.len()
        invariant
            i <= paths@.len(),
            collected@.len() == i as int,
            forall|k: int| 0 <= k < i ==> #[trigger] collected@[k].path == paths@[k],
        decreases paths@.len() - i,
    {
        let path: &String = &paths[i];
        match walker.device_id(path.as_str()) {
            Err(_) => {
                collected.push(
                    RootWalk { path: path.clone(), device_id: Err(IoError), entries: Vec::new() },
                );
            },
            Ok(device_id) => {
                let raw = walker.walk(path.as_str(), device_id);
                let mut items: Vec<Result<EntryRecord, IoError>> = Vec::new();
                let mut k: usize = 0;
                while k < raw.len()
                    decreases raw@.len() - k,
                {
                    let raw_item: &Result<<W as Walker>::E, IoError> = &raw[k];
                    match raw_item {
                        Ok(e) => {
                            items.push(Ok(record_of_entry(e)));
                        },
                        Err(_) => {
                            items.push(Err(IoError));
                        },
                    }
                    seen_entries = sat_add_u64(seen_entries, 1);
                    if throttle.can_update() {
                        if let Some(p) = progress.as_mut() {
                            p.progress(seen_entries);
                        }
                    }
                    k = k + 1;
                }
                if let Some(p) = progress.as_mut() {
                    p.end_of_root();
                }
                collected.push(
                    RootWalk { path: path.clone(), device_id: Ok(device_id), entries: items },
                );
            },
        }
        i = i + 1;
    }

    let result = aggregate_roots(walk_options, sort_by_size_in_bytes, &collected);
    proof {
        lemma_roots_records_paths(*walk_options, agg_init(), collected@);
        let recs = spec_roots_records(*walk_options, agg_init(), collected@);
        if sort_by_size_in_bytes {
            lemma_sort_by_bytes_sums(recs);
            lemma_sort_by_bytes_len(recs);
            assert(recs.len() == paths@.len() && (forall|k: int|
                0 <= k < recs.len() ==> #[trigger] recs[k].0 == paths@[k]) && result.2@
                == spec_sort_by_bytes(recs));
        }
    }
    result
}

} // verus!
