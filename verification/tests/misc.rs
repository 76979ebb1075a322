use dua::fs_walk::ByteFormat;
use dua::sort_aggregates_by_size;
use dua::InodeFilter;
use dua::Throttle;
use dua::WalkResult;

// Sorting by size is a stable ascending permutation: records with equal
// byte counts keep their input order.
#[test]
fn test_sort_is_stable_ascending_permutation() {
    let mut records = vec![
        ("a".to_string(), 5u128, 0u64),
        ("b".to_string(), 3u128, 0u64),
        ("c".to_string(), 5u128, 1u64),
        ("d".to_string(), 1u128, 0u64),
    ];
    sort_aggregates_by_size(&mut records);
    assert_eq!(
        records,
        vec![
            ("d".to_string(), 1u128, 0u64),
            ("b".to_string(), 3u128, 0u64),
            ("a".to_string(), 5u128, 0u64),
            ("c".to_string(), 5u128, 1u64),
        ]
    );
}

#[test]
fn test_inode_filter_deduplicates() {
    let mut filter = InodeFilter::new();
    // more than one link: only the first observation passes
    assert!(filter.add_raw(1, 42, 2));
    assert!(!filter.add_raw(1, 42, 2));
    // a different inode on the same device passes
    assert!(filter.add_raw(1, 43, 2));
    // the same inode on a different device passes
    assert!(filter.add_raw(2, 42, 2));
    // entries with a single link always pass
    assert!(filter.add_raw(1, 44, 1));
    assert!(filter.add_raw(1, 44, 1));
}

#[test]
fn test_byte_format_widths() {
    assert_eq!(ByteFormat::Metric.width(), 10);
    assert_eq!(ByteFormat::Binary.width(), 11);
    assert_eq!(ByteFormat::Bytes.width(), 12);
    assert_eq!(ByteFormat::MB.width(), 12);
    assert_eq!(ByteFormat::MiB.width(), 12);
    assert_eq!(ByteFormat::GB.width(), 10);
    assert_eq!(ByteFormat::GiB.width(), 10);

    assert_eq!(ByteFormat::Metric.total_width(), 13);
    assert_eq!(ByteFormat::Binary.total_width(), 15);
    assert_eq!(ByteFormat::Bytes.total_width(), 14);
    assert_eq!(ByteFormat::MiB.total_width(), 16);
    assert_eq!(ByteFormat::MB.total_width(), 15);
    assert_eq!(ByteFormat::GiB.total_width(), 14);
    assert_eq!(ByteFormat::GB.total_width(), 13);
}

#[test]
fn test_byte_format_display_carries_its_input() {
    let d = ByteFormat::Binary.display(1024);
    assert_eq!(d.format, ByteFormat::Binary);
    assert_eq!(d.bytes, 1024);
}

#[test]
fn test_to_exit_code() {
    let clean = WalkResult { num_roots: 1, num_errors: 0, total: 10 };
    assert_eq!(clean.to_exit_code(), 0);
    let failed = WalkResult { num_roots: 1, num_errors: 3, total: 10 };
    assert_eq!(failed.to_exit_code(), 1);
}

#[test]
fn test_throttle_initial_delay() {
    // no initial delay: the first update is due immediately
    let mut at_once = Throttle::new(0, None);
    assert!(at_once.can_update());

    // a long initial delay: nothing is due yet
    let mut delayed = Throttle::new(1000, Some(3_600_000));
    assert!(!delayed.can_update());
    delayed.throttled(|| panic!("an update ran although none was due"));
}

#[test]
fn test_throttle_runs_when_due() {
    let mut throttle = Throttle::new(3_600_000, None);
    let mut ran = false;
    throttle.throttled(|| {
        ran = true;
    });
    assert!(ran);
    // the next update is a full interval away
    assert!(!throttle.can_update());
}
