//! Deduplication of hard-linked files.
//!
//! A filesystem object with more than one hard link is yielded once per link
//! by a walk, but occupies its storage only once. The filter remembers every
//! `(device id, inode)` pair it has been shown and reports whether a pair is
//! seen for the first time, so that a hard-linked file's size is counted
//! exactly once per invocation.

use std::collections::HashSet;
use vstd::prelude::*;

verus! {

broadcast use vstd::std_specs::hash::group_hash_axioms;

/// A `(device id, inode)` pair packed into a single integer key. Device id
/// occupies the high 64 bits, inode the low 64 bits, so distinct pairs map to
/// distinct keys.
pub open spec fn spec_inode_key(dev: u64, ino: u64) -> u128 {
    (dev * 0x1_0000_0000_0000_0000 + ino) as u128
}

/// Distinct `(device, inode)` pairs produce distinct keys.
pub proof fn lemma_inode_key_injective(dev1: u64, ino1: u64, dev2: u64, ino2: u64)
    ensures
        spec_inode_key(dev1, ino1) == spec_inode_key(dev2, ino2) <==> (dev1 == dev2 && ino1
            == ino2),
{
    if spec_inode_key(dev1, ino1) == spec_inode_key(dev2, ino2) {
        assert(dev1 == dev2 && ino1 == ino2) by (nonlinear_arith)
            requires
                dev1 * 0x1_0000_0000_0000_0000 + ino1 == dev2 * 0x1_0000_0000_0000_0000 + ino2,
                ino1 < 0x1_0000_0000_0000_0000,
                ino2 < 0x1_0000_0000_0000_0000,
        ;
    }
}

/// Whether the filter lets an entry through: entries with at most one link
/// always pass, others pass only if their inode has not been seen yet.
pub open spec fn spec_filter_passes(seen: Set<u128>, dev: u64, ino: u64, nlink: u64) -> bool {
    nlink <= 1 || !seen.contains(spec_inode_key(dev, ino))
}

/// The set of seen inodes after showing one entry to the filter. Only
/// entries with more than one link are remembered.
pub open spec fn spec_filter_add(seen: Set<u128>, dev: u64, ino: u64, nlink: u64) -> Set<u128> {
    if nlink > 1 {
        seen.insert(spec_inode_key(dev, ino))
    } else {
        seen
    }
}

/// The set of `(device, inode)` pairs already observed during one walk
/// invocation. Grows without bound; one instance is scoped to a single
/// invocation.
#[derive(Debug)]
pub struct InodeFilter {
    seen: HashSet<u128>,
}

impl View for InodeFilter {
    type V = Set<u128>;

    closed spec fn view(&self) -> Set<u128> {
        self.seen@
    }
}

impl InodeFilter {
    /// An empty filter: no inode has been seen.
    pub fn new() -> (r: InodeFilter)
        ensures
            r@ == Set::<u128>::empty(),
    {
        InodeFilter { seen: HashSet::new() }
    }

    /// Record one entry and report whether its size should be counted:
    /// `true` the first time a `(dev, ino)` pair is observed, `false` on
    /// subsequent observations. Entries with `nlink <= 1` cannot be hard
    /// linked elsewhere and short-circuit as always-true.
    pub fn add_raw(&mut self, dev: u64, ino: u64, nlink: u64) -> (r: bool)
        ensures
            r == spec_filter_passes(old(self)@, dev, ino, nlink),
            final(self)@ == spec_filter_add(old(self)@, dev, ino, nlink),
    {
        if nlink > 1 {
            let key: u128 = inode_key(dev, ino);
            self.seen.insert(key)
        } else {
            true
        }
    }
}

/// The packed key of a `(device, inode)` pair.
fn inode_key(dev: u64, ino: u64) -> (r: u128)
    ensures
        r == spec_inode_key(dev, ino),
{
    (dev as u128) * 0x1_0000_0000_0000_0000u128 + (ino as u128)
}

} // verus!
