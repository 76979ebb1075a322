//! Detection of filesystem boundaries.
//!
//! Each mounted filesystem has its own device id. An entry whose device id
//! differs from the id of the root it was reached from lies on another
//! mount, and is excluded from the count unless crossing filesystems was
//! requested.

use vstd::prelude::*;

verus! {

/// Whether an entry's device id places it on the same filesystem as the
/// root the walk started from.
pub fn is_same_device_raw(root_device_id: u64, dev: u64) -> (r: bool)
    ensures
        r == (root_device_id == dev),
{
    root_device_id == dev
}

} // verus!
