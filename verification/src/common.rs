//! Shared utilities: saturating counter arithmetic, the progress throttle,
//! tree accessors and the overall result of one walk invocation.

use crate::traverse::EntryData;
use crate::traverse::Tree;
use crate::traverse::TreeIndex;
use vstd::prelude::*;

verus! {

/// The data of the tree node behind a valid index.
pub fn get_entry_or_panic(tree: &Tree, node_idx: TreeIndex) -> (r: &EntryData)
    requires
        node_idx < tree.nodes@.len(),
    ensures
        *r == tree.nodes@[node_idx as int].data,
{
    &tree.nodes[node_idx].data
}

/// The size of the tree node behind a valid index.
pub(crate) fn get_size_or_panic(tree: &Tree, node_idx: TreeIndex) -> (r: u128)
    requires
        node_idx < tree.nodes@.len(),
    ensures
        r == tree.nodes@[node_idx as int].data.size,
{
    get_entry_or_panic(tree, node_idx).size
}

/// `x`, clipped to `u64::MAX`.
pub open spec fn spec_clip_u64(x: int) -> int {
    if x > u64::MAX {
        u64::MAX as int
    } else {
        x
    }
}

/// `x`, clipped to `u128::MAX`.
pub open spec fn spec_clip_u128(x: int) -> int {
    if x > u128::MAX {
        u128::MAX as int
    } else {
        x
    }
}

/// `a + b`, clipped to `u64::MAX` instead of overflowing.
pub open spec fn spec_sat_add_u64(a: int, b: int) -> int {
    spec_clip_u64(a + b)
}

/// `a + b`, clipped to `u128::MAX` instead of overflowing.
pub open spec fn spec_sat_add_u128(a: int, b: int) -> int {
    spec_clip_u128(a + b)
}

/// Saturating addition for the error and entry counters: counts stop at the
/// maximum instead of wrapping or panicking.
pub fn sat_add_u64(a: u64, b: u64) -> (r: u64)
    ensures
        r == spec_sat_add_u64(a as int, b as int),
{
    if a <= u64::MAX - b {
        a + b
    } else {
        u64::MAX
    }
}

/// Saturating addition for byte totals.
pub fn sat_add_u128(a: u128, b: u128) -> (r: u128)
    ensures
        r == spec_sat_add_u128(a as int, b as int),
{
    if a <= u128::MAX - b {
        a + b
    } else {
        u128::MAX
    }
}

/// Declares std::time::Instant, so that a clock reading can stand in
/// fields and signatures; the value is opaque.
#[verifier::external_type_specification]
#[verifier::external_body]
pub struct ExInstant(std::time::Instant);

/// Relies on std::time::Instant::now: takes an opaque reading of the
/// monotonic clock. The value depends on the clock, so nothing is promised
/// of it.
#[verifier::external_body]
pub(crate) fn instant_now() -> (r: std::time::Instant) {
    std::time::Instant::now()
}

/// Relies on std::time::Instant::elapsed: the wall time since `start` was
/// taken, converted to milliseconds and truncated to 64 bits. The value
/// depends on the clock, so nothing is promised of it.
#[verifier::external_body]
pub(crate) fn elapsed_millis(start: &std::time::Instant) -> (r: u64) {
    start.elapsed().as_millis() as u64
}

/// Rate-limits how often a progress callback may run: at most roughly once
/// per interval, after an optional initial delay. The limit is approximate,
/// driven by inline readings of the monotonic clock; no exact interval
/// semantics are promised.
#[derive(Debug)]
pub struct Throttle {
    start: std::time::Instant,
    /// Milliseconds that must pass between two updates.
    interval_millis: u64,
    /// Elapsed-milliseconds reading before which no update is due.
    next_due_millis: u64,
}

impl Throttle {
    /// How many milliseconds must pass between two updates.
    pub closed spec fn interval_spec(&self) -> u64 {
        self.interval_millis
    }

    /// A throttle that allows an update every `interval_millis`, the first
    /// one only once `initial_delay_millis` have passed (immediately, if no
    /// delay is given).
    pub fn new(interval_millis: u64, initial_delay_millis: Option<u64>) -> (r: Throttle)
        ensures
            r.interval_spec() == interval_millis,
    {
        let next_due_millis: u64 = match initial_delay_millis {
            Some(d) => d,
            None => 0,
        };
        Throttle { start: instant_now(), interval_millis, next_due_millis }
    }

    /// Run `f` only if an update is currently due.
    pub fn throttled<F: FnOnce()>(&mut self, f: F)
        requires
            f.requires(()),
        ensures
            final(self).interval_spec() == old(self).interval_spec(),
    {
        if self.can_update() {
            f()
        }
    }

    /// Whether enough time has passed since the last update; `true` arms
    /// the next interval. Whether an update is due depends on the clock, so
    /// the result carries no promise beyond the preserved configuration.
    pub fn can_update(&mut self) -> (r: bool)
        ensures
            final(self).interval_spec() == old(self).interval_spec(),
    {
        let elapsed: u64 = elapsed_millis(&self.start);
        if elapsed >= self.next_due_millis {
            self.next_due_millis = sat_add_u64(elapsed, self.interval_millis);
            true
        } else {
            false
        }
    }
}

/// Information gathered during a filesystem walk, accumulated across all
/// roots of one invocation.
#[derive(Debug, Clone, PartialEq, Eq)]
pub struct WalkResult {
    /// The number of root paths that were processed.
    pub num_roots: u64,
    /// The number of io errors encountered while fetching metadata or
    /// reading directory contents.
    pub num_errors: u64,
    /// Total bytes counted across all roots.
    pub total: u128,
}

impl WalkResult {
    /// The process exit code derived from a walk: non-zero exactly when
    /// errors were encountered.
    pub fn to_exit_code(&self) -> (r: i32)
        ensures
            r == if self.num_errors > 0 {
                1int
            } else {
                0int
            },
    {
        if self.num_errors > 0 {
            1
        } else {
            0
        }
    }
}

} // verus!
