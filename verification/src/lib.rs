//! A disk-usage analysis engine.
//!
//! Given one or more filesystem roots, the engine walks each tree through an
//! abstract walker, computes per-entry storage sizes (apparent size or size on
//! disk), and produces either a flat per-root summary or a full size-annotated
//! tree. Hard links are counted once, entries on foreign devices can be
//! excluded, and progress is reported through a rate-limited callback.

mod aggregate;
mod common;
pub mod crossdev;
pub mod fs_walk;
pub mod inodefilter;
pub mod refresh;
pub mod traverse;

pub use aggregate::aggregate;
pub use aggregate::aggregate_entries;
pub use aggregate::aggregate_roots;
pub use aggregate::sort_aggregates_by_size;
pub use aggregate::AggregateProgress;
pub use aggregate::Statistics;
pub use common::get_entry_or_panic;
pub use inodefilter::InodeFilter;
pub use common::sat_add_u128;
pub use common::sat_add_u64;
pub use common::Throttle;
pub use common::WalkResult;
