//! A fixed-size memory arena with a first-fit free-list allocator, and a
//! growable byte buffer type built on top of it.
//!
//! The [`arena::Arena`] owns a fixed byte store and a fixed-capacity table of
//! extent descriptors linked in ascending start order. [`buffer::Vec`]
//! values each own one extent of that store and expose append, pop, indexed
//! read/write and view operations bounded by the extent's capacity. All
//! exhaustion and bounds failures are reported as [`Error`] values.

use vstd::prelude::*;

pub mod arena;
pub mod buffer;
pub mod extent;
pub mod laws;

verus! {

/// Total size of the arena's byte store.
pub const ARENA_SIZE: usize = 1_000_000;

/// Number of extent-descriptor slots in the metadata pool: the hard ceiling
/// on simultaneously live buffers.
pub const POOL_SLOTS: usize = 100;

/// Extent size requested by a buffer constructed without an explicit capacity.
pub const DEFAULT_CAPACITY: usize = 100;

/// The failures the allocator and the buffers can report.
#[derive(Clone, Copy, Debug, PartialEq, Eq, Structural)]
pub enum Error {
    /// No free metadata slot remains, or no placement fits within the arena.
    ResourceExhausted,
    /// An index read or write reaches past the buffer's logical length.
    OutOfBounds,
    /// An append would exceed the buffer's fixed capacity.
    CapacityExceeded,
}

} // verus!
