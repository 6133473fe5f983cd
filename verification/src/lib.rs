//! Core of a live profiling visualizer: a consumer that drains a
//! single-producer/single-consumer shared-memory ring of trace events,
//! reconstructs per-thread call-stack geometry, and keeps a host-side vertex
//! store mirrored into GPU buffers.

use vstd::prelude::*;

pub mod arena;
pub mod event;
pub mod gpu;
pub mod laws;
pub mod ring;
pub mod state;
pub mod sync_vec;
pub mod trace;

verus! {

/// Width of the sliding visibility window, in nanoseconds: data older than
/// this relative to the newest observed timestamp is evicted.
pub const VISIBLE_DURATION: u64 = 1_000_000_000 * 30;

} // verus!
