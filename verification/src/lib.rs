//! Server-side core of a live trace visualizer: per-channel event stores with
//! sorted time indexes, windowed queries, render-budget decimation, lane
//! assignment for overlapping ranges, and a compact little-endian wire frame.

pub mod connection;
pub mod decimate;
pub mod frame;
pub mod registry;
pub mod session;
pub mod skipper;
pub mod storage;

use vstd::prelude::*;

verus! {

/// Hard cap on the number of events of one class kept in a single decimated
/// response frame.
pub const MAX_EV_CNT: usize = 50_000;

/// Identifies one event stream of a producer: either a worker thread or an
/// external source.
#[derive(Debug, Clone, Copy, PartialEq, Eq, Structural)]
pub enum ChannelId {
    Thread(u64),
    External(u32),
}

impl ChannelId {
    /// Collapses the tagged id into a single `u64` key: thread ids map to
    /// themselves, external ids are offset into the upper half of the key
    /// space so the two kinds cannot collide for realistic thread ids.
    pub fn general_id(&self) -> (r: u64)
        ensures
            r == match *self {
                ChannelId::Thread(id) => id,
                ChannelId::External(id) => (id + 0x7fff_ffff_ffff_ffffu64) as u64,
            },
    {
        match self {
            ChannelId::Thread(id) => *id,
            ChannelId::External(id) => *id as u64 + 0x7fff_ffff_ffff_ffff,
        }
    }
}

} // verus!
