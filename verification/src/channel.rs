//! Zone change channel.
//!
//! The single funnel for raster mutation: producers (painting, merging,
//! splitting, despawning) append ownership deltas here, and the synchronizer
//! drains the queue once per tick in enqueue order. Appending never fails and
//! entries are never reordered or coalesced.

use vstd::prelude::*;

use crate::grid::GridPoint;

verus! {

/// Whether a delta claims or releases a coordinate.
#[derive(Debug, Clone, Copy, PartialEq, Eq, Structural)]
pub enum ZoneChangedKind {
    PointAdded,
    PointRemoved,
}

/// One ownership delta: claim or release `point` in class `zone_color` on
/// behalf of the group `zone_id`.
#[derive(Debug, Clone, Copy, PartialEq, Eq, Structural)]
pub struct ZoneChangedEvent {
    pub point: GridPoint,
    /// Presence bit of the class the delta applies to.
    pub zone_color: u32,
    /// Id of the group the delta is on behalf of; only the first 14 bits are
    /// used.
    pub zone_id: u32,
    pub kind: ZoneChangedKind,
}

/// The ordered queue of pending deltas.
#[derive(Debug, Clone)]
pub struct ZoneChangeChannel {
    pub events: Vec<ZoneChangedEvent>,
}

impl ZoneChangeChannel {
    /// An empty queue.
    pub fn new() -> (r: ZoneChangeChannel)
        ensures
            r.events@ == Seq::<ZoneChangedEvent>::empty(),
    {
        ZoneChangeChannel { events: Vec::new() }
    }

    /// Append one delta; never blocks, never fails, never reorders.
    pub fn enqueue(&mut self, ev: ZoneChangedEvent)
        ensures
            final(self).events@ == old(self).events@.push(ev),
    {
        self.events.push(ev);
    }

    /// How many deltas are pending.
    pub fn len(&self) -> (r: usize)
        ensures
            r == self.events@.len(),
    {
        self.events.len()
    }
}

} // verus!
