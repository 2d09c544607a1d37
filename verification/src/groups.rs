//! Groups and their agents.
//!
//! Groups live in an arena of records, each holding the group's id, its zone
//! membership and the ordered list of its agents; agents live in a parallel
//! arena and carry a back-reference to the slot of the group that owns them.
//! Group ids are minted by an explicit monotonic counter and are never reused
//! within one engine's lifetime.

use vstd::prelude::*;

use crate::codec::ZonePointData;
use crate::membership::ZoneComponent;

verus! {

/// A group of agents sharing one zone-ownership claim.
#[derive(Debug, Clone, Copy, PartialEq, Eq, Structural)]
pub struct NanobotGroup {
    /// 14-bit id, unique per live group; 0 is reserved for "no owner".
    pub id: u16,
}

/// One agent, with a back-reference to the arena slot of its owning group.
#[derive(Debug, Clone, Copy, PartialEq, Eq, Structural)]
pub struct Nanobot {
    pub group: usize,
}

/// Monotonic allocator of group ids; ids start at 1 and are never reused.
#[derive(Debug, Clone, Copy, PartialEq, Eq, Structural)]
pub struct GroupIdCounterResource {
    pub count: u16,
}

impl GroupIdCounterResource {
    /// Mint the next group id. Ids beyond the 14-bit range would collide with
    /// the packed owner fields, so the counter must not be exhausted; this is
    /// a documented capacity limit, not a recovered error.
    pub fn next_id(&mut self) -> (id: u16)
        requires
            (old(self).count as u32) < ZonePointData::ZONE_ID_MASK,
        ensures
            final(self).count == old(self).count + 1,
            id == final(self).count,
            1 <= id,
            (id as u32) <= ZonePointData::ZONE_ID_MASK,
    {
        self.count = self.count + 1;
        self.count
    }
}

/// One arena slot: a group record plus a liveness flag. Dead slots stay in
/// place so that agent back-references remain stable.
#[derive(Debug, Clone)]
pub struct GroupRecord {
    pub live: bool,
    pub group: NanobotGroup,
    pub zone: ZoneComponent,
    /// Indices into the agent arena, in insertion order.
    pub members: Vec<usize>,
}

impl GroupRecord {
    /// The record's own shape is sane; liveness-dependent facts live in the
    /// engine's well-formedness predicate.
    pub open spec fn wf(self) -> bool {
        &&& self.zone.wf()
        &&& self.members@.no_duplicates()
    }
}

} // verus!
