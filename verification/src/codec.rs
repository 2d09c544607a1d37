//! Packed-cell codec.
//!
//! A grid cell's ownership state is packed into two 32-bit words: a 4-bit
//! presence mask (one bit per ownership class) and four 14-bit owner-id
//! fields (one per class). This module is the only place that knows the bit
//! layout; everything else reads and writes cells through the accessors here.

use vstd::prelude::*;

verus! {

/// True iff `zone` is the presence bit of exactly one of the four classes.
pub open spec fn valid_zone(zone: u32) -> bool {
    zone == ZonePointData::ZONE1 || zone == ZonePointData::ZONE2
        || zone == ZonePointData::ZONE3 || zone == ZonePointData::ZONE4
}

/// One packed grid cell.
///
/// `zones` holds the 4-bit presence mask in its low bits and the 14-bit owner
/// ids of classes 1 and 2 above it; `bits` holds the owner ids of classes 3
/// and 4. The raw words are public so that specifications elsewhere in the
/// crate can speak about them, but all reading and writing goes through the
/// accessors below.
#[derive(Debug, Clone, Copy, PartialEq, Eq, Structural)]
pub struct ZonePointData {
    /// First 4 bits are the presence mask, then two 14-bit owner ids.
    pub zones: u32,
    /// Two further 14-bit owner ids; the last 4 bits are unused.
    pub bits: u32,
}

/// The packed cell with no class active and every owner field zero.
pub open spec fn empty_cell() -> ZonePointData {
    ZonePointData { zones: 0, bits: 0 }
}

/// `set_zone` as a pure function on packed cells.
pub open spec fn spec_set_zone(c: ZonePointData, zone: u32, active: bool) -> ZonePointData {
    if active {
        ZonePointData { zones: c.zones | zone, bits: c.bits }
    } else {
        ZonePointData { zones: c.zones & !zone, bits: c.bits }
    }
}

/// `set_zone_id` as a pure function on packed cells.
pub open spec fn spec_set_zone_id(c: ZonePointData, zone: u32, id: u32) -> ZonePointData {
    if zone == ZonePointData::ZONE1 {
        ZonePointData { zones: (c.zones & !(ZonePointData::ZONE_ID_MASK << 4)) | (id << 4), bits: c.bits }
    } else if zone == ZonePointData::ZONE2 {
        ZonePointData { zones: (c.zones & !(ZonePointData::ZONE_ID_MASK << 18)) | (id << 18), bits: c.bits }
    } else if zone == ZonePointData::ZONE3 {
        ZonePointData { zones: c.zones, bits: (c.bits & !ZonePointData::ZONE_ID_MASK) | id }
    } else {
        ZonePointData { zones: c.zones, bits: (c.bits & !(ZonePointData::ZONE_ID_MASK << 14)) | (id << 14) }
    }
}

impl ZonePointData {
    /// Presence bit for ownership class 1.
    pub const ZONE1: u32 = 1;

    /// Presence bit for ownership class 2.
    pub const ZONE2: u32 = 2;

    /// Presence bit for ownership class 3.
    pub const ZONE3: u32 = 4;

    /// Presence bit for ownership class 4.
    pub const ZONE4: u32 = 8;

    /// Largest owner id that fits in a 14-bit owner field.
    pub const ZONE_ID_MASK: u32 = 0x3FFF;

    /// Whether the presence bit of `zone` is set.
    pub open spec fn spec_active(self, zone: u32) -> bool {
        self.zones & zone != 0
    }

    /// The 14-bit owner field of `zone`; meaningful only while the presence
    /// bit of `zone` is set.
    pub open spec fn spec_id(self, zone: u32) -> u32 {
        if zone == ZonePointData::ZONE1 {
            (self.zones >> 4) & ZonePointData::ZONE_ID_MASK
        } else if zone == ZonePointData::ZONE2 {
            (self.zones >> 18) & ZonePointData::ZONE_ID_MASK
        } else if zone == ZonePointData::ZONE3 {
            self.bits & ZonePointData::ZONE_ID_MASK
        } else {
            (self.bits >> 14) & ZonePointData::ZONE_ID_MASK
        }
    }

    /// The owner of `zone` as the readers of the raster must interpret it:
    /// the owner field filtered through the presence bit.
    pub open spec fn spec_owner(self, zone: u32) -> Option<u32> {
        if self.spec_active(zone) {
            Some(self.spec_id(zone))
        } else {
            None
        }
    }

    /// A cell with no class active.
    pub fn new() -> (r: Self)
        ensures
            r == empty_cell(),
            forall|z: u32| valid_zone(z) ==> !r.spec_active(z) && r.spec_id(z) == 0,
    {
        proof {
            assert((0u32 & 1 == 0) && (0u32 & 2 == 0) && (0u32 & 4 == 0) && (0u32 & 8 == 0)
                && ((0u32 >> 4) & 0x3FFF == 0) && ((0u32 >> 18) & 0x3FFF == 0)
                && (0u32 & 0x3FFF == 0) && ((0u32 >> 14) & 0x3FFF == 0)) by (bit_vector);
        }
        ZonePointData { zones: 0, bits: 0 }
    }

    /// Set or clear the presence bit of `zone`, leaving every owner field and
    /// every other class's presence bit unchanged.
    pub fn set_zone(&mut self, zone: u32, active: bool)
        requires
            valid_zone(zone),
        ensures
            *final(self) == spec_set_zone(*old(self), zone, active),
            final(self).spec_active(zone) == active,
            forall|z: u32| valid_zone(z) && z != zone ==>
                (#[trigger] final(self).spec_active(z)) == old(self).spec_active(z),
            forall|z: u32| valid_zone(z)
                ==> (#[trigger] final(self).spec_id(z)) == old(self).spec_id(z),
    {
        proof {
            lemma_set_zone(*self, zone, active);
        }
        if active {
            self.zones = self.zones | zone;
        } else {
            self.zones = self.zones & !zone;
        }
    }

    /// Whether `zone` is active at this cell.
    pub fn is_zone_active(&self, zone: u32) -> (r: bool)
        ensures
            r == self.spec_active(zone),
    {
        (self.zones & zone) != 0
    }

    /// The raw 14-bit owner field of `zone`. Callers must consult
    /// `is_zone_active` before giving the value any meaning.
    pub fn get_zone_id(&self, zone: u32) -> (r: u32)
        requires
            valid_zone(zone),
        ensures
            r == self.spec_id(zone),
    {
        if zone == ZonePointData::ZONE1 {
            (self.zones >> 4) & ZonePointData::ZONE_ID_MASK
        } else if zone == ZonePointData::ZONE2 {
            (self.zones >> 18) & ZonePointData::ZONE_ID_MASK
        } else if zone == ZonePointData::ZONE3 {
            self.bits & ZonePointData::ZONE_ID_MASK
        } else {
            (self.bits >> 14) & ZonePointData::ZONE_ID_MASK
        }
    }

    /// Write `id` into the owner field of `zone`, leaving the presence mask
    /// and every other owner field unchanged.
    pub fn set_zone_id(&mut self, zone: u32, id: u32)
        requires
            valid_zone(zone),
            id <= ZonePointData::ZONE_ID_MASK,
        ensures
            *final(self) == spec_set_zone_id(*old(self), zone, id),
            final(self).spec_id(zone) == id,
            forall|z: u32| valid_zone(z) && z != zone ==>
                (#[trigger] final(self).spec_id(z)) == old(self).spec_id(z),
            forall|z: u32| valid_zone(z) ==>
                (#[trigger] final(self).spec_active(z)) == old(self).spec_active(z),
    {
        proof {
            lemma_set_zone_id(*self, zone, id);
        }
        if zone == ZonePointData::ZONE1 {
            self.zones = (self.zones & !(ZonePointData::ZONE_ID_MASK << 4)) | (id << 4);
        } else if zone == ZonePointData::ZONE2 {
            self.zones = (self.zones & !(ZonePointData::ZONE_ID_MASK << 18)) | (id << 18);
        } else if zone == ZonePointData::ZONE3 {
            self.bits = (self.bits & !ZonePointData::ZONE_ID_MASK) | id;
        } else {
            self.bits = (self.bits & !(ZonePointData::ZONE_ID_MASK << 14)) | (id << 14);
        }
    }

    /// The owner of `zone` at this cell, or `None` while `zone` is inactive.
    pub fn owner_of(&self, zone: u32) -> (r: Option<u32>)
        requires
            valid_zone(zone),
        ensures
            r == self.spec_owner(zone),
    {
        if self.is_zone_active(zone) {
            Some(self.get_zone_id(zone))
        } else {
            None
        }
    }

    /// The ownership class assigned to a freshly minted group id: classes are
    /// handed out round-robin over the four presence bits.
    pub fn id_to_zone(id: u32) -> (r: u32)
        ensures
            r == spec_id_to_zone(id),
            valid_zone(r),
    {
        let rem = id % 4;
        if rem == 0 {
            ZonePointData::ZONE1
        } else if rem == 1 {
            ZonePointData::ZONE2
        } else if rem == 2 {
            ZonePointData::ZONE3
        } else {
            ZonePointData::ZONE4
        }
    }
}

/// `id_to_zone` as a pure function.
pub open spec fn spec_id_to_zone(id: u32) -> u32 {
    if id % 4 == 0 {
        ZonePointData::ZONE1
    } else if id % 4 == 1 {
        ZonePointData::ZONE2
    } else if id % 4 == 2 {
        ZonePointData::ZONE3
    } else {
        ZonePointData::ZONE4
    }
}

/// Consecutive ids are never assigned the same ownership class.
pub proof fn lemma_id_to_zone_consecutive(id: u32)
    requires
        id < u32::MAX,
    ensures
        spec_id_to_zone(id) != spec_id_to_zone((id + 1) as u32),
{
}

/// What flipping one presence bit does to the packed words: the chosen
/// class's presence follows `active`, the other classes and all four owner
/// fields keep their values.
pub proof fn lemma_set_zone(c: ZonePointData, zone: u32, active: bool)
    requires
        valid_zone(zone),
    ensures
        spec_set_zone(c, zone, active).spec_active(zone) == active,
        forall|z: u32| valid_zone(z) && z != zone ==>
            (#[trigger] spec_set_zone(c, zone, active).spec_active(z)) == c.spec_active(z),
        forall|z: u32| valid_zone(z) ==>
            (#[trigger] spec_set_zone(c, zone, active).spec_id(z)) == c.spec_id(z),
{
    let oz = c.zones;
    if active {
        let nz = (c.zones | zone) as u32;
        assert((nz & zone != 0)
            && (nz & 1 == oz & 1 || zone == 1) && (nz & 2 == oz & 2 || zone == 2)
            && (nz & 4 == oz & 4 || zone == 4) && (nz & 8 == oz & 8 || zone == 8)
            && ((nz >> 4) & 0x3FFF == (oz >> 4) & 0x3FFF)
            && ((nz >> 18) & 0x3FFF == (oz >> 18) & 0x3FFF)) by (bit_vector)
            requires
                nz == oz | zone,
                zone == 1 || zone == 2 || zone == 4 || zone == 8,
        ;
    } else {
        let nz = (c.zones & !zone) as u32;
        assert((nz & zone == 0)
            && (nz & 1 == oz & 1 || zone == 1) && (nz & 2 == oz & 2 || zone == 2)
            && (nz & 4 == oz & 4 || zone == 4) && (nz & 8 == oz & 8 || zone == 8)
            && ((nz >> 4) & 0x3FFF == (oz >> 4) & 0x3FFF)
            && ((nz >> 18) & 0x3FFF == (oz >> 18) & 0x3FFF)) by (bit_vector)
            requires
                nz == oz & !zone,
                zone == 1 || zone == 2 || zone == 4 || zone == 8,
        ;
    }
}

/// What overwriting one owner field does to the packed words: the chosen
/// class's owner field becomes `id`, the other owner fields and the whole
/// presence mask keep their values.
pub proof fn lemma_set_zone_id(c: ZonePointData, zone: u32, id: u32)
    requires
        valid_zone(zone),
        id <= ZonePointData::ZONE_ID_MASK,
    ensures
        spec_set_zone_id(c, zone, id).spec_id(zone) == id,
        forall|z: u32| valid_zone(z) && z != zone ==>
            (#[trigger] spec_set_zone_id(c, zone, id).spec_id(z)) == c.spec_id(z),
        forall|z: u32| valid_zone(z) ==>
            (#[trigger] spec_set_zone_id(c, zone, id).spec_active(z)) == c.spec_active(z),
{
    let oz = c.zones;
    let ob = c.bits;
    if zone == ZonePointData::ZONE1 {
        let nz = ((c.zones & !(ZonePointData::ZONE_ID_MASK << 4)) | (id << 4)) as u32;
        assert(((nz >> 4) & 0x3FFF == id)
            && ((nz >> 18) & 0x3FFF == (oz >> 18) & 0x3FFF)
            && (nz & 1 == oz & 1) && (nz & 2 == oz & 2)
            && (nz & 4 == oz & 4) && (nz & 8 == oz & 8)) by (bit_vector)
            requires
                nz == (oz & !(0x3FFFu32 << 4)) | (id << 4),
                id <= 0x3FFF,
        ;
    } else if zone == ZonePointData::ZONE2 {
        let nz = ((c.zones & !(ZonePointData::ZONE_ID_MASK << 18)) | (id << 18)) as u32;
        assert(((nz >> 18) & 0x3FFF == id)
            && ((nz >> 4) & 0x3FFF == (oz >> 4) & 0x3FFF)
            && (nz & 1 == oz & 1) && (nz & 2 == oz & 2)
            && (nz & 4 == oz & 4) && (nz & 8 == oz & 8)) by (bit_vector)
            requires
                nz == (oz & !(0x3FFFu32 << 18)) | (id << 18),
                id <= 0x3FFF,
        ;
    } else if zone == ZonePointData::ZONE3 {
        let nb = ((c.bits & !ZonePointData::ZONE_ID_MASK) | id) as u32;
        assert((nb & 0x3FFF == id)
            && ((nb >> 14) & 0x3FFF == (ob >> 14) & 0x3FFF)) by (bit_vector)
            requires
                nb == (ob & !0x3FFFu32) | id,
                id <= 0x3FFF,
        ;
    } else {
        let nb = ((c.bits & !(ZonePointData::ZONE_ID_MASK << 14)) | (id << 14)) as u32;
        assert(((nb >> 14) & 0x3FFF == id)
            && (nb & 0x3FFF == ob & 0x3FFF)) by (bit_vector)
            requires
                nb == (ob & !(0x3FFFu32 << 14)) | (id << 14),
                id <= 0x3FFF,
        ;
    }
}

/// The empty cell has no class active and owner field zero everywhere.
pub proof fn lemma_empty_cell(z: u32)
    requires
        valid_zone(z),
    ensures
        !empty_cell().spec_active(z),
        empty_cell().spec_id(z) == 0,
        empty_cell().spec_owner(z) is None,
{
    assert((0u32 & z == 0) && ((0u32 >> 4) & 0x3FFF == 0) && ((0u32 >> 18) & 0x3FFF == 0)
        && (0u32 & 0x3FFF == 0) && ((0u32 >> 14) & 0x3FFF == 0)) by (bit_vector);
}

/// Codec round trip: activating (or deactivating) a class and writing an
/// owner id is faithfully reported by the read accessors, whatever the cell
/// held before.
pub proof fn lemma_codec_round_trip(c: ZonePointData, zone: u32, id: u32, active: bool)
    requires
        valid_zone(zone),
        1 <= id <= ZonePointData::ZONE_ID_MASK,
    ensures
        spec_set_zone_id(spec_set_zone(c, zone, active), zone, id).spec_active(zone) == active,
        spec_set_zone_id(spec_set_zone(c, zone, active), zone, id).spec_owner(zone)
            == if active { Some(id) } else { None::<u32> },
{
    lemma_set_zone(c, zone, active);
    lemma_set_zone_id(spec_set_zone(c, zone, active), zone, id);
}

} // verus!
