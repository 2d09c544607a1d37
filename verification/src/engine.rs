//! The zone engine: shared raster, group arena, change channel and the grid
//! synchronizer.
//!
//! All grid mutation flows through the change channel and is applied by
//! `drain_and_apply`, the single writer of the raster, exactly once per tick.
//! The engine's well-formedness predicate ties the raster, the memberships
//! and the pending queue together; every public operation preserves it.

use vstd::prelude::*;

use crate::channel::ZoneChangeChannel;
use crate::channel::ZoneChangedEvent;
use crate::channel::ZoneChangedKind;
use crate::codec::ZonePointData;
use crate::codec::valid_zone;
use crate::grid::GridPoint;
use crate::grid::ZoneMaterial;
use crate::grid::in_world_bounds;
use crate::groups::GroupIdCounterResource;
use crate::groups::GroupRecord;
use crate::groups::Nanobot;
use crate::model::ZoneModel;
use crate::model::covered;
use crate::model::evs_ok;
use crate::model::model_wf;

verus! {

/// What one drain logged: ownership conflicts, deltas skipped for being out
/// of bounds, and `Add` deltas skipped for naming no live group of their
/// class.
#[derive(Debug, Clone, Copy, PartialEq, Eq, Structural)]
pub struct SyncStats {
    pub conflicts: usize,
    pub bounds_skips: usize,
    pub unknown_skips: usize,
}

/// The zone-ownership engine.
pub struct ZoneEngine {
    pub grid: ZoneMaterial,
    pub groups: Vec<GroupRecord>,
    pub bots: Vec<Nanobot>,
    pub id_counter: GroupIdCounterResource,
    pub channel: ZoneChangeChannel,
}

impl ZoneEngine {
    /// Whether arena slot `j` holds a live group.
    pub open spec fn live_at(self, j: int) -> bool {
        0 <= j < self.groups@.len() && self.groups@[j].live
    }

    /// Whether some live group carries `id`.
    pub open spec fn has_live_id(self, id: u16) -> bool {
        exists|j: int| self.live_at(j) && (#[trigger] self.groups@[j]).group.id == id
    }

    /// The arena slot of the live group carrying `id`; meaningful only while
    /// `has_live_id(id)` holds and ids are unique.
    pub open spec fn slot_of(self, id: u16) -> int {
        choose|j: int| self.live_at(j) && (#[trigger] self.groups@[j]).group.id == id
    }

    /// No two live slots carry the same id.
    pub open spec fn unique_ids(self) -> bool {
        forall|j: int, k: int|
            self.live_at(j) && self.live_at(k) && j != k
                ==> (#[trigger] self.groups@[j]).group.id != (#[trigger] self.groups@[k]).group.id
    }

    /// The abstract state of the raster and the live memberships.
    pub open spec fn model(self) -> ZoneModel {
        ZoneModel {
            width: self.grid.width,
            height: self.grid.height,
            cells: Map::new(
                |k: (GridPoint, u32)|
                    in_world_bounds(k.0, self.grid.width, self.grid.height) && valid_zone(k.1),
                |k: (GridPoint, u32)| self.grid.world_cell(k.0).spec_owner(k.1),
            ),
            points: Map::new(
                |id: u16| self.has_live_id(id),
                |id: u16| self.groups@[self.slot_of(id)].zone.points(),
            ),
            classes: Map::new(
                |id: u16| self.has_live_id(id),
                |id: u16| self.groups@[self.slot_of(id)].zone.zone_color,
            ),
        }
    }

    /// Every owner the raster records was minted by the id counter, so a
    /// freshly minted id is recorded nowhere.
    pub open spec fn owners_bounded(self) -> bool {
        forall|k: (GridPoint, u32)|
            self.model().cells.dom().contains(k)
                ==> ((#[trigger] self.model().cells[k]) matches Some(o)
                    ==> o <= self.id_counter.count as u32)
    }

    /// Well-formedness apart from the pending queue: the raster buffer is
    /// sized, live ids are unique, minted and 14-bit, agent back-references
    /// match the member lists, and the abstract state is well-formed (in
    /// particular, every membership is granted by the raster).
    pub open spec fn wf_core(self) -> bool {
        &&& self.grid.wf()
        &&& self.unique_ids()
        &&& forall|j: int| 0 <= j < self.groups@.len() ==> (#[trigger] self.groups@[j]).wf()
        &&& forall|j: int| self.live_at(j)
            ==> 1 <= (#[trigger] self.groups@[j]).group.id
                && (self.groups@[j].group.id as u32) <= ZonePointData::ZONE_ID_MASK
                && self.groups@[j].group.id <= self.id_counter.count
        &&& forall|j: int, k: int|
            self.live_at(j) && 0 <= k < self.groups@[j].members@.len()
                ==> (#[trigger] self.groups@[j].members@[k]) < self.bots@.len()
                    && self.bots@[self.groups@[j].members@[k] as int].group == j
        &&& self.owners_bounded()
        &&& model_wf(self.model())
    }

    /// Full well-formedness: additionally, every stale raster entry has a
    /// pending release in the queue, and every queued delta names a valid
    /// class and a 14-bit id.
    pub open spec fn wf(self) -> bool {
        &&& self.wf_core()
        &&& covered(self.model(), self.channel.events@)
        &&& evs_ok(self.channel.events@)
    }

    /// With unique ids, `slot_of` recovers the slot of any live group.
    pub proof fn lemma_slot_of(self, j: int)
        requires
            self.unique_ids(),
            self.live_at(j),
        ensures
            self.slot_of(self.groups@[j].group.id) == j,
            self.has_live_id(self.groups@[j].group.id),
    {
        let id = self.groups@[j].group.id;
        assert(self.has_live_id(id));
        let j2 = self.slot_of(id);
        assert(self.live_at(j2) && self.groups@[j2].group.id == id);
    }

    /// An engine with an empty raster, no groups, no agents and no pending
    /// deltas.
    pub fn new(width: u32, height: u32) -> (r: ZoneEngine)
        requires
            (width as int) * (height as int) <= u32::MAX as int,
        ensures
            r.wf(),
            r.grid.width == width,
            r.grid.height == height,
            r.channel.events@.len() == 0,
            r.groups@.len() == 0,
            r.bots@.len() == 0,
            r.id_counter.count == 0,
            forall|k: (GridPoint, u32)|
                r.model().cells.dom().contains(k) ==> (#[trigger] r.model().cells[k]) is None,
            r.model().points.dom() == Set::<u16>::empty(),
    {
        let r = ZoneEngine {
            grid: ZoneMaterial::new(width, height),
            groups: Vec::new(),
            bots: Vec::new(),
            id_counter: GroupIdCounterResource { count: 0 },
            channel: ZoneChangeChannel::new(),
        };
        proof {
            let m = r.model();
            assert forall|k: (GridPoint, u32)| m.cells.dom().contains(k)
                implies (#[trigger] m.cells[k]) is None by {
                crate::grid::lemma_world_index_in_range(r.grid, k.0);
                assert(r.grid.world_cell(k.0) == crate::codec::empty_cell());
                crate::codec::lemma_empty_cell(k.1);
            }
            assert(m.points.dom() =~= Set::<u16>::empty());
            assert(m.classes.dom() =~= Set::<u16>::empty());
        }
        r
    }

    /// The arena slot of the live group with this id and class, if any.
    fn find_live_group(&self, zone_id: u32, zone_color: u32) -> (r: Option<usize>)
        ensures
            r matches Some(j) ==> self.live_at(j as int)
                && (self.groups@[j as int].group.id as u32) == zone_id
                && self.groups@[j as int].zone.zone_color == zone_color,
            r is None ==> forall|j: int| self.live_at(j)
                ==> !(((#[trigger] self.groups@[j]).group.id as u32) == zone_id
                    && self.groups@[j].zone.zone_color == zone_color),
    {
        let mut j: usize = 0;
        while j < self.groups.len()
            invariant
                0 <= j <= self.groups@.len(),
                forall|l: int| 0 <= l < j && self.live_at(l)
                    ==> !(((#[trigger] self.groups@[l]).group.id as u32) == zone_id
                        && self.groups@[l].zone.zone_color == zone_color),
            decreases self.groups@.len() - j,
        {
            let rec = &self.groups[j];
            if rec.live && rec.group.id as u32 == zone_id && rec.zone.zone_color == zone_color {
                return Some(j);
            }
            j = j + 1;
        }
        None
    }

    /// The abstract state reads only the raster and the group arena, never
    /// the queue, the agents or the counter.
    pub proof fn lemma_model_ignores_channel(self, other: ZoneEngine)
        requires
            self.unique_ids(),
            other.grid == self.grid,
            other.groups == self.groups,
        ensures
            other.model() == self.model(),
    {
        self.lemma_same_live_structure(other);
        let a = self.model();
        let b = other.model();
        assert(a.cells =~= b.cells);
        assert(a.points.dom() =~= b.points.dom());
        assert forall|id: u16| #[trigger] a.points.dom().contains(id)
            implies a.points[id] == b.points[id] && a.classes[id] == b.classes[id] by {
            assert(self.has_live_id(id));
            assert(other.slot_of(id) == self.slot_of(id));
        }
        assert(a.points =~= b.points);
        assert(a.classes.dom() =~= b.classes.dom());
        assert(a.classes =~= b.classes);
    }

    /// Two engines with the same arena length, liveness and ids agree on
    /// which ids are live and where they sit.
    pub proof fn lemma_same_live_structure(self, other: ZoneEngine)
        requires
            self.unique_ids(),
            other.groups@.len() == self.groups@.len(),
            forall|l: int| 0 <= l < self.groups@.len()
                ==> (#[trigger] other.groups@[l]).live == self.groups@[l].live
                    && other.groups@[l].group == self.groups@[l].group,
        ensures
            other.unique_ids(),
            forall|id: u16| self.has_live_id(id) == other.has_live_id(id),
            forall|id: u16| #[trigger] self.has_live_id(id)
                ==> other.slot_of(id) == self.slot_of(id)
                    && self.live_at(self.slot_of(id))
                    && self.groups@[self.slot_of(id)].group.id == id,
    {
        assert forall|id: u16| self.has_live_id(id) == other.has_live_id(id) by {
            if self.has_live_id(id) {
                let j = choose|j: int|
                    self.live_at(j) && (#[trigger] self.groups@[j]).group.id == id;
                assert(other.live_at(j) && other.groups@[j].group.id == id);
            }
            if other.has_live_id(id) {
                let j = choose|j: int|
                    other.live_at(j) && (#[trigger] other.groups@[j]).group.id == id;
                assert(self.live_at(j) && self.groups@[j].group.id == id);
            }
        }
        assert forall|id: u16| #[trigger] self.has_live_id(id)
            implies other.slot_of(id) == self.slot_of(id)
                && self.live_at(self.slot_of(id))
                && self.groups@[self.slot_of(id)].group.id == id by {
            let j = self.slot_of(id);
            assert(self.live_at(j) && self.groups@[j].group.id == id);
            assert(other.live_at(j) && other.groups@[j].group.id == id);
            other.lemma_slot_of(j);
        }
    }

    /// Claim `p` in the membership of the group in slot `j`; everything else
    /// is untouched.
    fn group_insert_point(&mut self, j: usize, p: GridPoint)
        requires
            j < old(self).groups@.len(),
            old(self).groups@[j as int].zone.wf(),
        ensures
            final(self).groups@.len() == old(self).groups@.len(),
            forall|l: int| 0 <= l < old(self).groups@.len() && l != j
                ==> final(self).groups@[l] == old(self).groups@[l],
            final(self).groups@[j as int].live == old(self).groups@[j as int].live,
            final(self).groups@[j as int].group == old(self).groups@[j as int].group,
            final(self).groups@[j as int].members == old(self).groups@[j as int].members,
            final(self).groups@[j as int].zone.wf(),
            final(self).groups@[j as int].zone.zone_color
                == old(self).groups@[j as int].zone.zone_color,
            final(self).groups@[j as int].zone.points()
                == old(self).groups@[j as int].zone.points().insert(p),
            final(self).grid == old(self).grid,
            final(self).bots == old(self).bots,
            final(self).id_counter == old(self).id_counter,
            final(self).channel == old(self).channel,
    {
        let rec = &mut self.groups[j];
        rec.zone.insert_point(p);
    }

    /// Release `p` from the membership of the group in slot `j`; everything
    /// else is untouched.
    fn group_remove_point(&mut self, j: usize, p: GridPoint)
        requires
            j < old(self).groups@.len(),
            old(self).groups@[j as int].zone.wf(),
        ensures
            final(self).groups@.len() == old(self).groups@.len(),
            forall|l: int| 0 <= l < old(self).groups@.len() && l != j
                ==> final(self).groups@[l] == old(self).groups@[l],
            final(self).groups@[j as int].live == old(self).groups@[j as int].live,
            final(self).groups@[j as int].group == old(self).groups@[j as int].group,
            final(self).groups@[j as int].members == old(self).groups@[j as int].members,
            final(self).groups@[j as int].zone.wf(),
            final(self).groups@[j as int].zone.zone_color
                == old(self).groups@[j as int].zone.zone_color,
            final(self).groups@[j as int].zone.points()
                == old(self).groups@[j as int].zone.points().remove(p),
            final(self).grid == old(self).grid,
            final(self).bots == old(self).bots,
            final(self).id_counter == old(self).id_counter,
            final(self).channel == old(self).channel,
    {
        let rec = &mut self.groups[j];
        rec.zone.remove_point(p);
    }

    /// The memberships after a delta at `(p0, z0)` strips the recorded
    /// previous owner, unless that owner is `keep` itself.
    pub open spec fn spec_stripped(
        mo: ZoneModel,
        p0: GridPoint,
        z0: u32,
        keep: u32,
    ) -> Map<u16, Set<GridPoint>> {
        if mo.cells[(p0, z0)] matches Some(o) && o != keep {
            crate::model::strip_prev_owner(mo, p0, z0)
        } else {
            mo.points
        }
    }

    /// If the cell at `(p0, z0)` records an owner other than `keep` and that
    /// owner is a live group of class `z0`, release `p0` from its
    /// membership. Touches nothing else.
    fn strip_owner(&mut self, p0: GridPoint, z0: u32, keep: u32, Ghost(mo): Ghost<ZoneModel>)
        requires
            old(self).wf_core(),
            valid_zone(z0),
            mo == old(self).model(),
            in_world_bounds(p0, mo.width, mo.height),
        ensures
            final(self).groups@.len() == old(self).groups@.len(),
            forall|l: int| 0 <= l < old(self).groups@.len()
                ==> (#[trigger] final(self).groups@[l]).live == old(self).groups@[l].live
                    && final(self).groups@[l].group == old(self).groups@[l].group
                    && final(self).groups@[l].members == old(self).groups@[l].members
                    && final(self).groups@[l].zone.zone_color
                        == old(self).groups@[l].zone.zone_color,
            forall|l: int| 0 <= l < old(self).groups@.len()
                ==> (#[trigger] final(self).groups@[l]).wf(),
            forall|id: u16| #[trigger] old(self).has_live_id(id)
                ==> final(self).groups@[old(self).slot_of(id)].zone.points()
                    == Self::spec_stripped(mo, p0, z0, keep)[id],
            final(self).grid == old(self).grid,
            final(self).bots == old(self).bots,
            final(self).id_counter == old(self).id_counter,
            final(self).channel == old(self).channel,
    {
        proof {
            assert(mo.cells.dom().contains((p0, z0)));
        }
        let cell = match self.grid.get(p0) {
            Some(c) => c,
            None => vstd::pervasive::unreached(),
        };
        proof {
            assert(mo.cells[(p0, z0)] == cell.spec_owner(z0));
        }
        if cell.is_zone_active(z0) {
            let o = cell.get_zone_id(z0);
            proof {
                assert(mo.cells[(p0, z0)] == Some(o));
                assert(1 <= o <= ZonePointData::ZONE_ID_MASK);
                assert(((o as u16) as u32) == o);
            }
            if o != keep {
                match self.find_live_group(o, z0) {
                    Some(oj) => {
                        proof {
                            assert(self.groups@[oj as int].group.id == o as u16);
                            self.lemma_slot_of(oj as int);
                            assert(crate::model::strip_prev_owner(mo, p0, z0)
                                == mo.points.insert(
                                    o as u16,
                                    mo.points[o as u16].remove(p0),
                                ));
                        }
                        let ghost pre = *self;
                        self.group_remove_point(oj, p0);
                        proof {
                            assert forall|id: u16| #[trigger] pre.has_live_id(id)
                                implies self.groups@[pre.slot_of(id)].zone.points()
                                    == Self::spec_stripped(mo, p0, z0, keep)[id] by {
                                let sj = pre.slot_of(id);
                                assert(pre.live_at(sj) && pre.groups@[sj].group.id == id);
                                if id == o as u16 {
                                    assert(sj == oj as int);
                                } else {
                                    assert(sj != oj as int);
                                    assert(self.groups@[sj] == pre.groups@[sj]);
                                }
                            }
                        }
                    },
                    None => {
                        proof {
                            let ou = o as u16;
                            if mo.live(ou) && mo.classes[ou] == z0 {
                                assert(self.has_live_id(ou));
                                let oj = self.slot_of(ou);
                                assert(self.live_at(oj) && self.groups@[oj].group.id == ou);
                                assert(self.groups@[oj].zone.zone_color == z0);
                                assert(false);
                            }
                            assert(crate::model::strip_prev_owner(mo, p0, z0) == mo.points);
                            assert forall|id: u16| #[trigger] self.has_live_id(id)
                                implies self.groups@[self.slot_of(id)].zone.points()
                                    == Self::spec_stripped(mo, p0, z0, keep)[id] by {
                                let sj = self.slot_of(id);
                                assert(self.live_at(sj) && self.groups@[sj].group.id == id);
                            }
                        }
                    },
                }
            } else {
                proof {
                    assert forall|id: u16| #[trigger] self.has_live_id(id)
                        implies self.groups@[self.slot_of(id)].zone.points()
                            == Self::spec_stripped(mo, p0, z0, keep)[id] by {
                        let sj = self.slot_of(id);
                        assert(self.live_at(sj) && self.groups@[sj].group.id == id);
                    }
                }
            }
        } else {
            proof {
                assert(mo.cells[(p0, z0)] is None);
                assert forall|id: u16| #[trigger] self.has_live_id(id)
                    implies self.groups@[self.slot_of(id)].zone.points()
                        == Self::spec_stripped(mo, p0, z0, keep)[id] by {
                    let sj = self.slot_of(id);
                    assert(self.live_at(sj) && self.groups@[sj].group.id == id);
                }
            }
        }
    }

    /// Apply one delta to the raster and the memberships, following `step`
    /// exactly. Returns whether the delta logged a conflict, a bounds skip,
    /// or an unknown-group skip.
    fn apply_event(&mut self, ev: ZoneChangedEvent) -> (r: (bool, bool, bool))
        requires
            old(self).wf_core(),
            valid_zone(ev.zone_color),
            ev.zone_id <= ZonePointData::ZONE_ID_MASK,
        ensures
            final(self).wf_core(),
            final(self).model() == crate::model::step(old(self).model(), ev),
            r.0 == crate::model::is_conflict(old(self).model(), ev),
            r.1 == crate::model::is_bounds_skip(old(self).model(), ev),
            r.2 == crate::model::is_unknown_skip(old(self).model(), ev),
            final(self).groups@.len() == old(self).groups@.len(),
            forall|l: int| 0 <= l < old(self).groups@.len()
                ==> (#[trigger] final(self).groups@[l]).live == old(self).groups@[l].live
                    && final(self).groups@[l].group == old(self).groups@[l].group
                    && final(self).groups@[l].members == old(self).groups@[l].members
                    && final(self).groups@[l].zone.zone_color
                        == old(self).groups@[l].zone.zone_color,
            final(self).bots == old(self).bots,
            final(self).id_counter == old(self).id_counter,
            final(self).channel == old(self).channel,
            final(self).grid.width == old(self).grid.width,
            final(self).grid.height == old(self).grid.height,
    {
        let ghost mo = old(self).model();
        let ghost st = crate::model::step(mo, ev);
        let p0 = ev.point;
        let z0 = ev.zone_color;
        let in_bounds = match self.grid.get(p0) {
            Some(_) => true,
            None => false,
        };
        if !in_bounds {
            proof {
                assert(!in_world_bounds(p0, mo.width, mo.height));
                assert(st == mo);
            }
            return (false, true, false);
        }
        proof {
            assert(in_world_bounds(p0, mo.width, mo.height));
            assert(mo.cells.dom().contains((p0, z0)));
        }
        match ev.kind {
            ZoneChangedKind::PointAdded => {
                match self.find_live_group(ev.zone_id, z0) {
                    None => {
                        proof {
                            assert(!mo.add_applies(ev)) by {
                                if mo.add_applies(ev) {
                                    let g = ev.zone_id as u16;
                                    assert(mo.points.dom().contains(g));
                                    assert(self.has_live_id(g));
                                    let sj = self.slot_of(g);
                                    assert(self.live_at(sj)
                                        && self.groups@[sj].group.id == g);
                                    assert(mo.classes[g]
                                        == self.groups@[sj].zone.zone_color);
                                    assert((self.groups@[sj].group.id as u32)
                                        == ev.zone_id);
                                }
                            }
                            assert(st == mo);
                        }
                        (false, false, true)
                    },
                    Some(j) => {
                        let ghost g = ev.zone_id as u16;
                        let ghost pre = *self;
                        proof {
                            assert(((g as u32)) == ev.zone_id);
                            assert(self.groups@[j as int].group.id == g);
                            self.lemma_slot_of(j as int);
                            assert(mo.points.dom().contains(g));
                            assert(mo.classes[g] == z0);
                            assert(mo.add_applies(ev));
                            assert(mo.points[g] == self.groups@[j as int].zone.points());
                        }
                        let cell = match self.grid.get(p0) {
                            Some(c) => c,
                            None => vstd::pervasive::unreached(),
                        };
                        proof {
                            assert(mo.cells[(p0, z0)] == cell.spec_owner(z0));
                        }
                        let mut conflict = false;
                        if cell.is_zone_active(z0) {
                            if cell.get_zone_id(z0) != ev.zone_id {
                                conflict = true;
                            }
                        }
                        self.strip_owner(p0, z0, ev.zone_id, Ghost(mo));
                        let ghost mid = *self;
                        proof {
                            pre.lemma_same_live_structure(mid);
                            assert(mid.slot_of(g) == j as int);
                            assert(mid.groups@[j as int].zone.points()
                                == Self::spec_stripped(mo, p0, z0, ev.zone_id)[g]);
                        }
                        let mut c = cell;
                        c.set_zone(z0, true);
                        c.set_zone_id(z0, ev.zone_id);
                        self.grid.put(p0, c);
                        self.group_insert_point(j, p0);
                        proof {
                            let stripped = Self::spec_stripped(mo, p0, z0, ev.zone_id);
                            let mn = self.model();
                            pre.lemma_same_live_structure(*self);
                            assert(st.cells == mo.cells.insert((p0, z0), Some(ev.zone_id)));
                            assert(st.points == stripped.insert(g, stripped[g].insert(p0)));
                            assert forall|k: (GridPoint, u32)|
                                #[trigger] mn.cells.dom().contains(k)
                                implies mn.cells[k] == st.cells[k] by {
                                let q = k.0;
                                let z = k.1;
                                crate::grid::lemma_world_index_in_range(pre.grid, p0);
                                if q == p0 {
                                    assert(self.grid.world_cell(q) == c);
                                    if z == z0 {
                                        assert(c.spec_owner(z0) == Some(ev.zone_id));
                                    } else {
                                        assert(c.spec_owner(z) == cell.spec_owner(z));
                                        assert(mn.cells[k] == mo.cells[k]);
                                    }
                                } else {
                                    crate::grid::lemma_world_index_injective(pre.grid, q, p0);
                                    assert(self.grid.world_cell(q) == pre.grid.world_cell(q));
                                }
                            }
                            assert(mn.cells =~= st.cells);
                            assert forall|id: u16| #[trigger] mn.points.dom().contains(id)
                                implies mn.points[id] == st.points[id] by {
                                assert(pre.has_live_id(id));
                                let sj = pre.slot_of(id);
                                assert(self.slot_of(id) == sj);
                                assert(mn.points[id] == self.groups@[sj].zone.points());
                                if id == g {
                                    assert(sj == j as int);
                                    assert(self.groups@[sj].zone.points()
                                        == mid.groups@[j as int].zone.points().insert(p0));
                                } else {
                                    assert(sj != j as int);
                                    assert(self.groups@[sj] == mid.groups@[sj]);
                                    assert(mid.groups@[sj].zone.points() == stripped[id]);
                                    assert(st.points[id] == stripped[id]);
                                }
                            }
                            assert(mn.points.dom() =~= st.points.dom());
                            assert(mn.points =~= st.points);
                            assert forall|id: u16| #[trigger] mn.classes.dom().contains(id)
                                implies mn.classes[id] == st.classes[id] by {
                                assert(pre.has_live_id(id));
                                let sj = pre.slot_of(id);
                                assert(self.slot_of(id) == sj);
                                assert(self.groups@[sj].zone.zone_color
                                    == pre.groups@[sj].zone.zone_color);
                            }
                            assert(mn.classes.dom() =~= st.classes.dom());
                            assert(mn.classes =~= st.classes);
                            crate::model::lemma_step_structure(mo, ev);
                            assert(mn == st);
                            self.lemma_wf_core_after_step(pre, ev, mo);
                            assert(crate::model::is_conflict(mo, ev) == conflict);
                        }
                        (conflict, false, false)
                    },
                }
            },
            ZoneChangedKind::PointRemoved => {
                let ghost pre = *self;
                let cell = match self.grid.get(p0) {
                    Some(c) => c,
                    None => vstd::pervasive::unreached(),
                };
                proof {
                    assert(mo.cells[(p0, z0)] == cell.spec_owner(z0));
                }
                self.strip_owner(p0, z0, 0, Ghost(mo));
                proof {
                    assert(Self::spec_stripped(mo, p0, z0, 0)
                        == crate::model::strip_prev_owner(mo, p0, z0)) by {
                        match mo.cells[(p0, z0)] {
                            Some(o) => {
                                assert(1 <= o <= ZonePointData::ZONE_ID_MASK);
                            },
                            None => {},
                        }
                    }
                }
                let mut c = cell;
                c.set_zone(z0, false);
                c.set_zone_id(z0, 0);
                self.grid.put(p0, c);
                proof {
                    let mn = self.model();
                    pre.lemma_same_live_structure(*self);
                    assert(st.cells == mo.cells.insert((p0, z0), None::<u32>));
                    assert(st.points == crate::model::strip_prev_owner(mo, p0, z0));
                    assert forall|k: (GridPoint, u32)| #[trigger] mn.cells.dom().contains(k)
                        implies mn.cells[k] == st.cells[k] by {
                        let q = k.0;
                        let z = k.1;
                        crate::grid::lemma_world_index_in_range(pre.grid, p0);
                        if q == p0 {
                            assert(self.grid.world_cell(q) == c);
                            if z == z0 {
                                assert(!c.spec_active(z0));
                            } else {
                                assert(c.spec_owner(z) == cell.spec_owner(z));
                                assert(mn.cells[k] == mo.cells[k]);
                            }
                        } else {
                            crate::grid::lemma_world_index_injective(pre.grid, q, p0);
                            assert(self.grid.world_cell(q) == pre.grid.world_cell(q));
                        }
                    }
                    assert(mn.cells =~= st.cells);
                    assert forall|id: u16| #[trigger] mn.points.dom().contains(id)
                        implies mn.points[id] == st.points[id] by {
                        assert(pre.has_live_id(id));
                        let sj = pre.slot_of(id);
                        assert(self.slot_of(id) == sj);
                        assert(mn.points[id] == self.groups@[sj].zone.points());
                        assert(self.groups@[sj].zone.points()
                            == Self::spec_stripped(mo, p0, z0, 0)[id]);
                    }
                    assert(mn.points.dom() =~= st.points.dom());
                    assert(mn.points =~= st.points);
                    assert forall|id: u16| #[trigger] mn.classes.dom().contains(id)
                        implies mn.classes[id] == st.classes[id] by {
                        assert(pre.has_live_id(id));
                        let sj = pre.slot_of(id);
                        assert(self.slot_of(id) == sj);
                        assert(self.groups@[sj].zone.zone_color
                            == pre.groups@[sj].zone.zone_color);
                    }
                    assert(mn.classes.dom() =~= st.classes.dom());
                    assert(mn.classes =~= st.classes);
                    crate::model::lemma_step_structure(mo, ev);
                    assert(mn == st);
                    self.lemma_wf_core_after_step(pre, ev, mo);
                }
                (false, false, false)
            },
        }
    }

    /// Re-establish `wf_core` after an applied delta: the abstract state is
    /// well-formed by `lemma_step_preserves`, and every newly recorded owner
    /// is a live group, so owners stay bounded by the id counter.
    proof fn lemma_wf_core_after_step(self, pre: ZoneEngine, ev: ZoneChangedEvent, mo: ZoneModel)
        requires
            pre.wf_core(),
            mo == pre.model(),
            self.model() == crate::model::step(mo, ev),
            self.grid.wf(),
            self.unique_ids(),
            forall|j: int| 0 <= j < self.groups@.len() ==> (#[trigger] self.groups@[j]).wf(),
            self.groups@.len() == pre.groups@.len(),
            forall|l: int| 0 <= l < pre.groups@.len()
                ==> (#[trigger] self.groups@[l]).live == pre.groups@[l].live
                    && self.groups@[l].group == pre.groups@[l].group
                    && self.groups@[l].members == pre.groups@[l].members,
            self.bots == pre.bots,
            self.id_counter == pre.id_counter,
        ensures
            self.wf_core(),
    {
        crate::model::lemma_step_preserves(mo, ev, Seq::<ZoneChangedEvent>::empty());
        assert forall|k: (GridPoint, u32)| self.model().cells.dom().contains(k)
            implies ((#[trigger] self.model().cells[k]) matches Some(o)
                ==> o <= self.id_counter.count as u32) by {
            assert(mo.cells.dom().contains(k));
            match self.model().cells[k] {
                Some(o) => {
                    if mo.cells[k] == Some(o) {
                        assert(o <= pre.id_counter.count as u32);
                    } else {
                        assert(o <= ZonePointData::ZONE_ID_MASK && mo.live(o as u16));
                        let ou = o as u16;
                        assert(pre.has_live_id(ou));
                        let sj = pre.slot_of(ou);
                        assert(pre.live_at(sj) && pre.groups@[sj].group.id == ou);
                        assert(ou <= pre.id_counter.count);
                        assert((ou as u32) == o);
                    }
                },
                None => {},
            }
        }
    }

    /// Drain the pending queue and apply every delta in enqueue order; the
    /// only writer of the raster. Afterwards the queue is empty and the
    /// raster and memberships are exactly `run` of the drained queue; the
    /// returned statistics count the logged warnings.
    pub fn drain_and_apply(&mut self) -> (stats: SyncStats)
        requires
            old(self).wf(),
        ensures
            final(self).wf(),
            final(self).channel.events@.len() == 0,
            final(self).model()
                == crate::model::run(old(self).model(), old(self).channel.events@),
            (stats.conflicts as nat, stats.bounds_skips as nat, stats.unknown_skips as nat)
                == crate::model::run_counts(old(self).model(), old(self).channel.events@),
            final(self).groups@.len() == old(self).groups@.len(),
            forall|l: int| 0 <= l < old(self).groups@.len()
                ==> (#[trigger] final(self).groups@[l]).live == old(self).groups@[l].live
                    && final(self).groups@[l].group == old(self).groups@[l].group
                    && final(self).groups@[l].members == old(self).groups@[l].members
                    && final(self).groups@[l].zone.zone_color
                        == old(self).groups@[l].zone.zone_color,
            final(self).bots == old(self).bots,
            final(self).id_counter == old(self).id_counter,
            final(self).grid.width == old(self).grid.width,
            final(self).grid.height == old(self).grid.height,
    {
        let ghost m0 = old(self).model();
        let ghost evs = old(self).channel.events@;
        let mut stats = SyncStats { conflicts: 0, bounds_skips: 0, unknown_skips: 0 };
        let n = self.channel.len();
        let mut i: usize = 0;
        proof {
            assert(evs.take(0) =~= Seq::<ZoneChangedEvent>::empty());
        }
        while i < n
            invariant
                0 <= i <= n,
                n == evs.len(),
                self.channel.events@ == evs,
                evs_ok(evs),
                self.wf_core(),
                self.model() == crate::model::run(m0, evs.take(i as int)),
                (stats.conflicts as nat, stats.bounds_skips as nat, stats.unknown_skips as nat)
                    == crate::model::run_counts(m0, evs.take(i as int)),
                stats.conflicts <= i && stats.bounds_skips <= i && stats.unknown_skips <= i,
                self.groups@.len() == old(self).groups@.len(),
                forall|l: int| 0 <= l < old(self).groups@.len()
                    ==> (#[trigger] self.groups@[l]).live == old(self).groups@[l].live
                        && self.groups@[l].group == old(self).groups@[l].group
                        && self.groups@[l].members == old(self).groups@[l].members
                        && self.groups@[l].zone.zone_color
                            == old(self).groups@[l].zone.zone_color,
                self.bots == old(self).bots,
                self.id_counter == old(self).id_counter,
                self.grid.width == old(self).grid.width,
                self.grid.height == old(self).grid.height,
            decreases n - i,
        {
            let ev = self.channel.events[i];
            let ghost mcur = self.model();
            proof {
                assert(evs[i as int] == ev);
            }
            let r = self.apply_event(ev);
            if r.0 {
                stats.conflicts = stats.conflicts + 1;
            }
            if r.1 {
                stats.bounds_skips = stats.bounds_skips + 1;
            }
            if r.2 {
                stats.unknown_skips = stats.unknown_skips + 1;
            }
            proof {
                crate::model::lemma_run_snoc(m0, evs.take(i as int), ev);
                assert(evs.take(i as int).push(ev) =~= evs.take(i as int + 1));
            }
            i = i + 1;
        }
        let ghost pre_clear = *self;
        self.channel.events.clear();
        proof {
            pre_clear.lemma_model_ignores_channel(*self);
            assert(evs.take(n as int) =~= evs);
            crate::model::lemma_run_preserves(m0, evs, Seq::<ZoneChangedEvent>::empty());
            assert(evs + Seq::<ZoneChangedEvent>::empty() =~= evs);
            assert(self.wf_core());
            assert(covered(self.model(), self.channel.events@));
            assert(evs_ok(self.channel.events@));
        }
        stats
    }

    /// Queue one claim or release of `point` on behalf of the live group
    /// `group_id`, in that group's own class. Returns whether the delta was
    /// accepted; a dead id enqueues nothing, since no membership could
    /// mirror it.
    pub fn enqueue_zone_change(
        &mut self,
        group_id: u16,
        point: GridPoint,
        kind: ZoneChangedKind,
    ) -> (accepted: bool)
        requires
            old(self).wf(),
        ensures
            final(self).wf(),
            accepted == old(self).has_live_id(group_id),
            accepted ==> final(self).channel.events@ == old(self).channel.events@.push(
                ZoneChangedEvent {
                    point,
                    zone_color: old(self).model().classes[group_id],
                    zone_id: group_id as u32,
                    kind,
                },
            ),
            !accepted ==> *final(self) == *old(self),
            final(self).model() == old(self).model(),
            final(self).groups == old(self).groups,
            final(self).bots == old(self).bots,
            final(self).id_counter == old(self).id_counter,
            final(self).grid == old(self).grid,
    {
        match self.find_live_group_by_id(group_id) {
            Some(j) => {
                let ev = ZoneChangedEvent {
                    point,
                    zone_color: self.groups[j].zone.zone_color,
                    zone_id: group_id as u32,
                    kind,
                };
                proof {
                    self.lemma_slot_of(j as int);
                    assert(self.model().classes[group_id]
                        == self.groups@[j as int].zone.zone_color);
                    assert(self.model().classes.dom().contains(group_id));
                    assert((group_id as u32) <= ZonePointData::ZONE_ID_MASK);
                }
                let ghost pre = *self;
                self.channel.enqueue(ev);
                proof {
                    assert(self.model() == pre.model());
                    let q = self.channel.events@;
                    assert forall|l: int| 0 <= l < q.len()
                        implies valid_zone((#[trigger] q[l]).zone_color)
                            && q[l].zone_id <= ZonePointData::ZONE_ID_MASK by {
                        if l < q.len() - 1 {
                            assert(q[l] == pre.channel.events@[l]);
                        }
                    }
                    assert forall|p: GridPoint, z: u32|
                        in_world_bounds(p, self.model().width, self.model().height)
                            && valid_zone(z)
                            && (#[trigger] self.model().cells[(p, z)]) is Some
                            && !self.model().owner_claims(p, z)
                        implies crate::model::has_remove_for(q, p, z) by {
                        let w = choose|w: int|
                            0 <= w < pre.channel.events@.len()
                                && (#[trigger] pre.channel.events@[w]).kind
                                    == ZoneChangedKind::PointRemoved
                                && pre.channel.events@[w].point == p
                                && pre.channel.events@[w].zone_color == z;
                        assert(q[w] == pre.channel.events@[w]);
                    }
                }
                true
            },
            None => false,
        }
    }

    /// The arena slot of the live group carrying `id`, if any.
    pub(crate) fn find_live_group_by_id(&self, id: u16) -> (r: Option<usize>)
        ensures
            r matches Some(j) ==> self.live_at(j as int)
                && self.groups@[j as int].group.id == id,
            r is None ==> !self.has_live_id(id),
    {
        let mut j: usize = 0;
        while j < self.groups.len()
            invariant
                0 <= j <= self.groups@.len(),
                forall|l: int| 0 <= l < j
                    ==> !(self.live_at(l) && (#[trigger] self.groups@[l]).group.id == id),
            decreases self.groups@.len() - j,
        {
            let rec = &self.groups[j];
            if rec.live && rec.group.id == id {
                return Some(j);
            }
            j = j + 1;
        }
        None
    }

    /// Spawn a live group with a fresh id, the given ownership class, an
    /// empty membership and `n_bots` freshly spawned agents.
    pub fn spawn_group(&mut self, zone_color: u32, n_bots: usize) -> (id: u16)
        requires
            old(self).wf(),
            valid_zone(zone_color),
            (old(self).id_counter.count as u32) < ZonePointData::ZONE_ID_MASK,
            old(self).bots@.len() + n_bots <= usize::MAX,
        ensures
            final(self).wf(),
            id == old(self).id_counter.count + 1,
            final(self).id_counter.count == id,
            !old(self).has_live_id(id),
            final(self).has_live_id(id),
            final(self).model().points[id] == Set::<GridPoint>::empty(),
            final(self).model().classes[id] == zone_color,
            final(self).groups@.len() == old(self).groups@.len() + 1,
            forall|l: int| 0 <= l < old(self).groups@.len()
                ==> final(self).groups@[l] == old(self).groups@[l],
            final(self).slot_of(id) == old(self).groups@.len(),
            final(self).groups@[old(self).groups@.len() as int].members@.len() == n_bots,
            final(self).bots@.len() == old(self).bots@.len() + n_bots,
            final(self).channel == old(self).channel,
            final(self).grid == old(self).grid,
            final(self).model().cells == old(self).model().cells,
            forall|i: u16| #[trigger] old(self).has_live_id(i)
                ==> final(self).has_live_id(i)
                    && final(self).model().points[i] == old(self).model().points[i]
                    && final(self).model().classes[i] == old(self).model().classes[i],
            forall|i: u16| #[trigger] final(self).has_live_id(i)
                ==> i == id || old(self).has_live_id(i),
    {
        let ghost pre = *self;
        let id = self.id_counter.next_id();
        let ji = self.groups.len();
        let mut members: Vec<usize> = Vec::new();
        let mut k: usize = 0;
        while k < n_bots
            invariant
                0 <= k <= n_bots,
                pre.bots@.len() + n_bots <= usize::MAX,
                members@.len() == k,
                self.bots@.len() == pre.bots@.len() + k,
                forall|l: int| 0 <= l < pre.bots@.len()
                    ==> #[trigger] self.bots@[l] == pre.bots@[l],
                forall|l: int| 0 <= l < k
                    ==> (#[trigger] members@[l]) == pre.bots@.len() + l
                        && self.bots@[members@[l] as int].group == ji,
                ji == pre.groups@.len(),
                self.groups == pre.groups,
                self.grid == pre.grid,
                self.channel == pre.channel,
                self.id_counter.count == id,
            decreases n_bots - k,
        {
            let b = self.bots.len();
            self.bots.push(Nanobot { group: ji });
            members.push(b);
            k = k + 1;
        }
        proof {
            assert forall|a: int, b: int|
                0 <= a < members@.len() && 0 <= b < members@.len() && a != b
                implies members@[a] != members@[b] by {}
        }
        self.groups.push(GroupRecord {
            live: true,
            group: crate::groups::NanobotGroup { id },
            zone: crate::membership::ZoneComponent::new(zone_color),
            members,
        });
        proof {
            let post = *self;
            assert(post.live_at(ji as int) && post.groups@[ji as int].group.id == id);
            post.lemma_slot_of_unique(ji as int, id);
            assert(!pre.has_live_id(id)) by {
                if pre.has_live_id(id) {
                    let j = pre.slot_of(id);
                    assert(pre.live_at(j) && pre.groups@[j].group.id == id);
                    assert(pre.groups@[j].group.id <= pre.id_counter.count);
                }
            }
            assert forall|i: u16| #[trigger] pre.has_live_id(i)
                implies post.has_live_id(i) && post.slot_of(i) == pre.slot_of(i) by {
                let j = pre.slot_of(i);
                assert(pre.live_at(j) && pre.groups@[j].group.id == i);
                assert(post.live_at(j) && post.groups@[j].group.id == i);
                post.lemma_slot_of_unique(j, i);
            }
            assert forall|i: u16| #[trigger] post.has_live_id(i)
                implies i == id || pre.has_live_id(i) by {
                let j = post.slot_of(i);
                assert(post.live_at(j) && post.groups@[j].group.id == i);
                if j < ji as int {
                    assert(pre.live_at(j) && pre.groups@[j].group.id == i);
                }
            }
            let mp = pre.model();
            let mq = post.model();
            assert(mq.cells =~= mp.cells);
            assert(mq.points[id] =~= Set::<GridPoint>::empty());
            // well-formedness of the extended model
            assert(model_wf(mq)) by {
                assert forall|i: u16, p: GridPoint|
                    mq.points.dom().contains(i) && #[trigger] mq.points[i].contains(p)
                    implies in_world_bounds(p, mq.width, mq.height)
                        && mq.cells[(p, mq.classes[i])] == Some(i as u32) by {
                    if i == id {
                        assert(mq.points[id].contains(p));
                        assert(false);
                    } else {
                        assert(pre.has_live_id(i));
                        assert(mp.points[i].contains(p));
                        assert(mp.cells[(p, mp.classes[i])] == Some(i as u32));
                    }
                }
            }
            // stale entries are unchanged and stay covered
            assert(covered(mq, post.channel.events@)) by {
                assert forall|p: GridPoint, z: u32|
                    in_world_bounds(p, mq.width, mq.height) && valid_zone(z)
                        && (#[trigger] mq.cells[(p, z)]) is Some && !mq.owner_claims(p, z)
                    implies crate::model::has_remove_for(post.channel.events@, p, z) by {
                    let o = mq.cells[(p, z)]->Some_0;
                    assert(mp.cells[(p, z)] == Some(o));
                    assert(o <= pre.id_counter.count as u32);
                    assert(o as u16 != id);
                    if mp.owner_claims(p, z) {
                        assert(pre.has_live_id(o as u16));
                        assert(mq.points[o as u16] == mp.points[o as u16]);
                        assert(mq.owner_claims(p, z));
                        assert(false);
                    }
                }
            }
            assert(post.wf());
        }
        id
    }

    /// With unique ids, any live slot carrying `id` is where `slot_of`
    /// points.
    pub proof fn lemma_slot_of_unique(self, j: int, id: u16)
        requires
            self.unique_ids(),
            self.live_at(j),
            self.groups@[j].group.id == id,
        ensures
            self.slot_of(id) == j,
            self.has_live_id(id),
    {
        self.lemma_slot_of(j);
    }

    /// The recorded owner of `p` in class `zone`: `None` outside the grid or
    /// while the class is inactive there.
    pub fn owner_at(&self, p: GridPoint, zone: u32) -> (r: Option<u32>)
        requires
            self.wf(),
            valid_zone(zone),
        ensures
            self.model().cells.dom().contains((p, zone))
                ==> r == self.model().cells[(p, zone)],
            !self.model().cells.dom().contains((p, zone)) ==> r is None,
    {
        match self.grid.get(p) {
            None => None,
            Some(c) => c.owner_of(zone),
        }
    }

    /// Whether the live group `id` claims `p`.
    pub fn group_contains_point(&self, id: u16, p: GridPoint) -> (r: bool)
        requires
            self.wf(),
        ensures
            r == (self.has_live_id(id) && self.model().points[id].contains(p)),
    {
        match self.find_live_group_by_id(id) {
            None => false,
            Some(j) => {
                proof {
                    self.lemma_slot_of(j as int);
                }
                self.groups[j].zone.contains_point(p)
            },
        }
    }

    /// How many coordinates the live group `id` claims.
    pub fn group_points_count(&self, id: u16) -> (r: Option<usize>)
        requires
            self.wf(),
        ensures
            r is Some <==> self.has_live_id(id),
            r matches Some(c) ==> c as nat == self.model().points[id].len(),
    {
        match self.find_live_group_by_id(id) {
            None => None,
            Some(j) => {
                proof {
                    self.lemma_slot_of(j as int);
                    self.groups@[j as int].zone.lemma_points_len();
                }
                Some(self.groups[j].zone.zone_points.len())
            },
        }
    }

    /// How many agents the live group `id` has.
    pub fn group_member_count(&self, id: u16) -> (r: Option<usize>)
        requires
            self.wf(),
        ensures
            r is Some <==> self.has_live_id(id),
            r matches Some(c) ==> c == self.groups@[self.slot_of(id)].members@.len(),
    {
        match self.find_live_group_by_id(id) {
            None => None,
            Some(j) => {
                proof {
                    self.lemma_slot_of(j as int);
                }
                Some(self.groups[j].members.len())
            },
        }
    }

    /// The ownership class of the live group `id`.
    pub fn group_zone_color(&self, id: u16) -> (r: Option<u32>)
        requires
            self.wf(),
        ensures
            r is Some <==> self.has_live_id(id),
            r matches Some(c) ==> c == self.model().classes[id],
    {
        match self.find_live_group_by_id(id) {
            None => None,
            Some(j) => {
                proof {
                    self.lemma_slot_of(j as int);
                }
                Some(self.groups[j].zone.zone_color)
            },
        }
    }
}

/// Single owner per class: two distinct live groups of the same class never
/// claim the same coordinate, in any well-formed engine state — so after any
/// sequence of drains, every (coordinate, class) has at most one owner.
pub proof fn lemma_single_owner_per_class(e: ZoneEngine, id1: u16, id2: u16, p: GridPoint)
    requires
        e.wf(),
        id1 != id2,
        e.has_live_id(id1),
        e.has_live_id(id2),
        e.model().classes[id1] == e.model().classes[id2],
    ensures
        !(e.model().points[id1].contains(p) && e.model().points[id2].contains(p)),
{
    let m = e.model();
    if m.points[id1].contains(p) && m.points[id2].contains(p) {
        assert(m.cells[(p, m.classes[id1])] == Some(id1 as u32));
        assert(m.cells[(p, m.classes[id2])] == Some(id2 as u32));
        assert((id1 as u32) == (id2 as u32));
        assert(false);
    }
}

/// Membership/grid consistency at quiescence: with an empty queue, every
/// coordinate a live group claims is recorded under that group's id and
/// class, and conversely every recorded owner is a live group of that class
/// that claims the coordinate.
pub proof fn lemma_membership_grid_consistency(e: ZoneEngine)
    requires
        e.wf(),
        e.channel.events@.len() == 0,
    ensures
        forall|id: u16, p: GridPoint|
            e.has_live_id(id) && #[trigger] e.model().points[id].contains(p)
                ==> e.model().cells.dom().contains((p, e.model().classes[id]))
                    && e.model().cells[(p, e.model().classes[id])] == Some(id as u32),
        forall|p: GridPoint, z: u32|
            e.model().cells.dom().contains((p, z))
                ==> ((#[trigger] e.model().cells[(p, z)]) matches Some(o)
                    ==> e.has_live_id(o as u16)
                        && e.model().classes[o as u16] == z
                        && e.model().points[o as u16].contains(p)),
{
    let m = e.model();
    assert forall|p: GridPoint, z: u32| m.cells.dom().contains((p, z))
        implies ((#[trigger] m.cells[(p, z)]) matches Some(o)
            ==> e.has_live_id(o as u16)
                && m.classes[o as u16] == z
                && m.points[o as u16].contains(p)) by {
        match m.cells[(p, z)] {
            Some(o) => {
                if !m.owner_claims(p, z) {
                    assert(crate::model::has_remove_for(e.channel.events@, p, z));
                    let i = choose|i: int|
                        0 <= i < e.channel.events@.len()
                            && (#[trigger] e.channel.events@[i]).kind
                                == ZoneChangedKind::PointRemoved
                            && e.channel.events@[i].point == p
                            && e.channel.events@[i].zone_color == z;
                    assert(false);
                }
            },
            None => {},
        }
    }
}

impl ZoneEngine {
    /// Whether a live group carries `id`.
    pub fn is_live(&self, id: u16) -> (r: bool)
        ensures
            r == self.has_live_id(id),
    {
        let mut j: usize = 0;
        while j < self.groups.len()
            invariant
                0 <= j <= self.groups@.len(),
                forall|l: int| 0 <= l < j
                    ==> !(self.live_at(l) && (#[trigger] self.groups@[l]).group.id == id),
            decreases self.groups@.len() - j,
        {
            let rec = &self.groups[j];
            if rec.live && rec.group.id == id {
                proof {
                    assert(self.live_at(j as int));
                }
                return true;
            }
            j = j + 1;
        }
        false
    }
}

} // verus!
