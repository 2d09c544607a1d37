//! Abstract synchronizer semantics.
//!
//! `ZoneModel` is the mathematical state the synchronizer maintains: the
//! raster as a map from (coordinate, class) to the recorded owner, and the
//! membership and class of every live group. `step` is the meaning of one
//! queued delta, and `run` of a whole drain. The executable synchronizer is
//! proved to follow `run` exactly; the consistency laws are proved about
//! `step` and `run` here.

use vstd::prelude::*;

use crate::codec::ZonePointData;
use crate::codec::valid_zone;
use crate::grid::GridPoint;
use crate::grid::in_world_bounds;
use crate::channel::ZoneChangedEvent;
use crate::channel::ZoneChangedKind;

verus! {

/// Abstract state of the raster and of every live group's membership.
#[verifier::ext_equal]
pub ghost struct ZoneModel {
    pub width: u32,
    pub height: u32,
    /// For every in-bounds coordinate and valid class: the recorded owner, or
    /// `None` while the class is inactive there.
    pub cells: Map<(GridPoint, u32), Option<u32>>,
    /// For every live group id: the coordinates it claims.
    pub points: Map<u16, Set<GridPoint>>,
    /// For every live group id: its ownership class.
    pub classes: Map<u16, u32>,
}

impl ZoneModel {
    /// The maps cover exactly the grid and exactly the live ids.
    pub open spec fn dom_ok(self) -> bool {
        &&& forall|k: (GridPoint, u32)| #[trigger] self.cells.dom().contains(k)
            <==> in_world_bounds(k.0, self.width, self.height) && valid_zone(k.1)
        &&& self.points.dom() == self.classes.dom()
    }

    /// Whether `id` is a live group.
    pub open spec fn live(self, id: u16) -> bool {
        self.points.dom().contains(id)
    }

    /// Whether the owner recorded at `(p, z)` is a live group of class `z`
    /// that claims `p` — i.e. the raster entry is matched by a membership.
    pub open spec fn owner_claims(self, p: GridPoint, z: u32) -> bool {
        self.cells[(p, z)] matches Some(o)
            && self.live(o as u16)
            && self.classes[o as u16] == z
            && self.points[o as u16].contains(p)
    }

    /// An `Add` delta is applied only on behalf of a live group of the
    /// delta's class; anything else is skipped.
    pub open spec fn add_applies(self, ev: ZoneChangedEvent) -> bool {
        &&& ev.zone_id <= ZonePointData::ZONE_ID_MASK
        &&& self.live(ev.zone_id as u16)
        &&& self.classes[ev.zone_id as u16] == ev.zone_color
    }
}

/// Strip `p` from the membership of the group recorded as the previous owner
/// of `(p, z)`, if that group is live and of class `z`; the recorded owner of
/// a released or overwritten cell is the only group whose membership may
/// mention it.
pub open spec fn strip_prev_owner(
    m: ZoneModel,
    p: GridPoint,
    z: u32,
) -> Map<u16, Set<GridPoint>> {
    match m.cells[(p, z)] {
        Some(o) => {
            if m.live(o as u16) && m.classes[o as u16] == z {
                m.points.insert(o as u16, m.points[o as u16].remove(p))
            } else {
                m.points
            }
        },
        None => m.points,
    }
}

/// The meaning of one queued delta.
///
/// Out-of-bounds deltas, deltas with an invalid class mask, and `Add` deltas
/// on behalf of anything but a live group of the delta's class are skipped
/// without mutation. An applied `Add` records the new owner (overwriting a
/// conflicting one, whose membership loses the coordinate) and mirrors the
/// coordinate into the owning group's membership. An applied `Remove` clears
/// the cell and removes the coordinate from the recorded owner's membership,
/// whoever enqueued it.
pub open spec fn step(m: ZoneModel, ev: ZoneChangedEvent) -> ZoneModel {
    if !in_world_bounds(ev.point, m.width, m.height) || !valid_zone(ev.zone_color) {
        m
    } else {
        let p = ev.point;
        let z = ev.zone_color;
        match ev.kind {
            ZoneChangedKind::PointAdded => {
                if m.add_applies(ev) {
                    let g = ev.zone_id as u16;
                    let stripped = if m.cells[(p, z)] matches Some(o) && o != ev.zone_id {
                        strip_prev_owner(m, p, z)
                    } else {
                        m.points
                    };
                    ZoneModel {
                        cells: m.cells.insert((p, z), Some(ev.zone_id)),
                        points: stripped.insert(g, stripped[g].insert(p)),
                        ..m
                    }
                } else {
                    m
                }
            },
            ZoneChangedKind::PointRemoved => {
                ZoneModel {
                    cells: m.cells.insert((p, z), None),
                    points: strip_prev_owner(m, p, z),
                    ..m
                }
            },
        }
    }
}

/// The meaning of draining a queue of deltas in enqueue order.
pub open spec fn run(m: ZoneModel, evs: Seq<ZoneChangedEvent>) -> ZoneModel
    decreases evs.len(),
{
    if evs.len() == 0 {
        m
    } else {
        run(step(m, evs[0]), evs.drop_first())
    }
}

/// Whether applying `ev` to `m` logs an ownership conflict: an applied `Add`
/// found the cell already active under a different owner.
pub open spec fn is_conflict(m: ZoneModel, ev: ZoneChangedEvent) -> bool {
    &&& in_world_bounds(ev.point, m.width, m.height)
    &&& valid_zone(ev.zone_color)
    &&& ev.kind == ZoneChangedKind::PointAdded
    &&& m.add_applies(ev)
    &&& m.cells[(ev.point, ev.zone_color)] matches Some(o) && o != ev.zone_id
}

/// Whether applying `ev` to `m` logs a bounds warning and is skipped.
pub open spec fn is_bounds_skip(m: ZoneModel, ev: ZoneChangedEvent) -> bool {
    !in_world_bounds(ev.point, m.width, m.height)
}

/// Whether applying `ev` to `m` is an `Add` skipped because no live group of
/// the delta's class carries the delta's id.
pub open spec fn is_unknown_skip(m: ZoneModel, ev: ZoneChangedEvent) -> bool {
    &&& in_world_bounds(ev.point, m.width, m.height)
    &&& valid_zone(ev.zone_color)
    &&& ev.kind == ZoneChangedKind::PointAdded
    &&& !m.add_applies(ev)
}

/// How many conflicts, bounds skips and unknown-group skips a drain logs.
pub open spec fn run_counts(m: ZoneModel, evs: Seq<ZoneChangedEvent>) -> (nat, nat, nat)
    decreases evs.len(),
{
    if evs.len() == 0 {
        (0, 0, 0)
    } else {
        let rest = run_counts(step(m, evs[0]), evs.drop_first());
        (
            rest.0 + if is_conflict(m, evs[0]) { 1nat } else { 0nat },
            rest.1 + if is_bounds_skip(m, evs[0]) { 1nat } else { 0nat },
            rest.2 + if is_unknown_skip(m, evs[0]) { 1nat } else { 0nat },
        )
    }
}

/// Invariant of the abstract state.
///
/// Live ids are nonzero 14-bit values with valid classes; every coordinate a
/// live group claims is in bounds and recorded in the raster under that
/// group's id and class (so memberships never outrun the raster); and every
/// recorded owner is a nonzero 14-bit value.
pub open spec fn model_wf(m: ZoneModel) -> bool {
    &&& m.dom_ok()
    &&& forall|id: u16| #[trigger] m.points.dom().contains(id)
        ==> 1 <= id && (id as u32) <= ZonePointData::ZONE_ID_MASK && valid_zone(m.classes[id])
    &&& forall|id: u16, p: GridPoint|
        m.points.dom().contains(id) && #[trigger] m.points[id].contains(p)
            ==> in_world_bounds(p, m.width, m.height)
                && m.cells[(p, m.classes[id])] == Some(id as u32)
    &&& forall|k: (GridPoint, u32)| #[trigger] m.cells.dom().contains(k)
        ==> (m.cells[k] matches Some(o) ==> 1 <= o <= ZonePointData::ZONE_ID_MASK)
}

/// Whether the queue still holds a release of `(p, z)`.
pub open spec fn has_remove_for(evs: Seq<ZoneChangedEvent>, p: GridPoint, z: u32) -> bool {
    exists|i: int|
        0 <= i < evs.len()
            && (#[trigger] evs[i]).kind == ZoneChangedKind::PointRemoved
            && evs[i].point == p
            && evs[i].zone_color == z
}

/// Every raster entry that no live group's membership matches is scheduled
/// for release by a pending delta. With an empty queue this is the converse
/// consistency direction: every recorded owner is matched by a membership.
pub open spec fn covered(m: ZoneModel, evs: Seq<ZoneChangedEvent>) -> bool {
    forall|p: GridPoint, z: u32|
        in_world_bounds(p, m.width, m.height) && valid_zone(z)
            && (#[trigger] m.cells[(p, z)]) is Some && !m.owner_claims(p, z)
            ==> has_remove_for(evs, p, z)
}

/// Every queued delta names a valid class mask and a 14-bit id.
pub open spec fn evs_ok(evs: Seq<ZoneChangedEvent>) -> bool {
    forall|i: int|
        0 <= i < evs.len()
            ==> valid_zone((#[trigger] evs[i]).zone_color) && evs[i].zone_id <= ZonePointData::ZONE_ID_MASK
}

/// Deltas at out-of-bounds coordinates are skipped without any mutation.
pub proof fn lemma_bounds_rejection(m: ZoneModel, ev: ZoneChangedEvent)
    requires
        !in_world_bounds(ev.point, m.width, m.height),
    ensures
        step(m, ev) == m,
{
}

/// One applied delta keeps the abstract state well-formed, keeps every stale
/// raster entry scheduled for release by the remaining queue, and never
/// touches the live set, the classes or the dimensions. Any owner it records
/// is a live group.
pub proof fn lemma_step_preserves(m: ZoneModel, ev: ZoneChangedEvent, rest: Seq<ZoneChangedEvent>)
    requires
        model_wf(m),
    ensures
        model_wf(step(m, ev)),
        covered(m, seq![ev] + rest) ==> covered(step(m, ev), rest),
        step(m, ev).width == m.width,
        step(m, ev).height == m.height,
        step(m, ev).points.dom() == m.points.dom(),
        step(m, ev).classes == m.classes,
        step(m, ev).cells.dom() == m.cells.dom(),
        forall|k: (GridPoint, u32)|
            m.cells.dom().contains(k)
                ==> ((#[trigger] step(m, ev).cells[k]) matches Some(o)
                    ==> m.cells[k] == Some(o) || (o <= ZonePointData::ZONE_ID_MASK && m.live(o as u16))),
{
    let n = step(m, ev);
    let evs = seq![ev] + rest;
    assert(evs[0] == ev);
    assert(forall|i: int| 0 <= i < rest.len() ==> evs[i + 1] == rest[i]);
    if !in_world_bounds(ev.point, m.width, m.height) || !valid_zone(ev.zone_color) {
        assert(n == m);
        if covered(m, evs) {
            assert forall|p: GridPoint, z: u32|
                in_world_bounds(p, n.width, n.height) && valid_zone(z)
                    && (#[trigger] n.cells[(p, z)]) is Some && !n.owner_claims(p, z)
                implies has_remove_for(rest, p, z) by {
                let i = choose|i: int|
                    0 <= i < evs.len()
                        && (#[trigger] evs[i]).kind == ZoneChangedKind::PointRemoved
                        && evs[i].point == p && evs[i].zone_color == z;
                if i == 0 {
                    assert(ev.kind == ZoneChangedKind::PointRemoved);
                    assert(in_world_bounds(ev.point, m.width, m.height));
                    assert(false);
                } else {
                    assert(rest[i - 1] == evs[i]);
                }
            }
        }
    } else {
        let p0 = ev.point;
        let z0 = ev.zone_color;
        let key0 = (p0, z0);
        assert(m.cells.dom().contains(key0));
        match ev.kind {
            ZoneChangedKind::PointAdded => {
                if m.add_applies(ev) {
                    lemma_step_preserves_add(m, ev, rest);
                } else {
                    assert(n == m);
                    if covered(m, evs) {
                        assert forall|p: GridPoint, z: u32|
                            in_world_bounds(p, n.width, n.height) && valid_zone(z)
                                && (#[trigger] n.cells[(p, z)]) is Some
                                && !n.owner_claims(p, z)
                            implies has_remove_for(rest, p, z) by {
                            let i = choose|i: int|
                                0 <= i < evs.len()
                                    && (#[trigger] evs[i]).kind == ZoneChangedKind::PointRemoved
                                    && evs[i].point == p && evs[i].zone_color == z;
                            if i == 0 {
                                assert(false);
                            } else {
                                assert(rest[i - 1] == evs[i]);
                            }
                        }
                    }
                }
            },
            ZoneChangedKind::PointRemoved => {
                lemma_step_preserves_remove(m, ev, rest);
            },
        }
    }
}

/// `lemma_step_preserves`, for an applied release.
proof fn lemma_step_preserves_remove(
    m: ZoneModel,
    ev: ZoneChangedEvent,
    rest: Seq<ZoneChangedEvent>,
)
    requires
        model_wf(m),
        in_world_bounds(ev.point, m.width, m.height),
        valid_zone(ev.zone_color),
        ev.kind == ZoneChangedKind::PointRemoved,
    ensures
        model_wf(step(m, ev)),
        covered(m, seq![ev] + rest) ==> covered(step(m, ev), rest),
        step(m, ev).points.dom() == m.points.dom(),
        step(m, ev).cells.dom() == m.cells.dom(),
        forall|k: (GridPoint, u32)|
            m.cells.dom().contains(k)
                ==> ((#[trigger] step(m, ev).cells[k]) matches Some(o)
                    ==> m.cells[k] == Some(o) || (o <= ZonePointData::ZONE_ID_MASK && m.live(o as u16))),
{
    let n = step(m, ev);
    let evs = seq![ev] + rest;
    assert(evs[0] == ev);
    assert(forall|i: int| 0 <= i < rest.len() ==> evs[i + 1] == rest[i]);
    let p0 = ev.point;
    let z0 = ev.zone_color;
    let key0 = (p0, z0);
    assert(m.cells.dom().contains(key0));
    assert(n.cells == m.cells.insert(key0, None::<u32>));
    assert(n.points == strip_prev_owner(m, p0, z0));
    assert(n.cells.dom() =~= m.cells.dom());
    assert(n.points.dom() =~= m.points.dom());
    // forward direction is preserved
    assert forall|id: u16, p: GridPoint|
        n.points.dom().contains(id) && #[trigger] n.points[id].contains(p)
        implies in_world_bounds(p, n.width, n.height)
            && n.cells[(p, n.classes[id])] == Some(id as u32) by {
        assert(m.points[id].contains(p));
        assert(m.cells[(p, m.classes[id])] == Some(id as u32));
        if (p, m.classes[id]) == key0 {
            // `id` was the recorded owner of the released cell, so the strip
            // removed exactly this coordinate from its membership.
            assert(m.cells[key0] == Some(id as u32));
            assert((id as u32) as u16 == id);
            assert(n.points[id] == m.points[id].remove(p0));
            assert(false);
        }
    }
    // recorded owners stay nonzero 14-bit values
    assert forall|k: (GridPoint, u32)| #[trigger] n.cells.dom().contains(k)
        implies (n.cells[k] matches Some(o) ==> 1 <= o <= ZonePointData::ZONE_ID_MASK) by {
        if k != key0 {
            assert(n.cells[k] == m.cells[k]);
        }
    }
    // staleness stays covered by the remaining queue
    if covered(m, evs) {
        assert forall|p: GridPoint, z: u32|
            in_world_bounds(p, n.width, n.height) && valid_zone(z)
                && (#[trigger] n.cells[(p, z)]) is Some && !n.owner_claims(p, z)
            implies has_remove_for(rest, p, z) by {
            assert((p, z) != key0);
            assert(n.cells[(p, z)] == m.cells[(p, z)]);
            let o = n.cells[(p, z)]->Some_0;
            if m.owner_claims(p, z) {
                // the claim survives the strip: the strip removes only `p0` from
                // the membership of the owner of `key0`, in class `z0`
                let ou = o as u16;
                match m.cells[key0] {
                    Some(o0) => {
                        let o0u = o0 as u16;
                        if m.live(o0u) && m.classes[o0u] == z0 {
                            if ou == o0u {
                                assert(z == m.classes[ou]);
                                assert(p != p0);
                                assert(n.points[ou] == m.points[ou].remove(p0));
                            } else {
                                assert(n.points[ou] == m.points[ou]);
                            }
                        } else {
                            assert(n.points[ou] == m.points[ou]);
                        }
                    },
                    None => {
                        assert(n.points[ou] == m.points[ou]);
                    },
                }
                assert(n.points[ou].contains(p));
                assert(n.owner_claims(p, z));
                assert(false);
            } else {
                let i = choose|i: int|
                    0 <= i < evs.len()
                        && (#[trigger] evs[i]).kind == ZoneChangedKind::PointRemoved
                        && evs[i].point == p && evs[i].zone_color == z;
                if i == 0 {
                    assert((p, z) == key0);
                    assert(false);
                } else {
                    assert(rest[i - 1] == evs[i]);
                }
            }
        }
    }
}

/// `lemma_step_preserves`, for an applied claim.
proof fn lemma_step_preserves_add(
    m: ZoneModel,
    ev: ZoneChangedEvent,
    rest: Seq<ZoneChangedEvent>,
)
    requires
        model_wf(m),
        in_world_bounds(ev.point, m.width, m.height),
        valid_zone(ev.zone_color),
        ev.kind == ZoneChangedKind::PointAdded,
        m.add_applies(ev),
    ensures
        model_wf(step(m, ev)),
        covered(m, seq![ev] + rest) ==> covered(step(m, ev), rest),
        step(m, ev).points.dom() == m.points.dom(),
        step(m, ev).cells.dom() == m.cells.dom(),
        forall|k: (GridPoint, u32)|
            m.cells.dom().contains(k)
                ==> ((#[trigger] step(m, ev).cells[k]) matches Some(o)
                    ==> m.cells[k] == Some(o) || (o <= ZonePointData::ZONE_ID_MASK && m.live(o as u16))),
{
    let n = step(m, ev);
    let evs = seq![ev] + rest;
    assert(evs[0] == ev);
    assert(forall|i: int| 0 <= i < rest.len() ==> evs[i + 1] == rest[i]);
    let p0 = ev.point;
    let z0 = ev.zone_color;
    let key0 = (p0, z0);
    let g = ev.zone_id as u16;
    assert((g as u32) == ev.zone_id);
    assert(m.cells.dom().contains(key0));
    let stripped = if m.cells[key0] matches Some(o) && o != ev.zone_id {
        strip_prev_owner(m, p0, z0)
    } else {
        m.points
    };
    assert(n.cells == m.cells.insert(key0, Some(ev.zone_id)));
    assert(n.points == stripped.insert(g, stripped[g].insert(p0)));
    assert(n.cells.dom() =~= m.cells.dom());
    // the strip never touches the claiming group itself
    assert(stripped.dom() =~= m.points.dom());
    assert(stripped[g] == m.points[g]) by {
        match m.cells[key0] {
            Some(o) => {
                if o != ev.zone_id {
                    let ou = o as u16;
                    assert(1 <= o <= ZonePointData::ZONE_ID_MASK);
                    assert((ou as u32) == o);
                    assert(ou != g);
                }
            },
            None => {},
        }
    }
    assert(n.points.dom() =~= m.points.dom());
    // forward direction is preserved
    assert forall|id: u16, p: GridPoint|
        n.points.dom().contains(id) && #[trigger] n.points[id].contains(p)
        implies in_world_bounds(p, n.width, n.height)
            && n.cells[(p, n.classes[id])] == Some(id as u32) by {
        if id == g {
            assert(n.points[g] == m.points[g].insert(p0));
            assert(m.classes[g] == z0);
            if p == p0 {
                assert(n.cells[key0] == Some(ev.zone_id));
            } else {
                assert(m.points[g].contains(p));
                assert(m.cells[(p, z0)] == Some(g as u32));
                assert((p, z0) != key0);
            }
        } else {
            assert(n.points[id] == stripped[id]);
            assert(m.points[id].contains(p)) by {
                match m.cells[key0] {
                    Some(o) => {
                        let ou = o as u16;
                        if o != ev.zone_id && id == ou && m.live(ou) && m.classes[ou] == z0 {
                            assert(stripped[id] == m.points[id].remove(p0));
                        } else {
                            assert(stripped[id] == m.points[id]);
                        }
                    },
                    None => {
                        assert(stripped[id] == m.points[id]);
                    },
                }
            }
            assert(m.cells[(p, m.classes[id])] == Some(id as u32));
            if (p, m.classes[id]) == key0 {
                // `id` was the conflicting previous owner, so the strip
                // removed exactly this coordinate from its membership.
                assert(m.cells[key0] == Some(id as u32));
                assert((id as u32) != ev.zone_id);
                assert((id as u32) as u16 == id);
                assert(stripped[id] == m.points[id].remove(p0));
                assert(false);
            }
        }
    }
    // recorded owners stay nonzero 14-bit values
    assert forall|k: (GridPoint, u32)| #[trigger] n.cells.dom().contains(k)
        implies (n.cells[k] matches Some(o) ==> 1 <= o <= ZonePointData::ZONE_ID_MASK) by {
        if k != key0 {
            assert(n.cells[k] == m.cells[k]);
        } else {
            assert(1 <= g);
        }
    }
    // staleness stays covered by the remaining queue
    if covered(m, evs) {
        assert forall|p: GridPoint, z: u32|
            in_world_bounds(p, n.width, n.height) && valid_zone(z)
                && (#[trigger] n.cells[(p, z)]) is Some && !n.owner_claims(p, z)
            implies has_remove_for(rest, p, z) by {
            if (p, z) == key0 {
                assert(n.cells[key0] == Some(ev.zone_id));
                assert(n.points[g].contains(p0));
                assert(n.owner_claims(p0, z0));
                assert(false);
            } else {
                assert(n.cells[(p, z)] == m.cells[(p, z)]);
                let o = n.cells[(p, z)]->Some_0;
                if m.owner_claims(p, z) {
                    let ou = o as u16;
                    if ou == g {
                        assert(n.points[g] == m.points[g].insert(p0));
                        assert(n.points[ou].contains(p));
                    } else {
                        assert(m.points[ou].contains(p));
                        match m.cells[key0] {
                            Some(o0) => {
                                let o0u = o0 as u16;
                                if o0 != ev.zone_id && ou == o0u && m.live(o0u)
                                    && m.classes[o0u] == z0 {
                                    assert(z == m.classes[ou]);
                                    assert(p != p0);
                                    assert(n.points[ou] == m.points[ou].remove(p0));
                                } else {
                                    assert(n.points[ou] == m.points[ou]);
                                }
                            },
                            None => {
                                assert(n.points[ou] == m.points[ou]);
                            },
                        }
                        assert(n.points[ou].contains(p));
                    }
                    assert(n.owner_claims(p, z));
                    assert(false);
                } else {
                    let i = choose|i: int|
                        0 <= i < evs.len()
                            && (#[trigger] evs[i]).kind == ZoneChangedKind::PointRemoved
                            && evs[i].point == p && evs[i].zone_color == z;
                    if i == 0 {
                        assert(false);
                    } else {
                        assert(rest[i - 1] == evs[i]);
                    }
                }
            }
        }
    }
}

/// One delta never changes the dimensions, the live set or the classes, and
/// never adds or removes raster keys.
pub proof fn lemma_step_structure(m: ZoneModel, ev: ZoneChangedEvent)
    requires
        m.dom_ok(),
    ensures
        step(m, ev).dom_ok(),
        step(m, ev).width == m.width,
        step(m, ev).height == m.height,
        step(m, ev).points.dom() == m.points.dom(),
        step(m, ev).classes == m.classes,
        step(m, ev).cells.dom() == m.cells.dom(),
{
    let n = step(m, ev);
    if in_world_bounds(ev.point, m.width, m.height) && valid_zone(ev.zone_color) {
        match ev.kind {
            ZoneChangedKind::PointAdded => {
                if m.add_applies(ev) {
                    assert(n.points.dom() =~= m.points.dom());
                    assert(n.cells.dom() =~= m.cells.dom());
                }
            },
            ZoneChangedKind::PointRemoved => {
                assert(n.points.dom() =~= m.points.dom());
                assert(n.cells.dom() =~= m.cells.dom());
            },
        }
    }
}

/// `lemma_step_structure`, over a whole drain.
pub proof fn lemma_run_structure(m: ZoneModel, evs: Seq<ZoneChangedEvent>)
    requires
        m.dom_ok(),
    ensures
        run(m, evs).dom_ok(),
        run(m, evs).width == m.width,
        run(m, evs).height == m.height,
        run(m, evs).points.dom() == m.points.dom(),
        run(m, evs).classes == m.classes,
        run(m, evs).cells.dom() == m.cells.dom(),
    decreases evs.len(),
{
    if evs.len() != 0 {
        lemma_step_structure(m, evs[0]);
        lemma_run_structure(step(m, evs[0]), evs.drop_first());
    }
}

/// Draining a prefix of the queue keeps the state well-formed and keeps
/// every stale raster entry scheduled for release by the rest of the queue;
/// owners recorded on the way are live groups.
pub proof fn lemma_run_preserves(
    m: ZoneModel,
    evs: Seq<ZoneChangedEvent>,
    tail: Seq<ZoneChangedEvent>,
)
    requires
        model_wf(m),
        covered(m, evs + tail),
    ensures
        model_wf(run(m, evs)),
        covered(run(m, evs), tail),
        forall|k: (GridPoint, u32)|
            m.cells.dom().contains(k)
                ==> ((#[trigger] run(m, evs).cells[k]) matches Some(o)
                    ==> m.cells[k] == Some(o) || (o <= ZonePointData::ZONE_ID_MASK && m.live(o as u16))),
    decreases evs.len(),
{
    lemma_run_structure(m, evs);
    if evs.len() == 0 {
        assert(evs + tail =~= tail);
    } else {
        let m1 = step(m, evs[0]);
        assert(evs + tail =~= seq![evs[0]] + (evs.drop_first() + tail));
        lemma_step_preserves(m, evs[0], evs.drop_first() + tail);
        lemma_run_preserves(m1, evs.drop_first(), tail);
        assert forall|k: (GridPoint, u32)|
            m.cells.dom().contains(k) implies
            ((#[trigger] run(m, evs).cells[k]) matches Some(o)
                ==> m.cells[k] == Some(o) || (o <= ZonePointData::ZONE_ID_MASK && m.live(o as u16))) by {
            lemma_step_structure(m, evs[0]);
            match run(m, evs).cells[k] {
                Some(o) => {
                    assert(run(m1, evs.drop_first()) == run(m, evs));
                    if m1.cells[k] == Some(o) {
                    } else {
                        assert(o <= ZonePointData::ZONE_ID_MASK && m1.live(o as u16));
                    }
                },
                None => {},
            }
        }
    }
}

/// Draining nothing but releases never grows a membership and never records
/// a new owner.
pub proof fn lemma_run_removes(m: ZoneModel, evs: Seq<ZoneChangedEvent>)
    requires
        m.dom_ok(),
        forall|i: int| 0 <= i < evs.len()
            ==> (#[trigger] evs[i]).kind == ZoneChangedKind::PointRemoved,
    ensures
        forall|id: u16| m.points.dom().contains(id)
            ==> (#[trigger] run(m, evs).points[id]).subset_of(m.points[id]),
        forall|k: (GridPoint, u32)|
            (#[trigger] run(m, evs).cells[k]) == m.cells[k] || run(m, evs).cells[k] is None,
    decreases evs.len(),
{
    lemma_run_structure(m, evs);
    if evs.len() != 0 {
        let m1 = step(m, evs[0]);
        lemma_step_structure(m, evs[0]);
        assert(forall|i: int| 0 <= i < evs.drop_first().len()
            ==> (#[trigger] evs.drop_first()[i]).kind == ZoneChangedKind::PointRemoved);
        lemma_run_removes(m1, evs.drop_first());
        assert(forall|id: u16| m1.points.dom().contains(id)
            ==> (#[trigger] m1.points[id]).subset_of(m.points[id]));
        assert(run(m1, evs.drop_first()) == run(m, evs));
    }
}

/// The world coordinates of a batch of deltas.
pub open spec fn ev_points(evs: Seq<ZoneChangedEvent>) -> Set<GridPoint> {
    evs.map_values(|e: ZoneChangedEvent| e.point).to_set()
}

/// A coordinate is among a batch's coordinates iff some delta carries it.
pub proof fn lemma_ev_points_contains(evs: Seq<ZoneChangedEvent>, q: GridPoint)
    ensures
        ev_points(evs).contains(q)
            <==> exists|j: int| 0 <= j < evs.len() && (#[trigger] evs[j]).point == q,
{
    let s = evs.map_values(|e: ZoneChangedEvent| e.point);
    if ev_points(evs).contains(q) {
        let j = choose|j: int| 0 <= j < s.len() && (#[trigger] s[j]) == q;
        assert(evs[j].point == q);
    }
    if exists|j: int| 0 <= j < evs.len() && (#[trigger] evs[j]).point == q {
        let j = choose|j: int| 0 <= j < evs.len() && (#[trigger] evs[j]).point == q;
        assert(s[j] == q);
        assert(s.contains(q));
    }
}

/// A batch that claims in-bounds coordinates for the one live group `g` of
/// class `c`, and nothing else.
pub open spec fn all_adds_for(evs: Seq<ZoneChangedEvent>, g: u16, c: u32) -> bool {
    forall|i: int| 0 <= i < evs.len() ==> {
        &&& (#[trigger] evs[i]).kind == ZoneChangedKind::PointAdded
        &&& evs[i].zone_color == c
        &&& evs[i].zone_id == g as u32
    }
}

/// Draining a batch of claims for one live group `g` of class `c` makes `g`'s
/// membership exactly its old membership plus the batch's coordinates, and
/// leaves cells of every other class untouched.
pub proof fn lemma_run_adds(m: ZoneModel, evs: Seq<ZoneChangedEvent>, g: u16, c: u32)
    requires
        model_wf(m),
        m.live(g),
        m.classes[g] == c,
        valid_zone(c),
        all_adds_for(evs, g, c),
        forall|i: int| 0 <= i < evs.len()
            ==> in_world_bounds((#[trigger] evs[i]).point, m.width, m.height),
    ensures
        model_wf(run(m, evs)),
        run(m, evs).points[g] == m.points[g] + ev_points(evs),
        forall|k: (GridPoint, u32)| k.1 != c
            ==> (#[trigger] run(m, evs).cells[k]) == m.cells[k],
    decreases evs.len(),
{
    lemma_run_structure(m, evs);
    if evs.len() == 0 {
        assert(ev_points(evs) =~= Set::<GridPoint>::empty());
        assert(run(m, evs).points[g] =~= m.points[g] + ev_points(evs));
    } else {
        let ev = evs[0];
        let m1 = step(m, ev);
        lemma_step_structure(m, ev);
        assert(m.add_applies(ev));
        // the strip never touches `g` itself
        assert(m1.points[g] == m.points[g].insert(ev.point)) by {
            match m.cells[(ev.point, c)] {
                Some(o) => {
                    if o != ev.zone_id {
                        assert(m.cells.dom().contains((ev.point, c)));
                        assert(1 <= o <= ZonePointData::ZONE_ID_MASK);
                        assert((o as u16) as u32 == o);
                        assert(o as u16 != g);
                    }
                },
                None => {},
            }
        }
        lemma_step_wf_no_cover(m, ev);
        lemma_run_adds(m1, evs.drop_first(), g, c);
        assert(run(m1, evs.drop_first()) == run(m, evs));
        assert(run(m, evs).points[g] =~= m.points[g] + ev_points(evs)) by {
            assert forall|q: GridPoint|
                #[trigger] ev_points(evs).contains(q)
                    <==> (q == ev.point || ev_points(evs.drop_first()).contains(q)) by {
                lemma_ev_points_contains(evs, q);
                lemma_ev_points_contains(evs.drop_first(), q);
                if exists|j: int| 0 <= j < evs.len() && (#[trigger] evs[j]).point == q {
                    let j = choose|j: int|
                        0 <= j < evs.len() && (#[trigger] evs[j]).point == q;
                    if j != 0 {
                        assert(evs.drop_first()[j - 1].point == q);
                    }
                }
                if exists|j: int|
                    0 <= j < evs.drop_first().len()
                        && (#[trigger] evs.drop_first()[j]).point == q {
                    let j = choose|j: int|
                        0 <= j < evs.drop_first().len()
                            && (#[trigger] evs.drop_first()[j]).point == q;
                    assert(evs[j + 1].point == q);
                }
            }
        }
        assert forall|k: (GridPoint, u32)| k.1 != c
            implies (#[trigger] run(m, evs).cells[k]) == m.cells[k] by {
            assert(m1.cells[k] == m.cells[k]);
        }
    }
}

/// One delta keeps the abstract state well-formed.
pub proof fn lemma_step_wf_no_cover(m: ZoneModel, ev: ZoneChangedEvent)
    requires
        model_wf(m),
    ensures
        model_wf(step(m, ev)),
{
    lemma_step_preserves(m, ev, Seq::<ZoneChangedEvent>::empty());
}

/// A batch of claims for one group leaves every other group's membership
/// alone, provided that group is recorded nowhere in the batch's class.
pub proof fn lemma_run_adds_bystander(
    m: ZoneModel,
    evs: Seq<ZoneChangedEvent>,
    g: u16,
    c: u32,
    h: u16,
)
    requires
        model_wf(m),
        m.live(g),
        m.classes[g] == c,
        valid_zone(c),
        all_adds_for(evs, g, c),
        forall|i: int| 0 <= i < evs.len()
            ==> in_world_bounds((#[trigger] evs[i]).point, m.width, m.height),
        h != g,
        forall|p: GridPoint| in_world_bounds(p, m.width, m.height)
            ==> (#[trigger] m.cells[(p, c)]) != Some(h as u32),
    ensures
        m.points.dom().contains(h) ==> run(m, evs).points[h] == m.points[h],
        forall|p: GridPoint| in_world_bounds(p, m.width, m.height)
            ==> (#[trigger] run(m, evs).cells[(p, c)]) != Some(h as u32),
    decreases evs.len(),
{
    lemma_run_structure(m, evs);
    if evs.len() != 0 {
        let ev = evs[0];
        let m1 = step(m, ev);
        lemma_step_structure(m, ev);
        assert(m.add_applies(ev));
        lemma_step_wf_no_cover(m, ev);
        // the new cell records `g`, never `h`
        assert((g as u32) != (h as u32));
        assert forall|p: GridPoint| in_world_bounds(p, m.width, m.height)
            implies (#[trigger] m1.cells[(p, c)]) != Some(h as u32) by {
            if p != ev.point {
                assert(m1.cells[(p, c)] == m.cells[(p, c)]);
            }
        }
        // the strip hits the recorded owner of the claimed cell, never `h`
        if m.points.dom().contains(h) {
            assert(m1.points[h] == m.points[h]) by {
                match m.cells[(ev.point, c)] {
                    Some(o) => {
                        assert(m.cells.dom().contains((ev.point, c)));
                        assert(1 <= o <= ZonePointData::ZONE_ID_MASK);
                        assert((o as u16) as u32 == o);
                        assert(o as u16 != h);
                        if o != ev.zone_id {
                            assert(o as u16 != g);
                        }
                    },
                    None => {},
                }
            }
        }
        lemma_run_adds_bystander(m1, evs.drop_first(), g, c, h);
        assert(run(m1, evs.drop_first()) == run(m, evs));
    }
}

/// Draining a concatenation drains the first batch, then the second.
pub proof fn lemma_run_app(m: ZoneModel, a: Seq<ZoneChangedEvent>, b: Seq<ZoneChangedEvent>)
    ensures
        run(m, a + b) == run(run(m, a), b),
    decreases a.len(),
{
    if a.len() == 0 {
        assert(a + b =~= b);
    } else {
        assert((a + b)[0] == a[0]);
        assert((a + b).drop_first() =~= a.drop_first() + b);
        lemma_run_app(step(m, a[0]), a.drop_first(), b);
    }
}

/// Appending one delta to a drain applies it after the rest.
pub proof fn lemma_run_snoc(m: ZoneModel, evs: Seq<ZoneChangedEvent>, ev: ZoneChangedEvent)
    ensures
        run(m, evs.push(ev)) == step(run(m, evs), ev),
        run_counts(m, evs.push(ev)).0 == run_counts(m, evs).0
            + if is_conflict(run(m, evs), ev) { 1nat } else { 0nat },
        run_counts(m, evs.push(ev)).1 == run_counts(m, evs).1
            + if is_bounds_skip(run(m, evs), ev) { 1nat } else { 0nat },
        run_counts(m, evs.push(ev)).2 == run_counts(m, evs).2
            + if is_unknown_skip(run(m, evs), ev) { 1nat } else { 0nat },
    decreases evs.len(),
{
    let s = evs.push(ev);
    if evs.len() == 0 {
        assert(s[0] == ev);
        assert(s.drop_first() =~= Seq::<ZoneChangedEvent>::empty());
        assert(run(m, s) == run(step(m, ev), s.drop_first()));
        assert(run(step(m, ev), s.drop_first()) == step(m, ev));
        assert(run(m, evs) == m);
        assert(run_counts(step(m, ev), s.drop_first()) == (0nat, 0nat, 0nat));
        assert(run_counts(m, evs) == (0nat, 0nat, 0nat));
        assert(run_counts(m, s).0
            == (0nat, 0nat, 0nat).0 + if is_conflict(m, ev) { 1nat } else { 0nat });
    } else {
        assert(s[0] == evs[0]);
        assert(s.drop_first() =~= evs.drop_first().push(ev));
        lemma_run_snoc(step(m, evs[0]), evs.drop_first(), ev);
        assert(run(m, s) == run(step(m, evs[0]), s.drop_first()));
        assert(run(m, evs) == run(step(m, evs[0]), evs.drop_first()));
        assert(run_counts(m, s).0 == run_counts(step(m, evs[0]), s.drop_first()).0
            + if is_conflict(m, evs[0]) { 1nat } else { 0nat });
        assert(run_counts(m, evs).0 == run_counts(step(m, evs[0]), evs.drop_first()).0
            + if is_conflict(m, evs[0]) { 1nat } else { 0nat });
        assert(run_counts(m, s).1 == run_counts(step(m, evs[0]), s.drop_first()).1
            + if is_bounds_skip(m, evs[0]) { 1nat } else { 0nat });
        assert(run_counts(m, evs).1 == run_counts(step(m, evs[0]), evs.drop_first()).1
            + if is_bounds_skip(m, evs[0]) { 1nat } else { 0nat });
        assert(run_counts(m, s).2 == run_counts(step(m, evs[0]), s.drop_first()).2
            + if is_unknown_skip(m, evs[0]) { 1nat } else { 0nat });
        assert(run_counts(m, evs).2 == run_counts(step(m, evs[0]), evs.drop_first()).2
            + if is_unknown_skip(m, evs[0]) { 1nat } else { 0nat });
    }
}

} // verus!
