//! Group partition engine: despawn, merge and split.
//!
//! Restructuring never touches the raster directly: it reparents agents,
//! retires and spawns group records, and emits release and claim deltas into
//! the change channel, always all releases of a coordinate before any claim
//! of it. The synchronizer applies them on the next drain.

use vstd::prelude::*;

use crate::channel::ZoneChangedEvent;
use crate::channel::ZoneChangedKind;
use crate::codec::ZonePointData;
use crate::codec::valid_zone;
use crate::engine::ZoneEngine;
use crate::grid::GridPoint;
use crate::model::covered;
use crate::model::evs_ok;
use crate::model::has_remove_for;

verus! {

/// A merge or split request, as selected in the input boundary.
#[derive(Debug, Clone, Copy, PartialEq, Eq, Structural)]
pub enum NanobotGroupAction {
    Merge,
    Split,
}

/// One release delta per coordinate, in order.
pub open spec fn removes_for(
    pts: Seq<GridPoint>,
    zone_color: u32,
    zone_id: u32,
) -> Seq<ZoneChangedEvent> {
    pts.map_values(
        |p: GridPoint| ZoneChangedEvent {
            point: p,
            zone_color,
            zone_id,
            kind: ZoneChangedKind::PointRemoved,
        },
    )
}

/// One claim delta per coordinate, in order.
pub open spec fn adds_for(
    pts: Seq<GridPoint>,
    zone_color: u32,
    zone_id: u32,
) -> Seq<ZoneChangedEvent> {
    pts.map_values(
        |p: GridPoint| ZoneChangedEvent {
            point: p,
            zone_color,
            zone_id,
            kind: ZoneChangedKind::PointAdded,
        },
    )
}

/// The releases a merge emits: for each input group in order, one release
/// per claimed coordinate, in that group's class on that group's behalf.
pub open spec fn merge_removes(pre: ZoneEngine, ids: Seq<u16>) -> Seq<ZoneChangedEvent>
    decreases ids.len(),
{
    if ids.len() == 0 {
        Seq::empty()
    } else {
        removes_for(
            pre.groups@[pre.slot_of(ids[0])].zone.zone_points@,
            pre.groups@[pre.slot_of(ids[0])].zone.zone_color,
            ids[0] as u32,
        ) + merge_removes(pre, ids.drop_first())
    }
}

/// Append the coordinates of `pts` to `acc`, skipping any coordinate `acc`
/// already holds: the first occurrence of each coordinate is kept, in order.
pub open spec fn dedup_append(acc: Seq<GridPoint>, pts: Seq<GridPoint>) -> Seq<GridPoint>
    decreases pts.len(),
{
    if pts.len() == 0 {
        acc
    } else {
        let acc2 = if acc.contains(pts[0]) {
            acc
        } else {
            acc.push(pts[0])
        };
        dedup_append(acc2, pts.drop_first())
    }
}

/// `merge_union_seq`, generalized over the coordinates already collected.
pub open spec fn merge_union_acc(
    pre: ZoneEngine,
    ids: Seq<u16>,
    acc: Seq<GridPoint>,
) -> Seq<GridPoint>
    decreases ids.len(),
{
    if ids.len() == 0 {
        acc
    } else {
        merge_union_acc(
            pre,
            ids.drop_first(),
            dedup_append(acc, pre.groups@[pre.slot_of(ids[0])].zone.zone_points@),
        )
    }
}

/// The distinct coordinates the input groups claim, first occurrence kept,
/// in selection order and each group's own order: the union, coalesced.
pub open spec fn merge_union_seq(pre: ZoneEngine, ids: Seq<u16>) -> Seq<GridPoint> {
    merge_union_acc(pre, ids, Seq::<GridPoint>::empty())
}

/// The agents of the input groups, concatenated in selection order.
pub open spec fn merge_members(pre: ZoneEngine, ids: Seq<u16>) -> Seq<usize>
    decreases ids.len(),
{
    if ids.len() == 0 {
        Seq::empty()
    } else {
        pre.groups@[pre.slot_of(ids[0])].members@ + merge_members(pre, ids.drop_first())
    }
}

/// The union of the input groups' claimed coordinate sets.
pub open spec fn union_points(pre: ZoneEngine, ids: Seq<u16>) -> Set<GridPoint>
    decreases ids.len(),
{
    if ids.len() == 0 {
        Set::<GridPoint>::empty()
    } else {
        pre.model().points[ids[0]] + union_points(pre, ids.drop_first())
    }
}

/// A merge request is honoured iff it names at least two distinct live
/// groups and an id can still be minted.
pub open spec fn merge_ok(pre: ZoneEngine, ids: Seq<u16>) -> bool {
    &&& ids.len() >= 2
    &&& ids.no_duplicates()
    &&& forall|i: int| 0 <= i < ids.len() ==> pre.has_live_id(#[trigger] ids[i])
    &&& (pre.id_counter.count as u32) < ZonePointData::ZONE_ID_MASK
}

/// What a honoured merge did: the input groups are gone, one fresh group
/// carries all their agents and an empty membership, and the queue gained
/// all the releases followed by exactly one claim per distinct coordinate of
/// the union — shared coordinates are coalesced before any claim is emitted.
pub open spec fn merge_post(pre: ZoneEngine, post: ZoneEngine, ids: Seq<u16>, n: u16) -> bool {
    &&& n == pre.id_counter.count + 1
    &&& post.id_counter.count == n
    &&& post.has_live_id(n)
    &&& post.model().classes[n] == crate::codec::spec_id_to_zone(n as u32)
    &&& post.model().points[n] == Set::<GridPoint>::empty()
    &&& post.groups@[post.slot_of(n)].members@ == merge_members(pre, ids)
    &&& post.channel.events@ == pre.channel.events@ + merge_removes(pre, ids)
        + adds_for(
            merge_union_seq(pre, ids),
            crate::codec::spec_id_to_zone(n as u32),
            n as u32,
        )
    &&& post.grid == pre.grid
    &&& post.model().cells == pre.model().cells
    &&& forall|i: u16| #[trigger] post.has_live_id(i)
        <==> (i == n || (pre.has_live_id(i) && !ids.contains(i)))
    &&& forall|i: u16| #[trigger] post.has_live_id(i) && i != n
        ==> post.model().points[i] == pre.model().points[i]
            && post.model().classes[i] == pre.model().classes[i]
    &&& post.wf()
}

/// A split request is honoured iff it names a live group with at least two
/// agents and two ids can still be minted.
pub open spec fn split_ok(pre: ZoneEngine, id: u16) -> bool {
    &&& pre.has_live_id(id)
    &&& pre.groups@[pre.slot_of(id)].members@.len() >= 2
    &&& (pre.id_counter.count as int) + 2 <= ZonePointData::ZONE_ID_MASK as int
    &&& (pre.groups@.len() as int) + 2 <= usize::MAX as int
}

/// What a honoured split did: the input group is gone; two fresh groups of
/// distinct classes each start with an empty membership, carry the first and
/// the second half of the input group's agents, and the queue gained all the
/// releases followed by the claims for each half — the zone footprint is
/// claimed twice, once per half.
pub open spec fn split_post(pre: ZoneEngine, post: ZoneEngine, id: u16, n1: u16, n2: u16) -> bool {
    let j = pre.slot_of(id);
    let pts = pre.groups@[j].zone.zone_points@;
    let c_old = pre.groups@[j].zone.zone_color;
    let mems = pre.groups@[j].members@;
    let mid = mems.len() as int / 2;
    let c1 = crate::codec::spec_id_to_zone(n1 as u32);
    let c2 = crate::codec::spec_id_to_zone(n2 as u32);
    &&& n1 == pre.id_counter.count + 1
    &&& n2 == pre.id_counter.count + 2
    &&& post.id_counter.count == n2
    &&& post.has_live_id(n1) && post.has_live_id(n2)
    &&& post.model().classes[n1] == c1 && post.model().classes[n2] == c2
    &&& c1 != c2
    &&& post.model().points[n1] == Set::<GridPoint>::empty()
    &&& post.model().points[n2] == Set::<GridPoint>::empty()
    &&& post.groups@[post.slot_of(n1)].members@ == mems.take(mid)
    &&& post.groups@[post.slot_of(n2)].members@ == mems.skip(mid)
    &&& post.channel.events@ == pre.channel.events@ + removes_for(pts, c_old, id as u32)
        + adds_for(pts, c1, n1 as u32) + adds_for(pts, c2, n2 as u32)
    &&& post.grid == pre.grid
    &&& post.model().cells == pre.model().cells
    &&& forall|i: u16| #[trigger] post.has_live_id(i)
        <==> (i == n1 || i == n2 || (pre.has_live_id(i) && i != id))
    &&& forall|i: u16| #[trigger] post.has_live_id(i) && i != n1 && i != n2
        ==> post.model().points[i] == pre.model().points[i]
            && post.model().classes[i] == pre.model().classes[i]
    &&& post.wf()
}

/// A release scheduled in a prefix or a suffix is scheduled in the whole.
pub proof fn lemma_has_remove_app(
    a: Seq<ZoneChangedEvent>,
    b: Seq<ZoneChangedEvent>,
    p: GridPoint,
    z: u32,
)
    requires
        has_remove_for(a, p, z) || has_remove_for(b, p, z),
    ensures
        has_remove_for(a + b, p, z),
{
    if has_remove_for(a, p, z) {
        let i = choose|i: int|
            0 <= i < a.len() && (#[trigger] a[i]).kind == ZoneChangedKind::PointRemoved
                && a[i].point == p && a[i].zone_color == z;
        assert((a + b)[i] == a[i]);
    } else {
        let i = choose|i: int|
            0 <= i < b.len() && (#[trigger] b[i]).kind == ZoneChangedKind::PointRemoved
                && b[i].point == p && b[i].zone_color == z;
        assert((a + b)[a.len() + i] == b[i]);
    }
}

/// Queue hygiene is preserved by concatenation.
pub proof fn lemma_evs_ok_app(a: Seq<ZoneChangedEvent>, b: Seq<ZoneChangedEvent>)
    requires
        evs_ok(a),
        evs_ok(b),
    ensures
        evs_ok(a + b),
{
    assert forall|i: int| 0 <= i < (a + b).len()
        implies valid_zone((#[trigger] (a + b)[i]).zone_color)
            && (a + b)[i].zone_id <= ZonePointData::ZONE_ID_MASK by {
        if i < a.len() {
            assert((a + b)[i] == a[i]);
        } else {
            assert((a + b)[i] == b[i - a.len()]);
        }
    }
}

/// What one split request in a dispatched batch did: a honoured request
/// follows `split_post` and contributes the two new ids, an ignored one
/// leaves the engine unchanged and contributes nothing.
pub open spec fn split_step(pre: ZoneEngine, post: ZoneEngine, id: u16, created: Seq<u16>) -> bool {
    if split_ok(pre, id) {
        created.len() == 2 && split_post(pre, post, id, created[0], created[1])
    } else {
        post == pre && created == Seq::<u16>::empty()
    }
}

/// What a dispatched batch of split requests did: the requests are handled
/// in selection order, each against the state the previous ones left behind,
/// and the created ids accumulate in the same order.
pub open spec fn split_fold(
    pre: ZoneEngine,
    post: ZoneEngine,
    sel: Seq<u16>,
    created: Seq<u16>,
) -> bool
    decreases sel.len(),
{
    if sel.len() == 0 {
        post == pre && created == Seq::<u16>::empty()
    } else {
        exists|m: ZoneEngine, c1: Seq<u16>, c2: Seq<u16>|
            #![trigger split_step(m, post, sel.last(), c2), c1.add(c2)]
            {
                &&& created == c1 + c2
                &&& split_fold(pre, m, sel.drop_last(), c1)
                &&& split_step(m, post, sel.last(), c2)
            }
    }
}

/// Appending one id to a merge's input appends its releases and agents, and
/// folds its coordinates into the coalesced union.
pub proof fn lemma_merge_batches_snoc(pre: ZoneEngine, ids: Seq<u16>, x: u16)
    ensures
        merge_removes(pre, ids.push(x)) == merge_removes(pre, ids)
            + removes_for(
                pre.groups@[pre.slot_of(x)].zone.zone_points@,
                pre.groups@[pre.slot_of(x)].zone.zone_color,
                x as u32,
            ),
        merge_members(pre, ids.push(x)) == merge_members(pre, ids)
            + pre.groups@[pre.slot_of(x)].members@,
        merge_union_seq(pre, ids.push(x)) == dedup_append(
            merge_union_seq(pre, ids),
            pre.groups@[pre.slot_of(x)].zone.zone_points@,
        ),
    decreases ids.len(),
{
    lemma_merge_union_acc_snoc(pre, ids, x, Seq::<GridPoint>::empty());
    if ids.len() == 0 {
        assert(ids.push(x)[0] == x);
        assert(ids.push(x).drop_first() =~= Seq::<u16>::empty());
        assert(merge_removes(pre, ids.push(x).drop_first()) =~= Seq::<ZoneChangedEvent>::empty());
        assert(merge_members(pre, ids.push(x).drop_first()) =~= Seq::<usize>::empty());
        assert(merge_removes(pre, ids.push(x))
            =~= merge_removes(pre, ids)
                + removes_for(
                    pre.groups@[pre.slot_of(x)].zone.zone_points@,
                    pre.groups@[pre.slot_of(x)].zone.zone_color,
                    x as u32,
                ));
        assert(merge_members(pre, ids.push(x))
            =~= merge_members(pre, ids) + pre.groups@[pre.slot_of(x)].members@);
    } else {
        assert(ids.push(x)[0] == ids[0]);
        assert(ids.push(x).drop_first() =~= ids.drop_first().push(x));
        lemma_merge_batches_snoc(pre, ids.drop_first(), x);
        assert(merge_removes(pre, ids.push(x))
            =~= merge_removes(pre, ids)
                + removes_for(
                    pre.groups@[pre.slot_of(x)].zone.zone_points@,
                    pre.groups@[pre.slot_of(x)].zone.zone_color,
                    x as u32,
                ));
        assert(merge_members(pre, ids.push(x))
            =~= merge_members(pre, ids) + pre.groups@[pre.slot_of(x)].members@);
    }
}

/// Folding one more id into the generalized union appends its coordinates,
/// deduplicated against everything collected so far.
pub proof fn lemma_merge_union_acc_snoc(
    pre: ZoneEngine,
    ids: Seq<u16>,
    x: u16,
    acc: Seq<GridPoint>,
)
    ensures
        merge_union_acc(pre, ids.push(x), acc) == dedup_append(
            merge_union_acc(pre, ids, acc),
            pre.groups@[pre.slot_of(x)].zone.zone_points@,
        ),
    decreases ids.len(),
{
    let ptsx = pre.groups@[pre.slot_of(x)].zone.zone_points@;
    if ids.len() == 0 {
        assert(ids.push(x)[0] == x);
        assert(ids.push(x).drop_first() =~= Seq::<u16>::empty());
        assert(merge_union_acc(pre, ids.push(x), acc)
            == merge_union_acc(pre, Seq::<u16>::empty(), dedup_append(acc, ptsx)));
        assert(merge_union_acc(pre, Seq::<u16>::empty(), dedup_append(acc, ptsx))
            == dedup_append(acc, ptsx));
        assert(merge_union_acc(pre, ids, acc) == acc);
    } else {
        assert(ids.push(x)[0] == ids[0]);
        assert(ids.push(x).drop_first() =~= ids.drop_first().push(x));
        let d0 = dedup_append(acc, pre.groups@[pre.slot_of(ids[0])].zone.zone_points@);
        lemma_merge_union_acc_snoc(pre, ids.drop_first(), x, d0);
        assert(merge_union_acc(pre, ids.push(x), acc)
            == merge_union_acc(pre, ids.drop_first().push(x), d0));
        assert(merge_union_acc(pre, ids, acc) == merge_union_acc(pre, ids.drop_first(), d0));
    }
}

/// Pushing a coordinate adds exactly it to the sequence's coordinate set.
pub proof fn lemma_push_to_set(s: Seq<GridPoint>, p: GridPoint)
    ensures
        s.push(p).to_set() == s.to_set().insert(p),
{
    assert forall|q: GridPoint| #[trigger] s.push(p).to_set().contains(q)
        <==> s.to_set().insert(p).contains(q) by {
        if s.push(p).contains(q) {
            let l = choose|l: int| 0 <= l < s.push(p).len() && (#[trigger] s.push(p)[l]) == q;
            if l < s.len() {
                assert(s[l] == q);
            }
        }
        if q == p {
            assert(s.push(p)[s.len() as int] == p);
        }
        if s.contains(q) {
            let l = choose|l: int| 0 <= l < s.len() && (#[trigger] s[l]) == q;
            assert(s.push(p)[l] == q);
        }
    }
    assert(s.push(p).to_set() =~= s.to_set().insert(p));
}

/// Deduplicating appends keeps the sequence duplicate-free and collects
/// exactly the union of the coordinate sets.
pub proof fn lemma_dedup_append_props(acc: Seq<GridPoint>, pts: Seq<GridPoint>)
    requires
        acc.no_duplicates(),
    ensures
        dedup_append(acc, pts).no_duplicates(),
        dedup_append(acc, pts).to_set() == acc.to_set() + pts.to_set(),
    decreases pts.len(),
{
    if pts.len() == 0 {
        assert(dedup_append(acc, pts).to_set() =~= acc.to_set() + pts.to_set()) by {
            assert(forall|q: GridPoint| !(#[trigger] pts.contains(q)));
        }
    } else {
        let p0 = pts[0];
        let acc2 = if acc.contains(p0) {
            acc
        } else {
            acc.push(p0)
        };
        assert(acc2.no_duplicates()) by {
            if !acc.contains(p0) {
                assert forall|a: int, b: int|
                    0 <= a < acc2.len() && 0 <= b < acc2.len() && a != b
                    implies acc2[a] != acc2[b] by {
                    if a < acc.len() && b < acc.len() {
                        assert(acc2[a] == acc[a] && acc2[b] == acc[b]);
                    } else {
                        let (i, j) = if a < acc.len() { (a, b) } else { (b, a) };
                        assert(acc2[j] == p0 && acc2[i] == acc[i]);
                        assert(!acc.contains(acc2[j]));
                    }
                }
            }
        }
        assert(acc2.to_set() == acc.to_set().insert(p0)) by {
            if acc.contains(p0) {
                assert(acc.to_set().contains(p0));
                assert(acc.to_set() =~= acc.to_set().insert(p0));
            } else {
                lemma_push_to_set(acc, p0);
            }
        }
        lemma_dedup_append_props(acc2, pts.drop_first());
        assert(pts.to_set() == pts.drop_first().to_set().insert(p0)) by {
            assert forall|q: GridPoint| #[trigger] pts.to_set().contains(q)
                <==> pts.drop_first().to_set().insert(p0).contains(q) by {
                if pts.contains(q) {
                    let l = choose|l: int| 0 <= l < pts.len() && (#[trigger] pts[l]) == q;
                    if l > 0 {
                        assert(pts.drop_first()[l - 1] == q);
                    }
                }
                if pts.drop_first().contains(q) {
                    let l = choose|l: int|
                        0 <= l < pts.drop_first().len()
                            && (#[trigger] pts.drop_first()[l]) == q;
                    assert(pts[l + 1] == q);
                }
                assert(pts[0] == p0);
            }
            assert(pts.to_set() =~= pts.drop_first().to_set().insert(p0));
        }
        assert(dedup_append(acc, pts).to_set()
            =~= acc.to_set() + pts.to_set());
    }
}

/// Deduplicating one more coordinate appends it only if it is new.
pub proof fn lemma_dedup_append_snoc(acc: Seq<GridPoint>, pts: Seq<GridPoint>, p: GridPoint)
    ensures
        dedup_append(acc, pts.push(p)) == (if dedup_append(acc, pts).contains(p) {
            dedup_append(acc, pts)
        } else {
            dedup_append(acc, pts).push(p)
        }),
    decreases pts.len(),
{
    if pts.len() == 0 {
        assert(pts.push(p)[0] == p);
        assert(pts.push(p).drop_first() =~= Seq::<GridPoint>::empty());
        let accp = if acc.contains(p) {
            acc
        } else {
            acc.push(p)
        };
        assert(dedup_append(acc, pts.push(p))
            == dedup_append(accp, Seq::<GridPoint>::empty()));
        assert(dedup_append(accp, Seq::<GridPoint>::empty()) == accp);
        assert(dedup_append(acc, pts) == acc);
    } else {
        assert(pts.push(p)[0] == pts[0]);
        assert(pts.push(p).drop_first() =~= pts.drop_first().push(p));
        let acc2 = if acc.contains(pts[0]) {
            acc
        } else {
            acc.push(pts[0])
        };
        lemma_dedup_append_snoc(acc2, pts.drop_first(), p);
        assert(dedup_append(acc, pts.push(p))
            == dedup_append(acc2, pts.drop_first().push(p)));
        assert(dedup_append(acc, pts) == dedup_append(acc2, pts.drop_first()));
    }
}

/// The coalesced union sequence is duplicate-free, holds exactly the union
/// of the input groups' point sets (so its length is the union's size, not
/// the sum of the inputs'), and every coordinate on it is in bounds.
pub proof fn lemma_merge_union_props(pre: ZoneEngine, ids: Seq<u16>)
    requires
        pre.wf(),
        forall|i: int| 0 <= i < ids.len() ==> pre.has_live_id(#[trigger] ids[i]),
    ensures
        merge_union_seq(pre, ids).no_duplicates(),
        merge_union_seq(pre, ids).to_set() == union_points(pre, ids),
        merge_union_seq(pre, ids).len() == union_points(pre, ids).len(),
        forall|l: int| 0 <= l < merge_union_seq(pre, ids).len()
            ==> crate::grid::in_world_bounds(
                (#[trigger] merge_union_seq(pre, ids)[l]),
                pre.model().width,
                pre.model().height,
            ),
{
    lemma_merge_union_acc_props(pre, ids, Seq::<GridPoint>::empty());
    let useq = merge_union_seq(pre, ids);
    assert(useq.to_set() =~= union_points(pre, ids)) by {
        assert(forall|q: GridPoint| !(#[trigger] Seq::<GridPoint>::empty().contains(q)));
        assert(Seq::<GridPoint>::empty().to_set() =~= Set::<GridPoint>::empty());
    }
    useq.unique_seq_to_set();
}

/// `lemma_merge_union_props`, generalized over the coordinates already
/// collected.
pub proof fn lemma_merge_union_acc_props(pre: ZoneEngine, ids: Seq<u16>, acc: Seq<GridPoint>)
    requires
        pre.wf(),
        forall|i: int| 0 <= i < ids.len() ==> pre.has_live_id(#[trigger] ids[i]),
        acc.no_duplicates(),
        forall|l: int| 0 <= l < acc.len()
            ==> crate::grid::in_world_bounds(
                (#[trigger] acc[l]),
                pre.model().width,
                pre.model().height,
            ),
    ensures
        merge_union_acc(pre, ids, acc).no_duplicates(),
        merge_union_acc(pre, ids, acc).to_set() == acc.to_set() + union_points(pre, ids),
        forall|l: int| 0 <= l < merge_union_acc(pre, ids, acc).len()
            ==> crate::grid::in_world_bounds(
                (#[trigger] merge_union_acc(pre, ids, acc)[l]),
                pre.model().width,
                pre.model().height,
            ),
    decreases ids.len(),
{
    if ids.len() == 0 {
        assert(merge_union_acc(pre, ids, acc).to_set()
            =~= acc.to_set() + union_points(pre, ids));
    } else {
        let id0 = ids[0];
        let sj = pre.slot_of(id0);
        assert(pre.live_at(sj) && pre.groups@[sj].group.id == id0) by {
            assert(pre.has_live_id(id0));
        }
        let pts = pre.groups@[sj].zone.zone_points@;
        assert(pre.model().points[id0] == pts.to_set());
        // the group's coordinates are granted by the raster, hence in bounds
        assert forall|l: int| 0 <= l < pts.len()
            implies crate::grid::in_world_bounds(
                (#[trigger] pts[l]),
                pre.model().width,
                pre.model().height,
            ) by {
            assert(pts.to_set().contains(pts[l]));
            assert(pre.model().points[id0].contains(pts[l]));
        }
        let d = dedup_append(acc, pts);
        lemma_dedup_append_props(acc, pts);
        assert forall|l: int| 0 <= l < d.len()
            implies crate::grid::in_world_bounds(
                (#[trigger] d[l]),
                pre.model().width,
                pre.model().height,
            ) by {
            assert(d.to_set().contains(d[l]));
            if acc.to_set().contains(d[l]) {
                let t = choose|t: int| 0 <= t < acc.len() && (#[trigger] acc[t]) == d[l];
            } else {
                assert(pts.to_set().contains(d[l]));
                let t = choose|t: int| 0 <= t < pts.len() && (#[trigger] pts[t]) == d[l];
            }
        }
        assert(forall|i: int| 0 <= i < ids.drop_first().len()
            ==> pre.has_live_id(#[trigger] ids.drop_first()[i]));
        lemma_merge_union_acc_props(pre, ids.drop_first(), d);
        assert(merge_union_acc(pre, ids, acc).to_set()
            =~= acc.to_set() + union_points(pre, ids)) by {
            assert(merge_union_acc(pre, ids, acc) == merge_union_acc(pre, ids.drop_first(), d));
            assert(union_points(pre, ids)
                == pre.model().points[id0] + union_points(pre, ids.drop_first()));
        }
    }
}

/// Every coordinate an input group claims has a scheduled release, in that
/// group's class, among the merge's releases.
pub proof fn lemma_merge_removes_cover(pre: ZoneEngine, ids: Seq<u16>, i: int, p: GridPoint)
    requires
        pre.unique_ids(),
        0 <= i < ids.len(),
        pre.has_live_id(ids[i]),
        pre.model().points[ids[i]].contains(p),
    ensures
        has_remove_for(
            merge_removes(pre, ids),
            p,
            pre.groups@[pre.slot_of(ids[i])].zone.zone_color,
        ),
    decreases ids.len(),
{
    let z = pre.groups@[pre.slot_of(ids[i])].zone.zone_color;
    let head = removes_for(
        pre.groups@[pre.slot_of(ids[0])].zone.zone_points@,
        pre.groups@[pre.slot_of(ids[0])].zone.zone_color,
        ids[0] as u32,
    );
    if i == 0 {
        let pts = pre.groups@[pre.slot_of(ids[0])].zone.zone_points@;
        assert(pre.model().points[ids[0]] == pts.to_set());
        let l = choose|l: int| 0 <= l < pts.len() && (#[trigger] pts[l]) == p;
        assert(head[l].kind == ZoneChangedKind::PointRemoved && head[l].point == p
            && head[l].zone_color == z);
        assert(has_remove_for(head, p, z));
        lemma_has_remove_app(head, merge_removes(pre, ids.drop_first()), p, z);
    } else {
        assert(ids.drop_first()[i - 1] == ids[i]);
        lemma_merge_removes_cover(pre, ids.drop_first(), i - 1, p);
        lemma_has_remove_app(head, merge_removes(pre, ids.drop_first()), p, z);
    }
}

/// The merge releases are hygienic: each carries its input group's valid
/// class and 14-bit id.
pub proof fn lemma_merge_removes_ok(pre: ZoneEngine, ids: Seq<u16>)
    requires
        pre.wf(),
        forall|i: int| 0 <= i < ids.len() ==> pre.has_live_id(#[trigger] ids[i]),
    ensures
        evs_ok(merge_removes(pre, ids)),
        forall|l: int| 0 <= l < merge_removes(pre, ids).len()
            ==> (#[trigger] merge_removes(pre, ids)[l]).kind == ZoneChangedKind::PointRemoved,
    decreases ids.len(),
{
    let rems = merge_removes(pre, ids);
    if ids.len() != 0 {
        let id0 = ids[0];
        let sj = pre.slot_of(id0);
        assert(pre.live_at(sj) && pre.groups@[sj].group.id == id0) by {
            assert(pre.has_live_id(id0));
        }
        let pts = pre.groups@[sj].zone.zone_points@;
        let c0 = pre.groups@[sj].zone.zone_color;
        let head_r = removes_for(pts, c0, id0 as u32);
        assert(valid_zone(c0) && (id0 as u32) <= ZonePointData::ZONE_ID_MASK) by {
            assert(pre.groups@[sj].wf());
        }
        assert(forall|i: int| 0 <= i < ids.drop_first().len()
            ==> pre.has_live_id(#[trigger] ids.drop_first()[i]));
        lemma_merge_removes_ok(pre, ids.drop_first());
        let rems_t = merge_removes(pre, ids.drop_first());
        assert(evs_ok(head_r)) by {
            assert(forall|l: int| 0 <= l < head_r.len()
                ==> (#[trigger] head_r[l]) == removes_for(pts, c0, id0 as u32)[l]);
        }
        lemma_evs_ok_app(head_r, rems_t);
        assert(rems == head_r + rems_t);
        assert forall|l: int| 0 <= l < rems.len()
            implies (#[trigger] rems[l]).kind == ZoneChangedKind::PointRemoved by {
            if l < head_r.len() {
                assert(rems[l] == head_r[l]);
            } else {
                assert(rems[l] == rems_t[l - head_r.len()]);
            }
        }
    }
}

/// The concatenated agents of distinct live groups are distinct agents, each
/// back-referencing the slot of one of the input groups.
pub proof fn lemma_merge_members_props(pre: ZoneEngine, ids: Seq<u16>)
    requires
        pre.wf(),
        ids.no_duplicates(),
        forall|i: int| 0 <= i < ids.len() ==> pre.has_live_id(#[trigger] ids[i]),
    ensures
        merge_members(pre, ids).no_duplicates(),
        forall|l: int| 0 <= l < merge_members(pre, ids).len()
            ==> (#[trigger] merge_members(pre, ids)[l]) < pre.bots@.len()
                && exists|i: int| 0 <= i < ids.len()
                    && pre.bots@[merge_members(pre, ids)[l] as int].group
                        == pre.slot_of(#[trigger] ids[i]),
    decreases ids.len(),
{
    let mm = merge_members(pre, ids);
    if ids.len() == 0 {
        assert(mm =~= Seq::<usize>::empty());
    } else {
        let id0 = ids[0];
        assert(pre.has_live_id(id0));
        let sj = pre.slot_of(id0);
        assert(pre.live_at(sj) && pre.groups@[sj].group.id == id0);
        let head = pre.groups@[sj].members@;
        let tail = merge_members(pre, ids.drop_first());
        assert(mm == head + tail);
        assert(forall|i: int| 0 <= i < ids.drop_first().len()
            ==> pre.has_live_id(#[trigger] ids.drop_first()[i]));
        lemma_merge_members_props(pre, ids.drop_first());
        // the head's agents sit in the head group's slot
        assert(forall|k: int| 0 <= k < head.len()
            ==> (#[trigger] head[k]) < pre.bots@.len()
                && pre.bots@[head[k] as int].group == sj);
        // distinct ids live in distinct slots
        assert forall|i: int| 0 < i < ids.len()
            implies pre.slot_of(#[trigger] ids[i]) != sj by {
            assert(pre.has_live_id(ids[i]));
            let sl = pre.slot_of(ids[i]);
            assert(pre.live_at(sl) && pre.groups@[sl].group.id == ids[i]);
            if sl == sj {
                assert(ids[i] == id0);
                assert(false);
            }
        }
        assert forall|a: int, b: int|
            0 <= a < mm.len() && 0 <= b < mm.len() && a != b
            implies mm[a] != mm[b] by {
            if a < head.len() && b < head.len() {
                assert(pre.groups@[sj].wf());
            } else if a >= head.len() && b >= head.len() {
                assert(mm[a] == tail[a - head.len()]);
                assert(mm[b] == tail[b - head.len()]);
            } else {
                let (h, t) = if a < head.len() { (a, b) } else { (b, a) };
                assert(mm[h] == head[h]);
                assert(mm[t] == tail[t - head.len()]);
                let i = choose|i: int|
                    0 <= i < ids.drop_first().len()
                        && pre.bots@[tail[t - head.len()] as int].group
                            == pre.slot_of(#[trigger] ids.drop_first()[i]);
                assert(ids.drop_first()[i] == ids[i + 1]);
                assert(pre.bots@[tail[t - head.len()] as int].group != sj);
                assert(pre.bots@[head[h] as int].group == sj);
            }
        }
        assert forall|l: int| 0 <= l < mm.len()
            implies (#[trigger] mm[l]) < pre.bots@.len()
                && exists|i: int| 0 <= i < ids.len()
                    && pre.bots@[mm[l] as int].group == pre.slot_of(#[trigger] ids[i]) by {
            if l < head.len() {
                assert(mm[l] == head[l]);
                assert(pre.bots@[mm[l] as int].group == pre.slot_of(ids[0]));
            } else {
                assert(mm[l] == tail[l - head.len()]);
                let i = choose|i: int|
                    0 <= i < ids.drop_first().len()
                        && pre.bots@[tail[l - head.len()] as int].group
                            == pre.slot_of(#[trigger] ids.drop_first()[i]);
                assert(ids.drop_first()[i] == ids[i + 1]);
                assert(pre.bots@[mm[l] as int].group == pre.slot_of(ids[i + 1]));
            }
        }
    }
}

/// Append `p` unless the list already holds it; the list stays
/// duplicate-free.
fn push_point_unique(pts: &mut Vec<GridPoint>, p: GridPoint)
    requires
        old(pts)@.no_duplicates(),
    ensures
        final(pts)@.no_duplicates(),
        final(pts)@ == (if old(pts)@.contains(p) {
            old(pts)@
        } else {
            old(pts)@.push(p)
        }),
{
    let mut i: usize = 0;
    while i < pts.len()
        invariant
            pts@ == old(pts)@,
            old(pts)@.no_duplicates(),
            0 <= i <= pts@.len(),
            forall|l: int| 0 <= l < i ==> pts@[l] != p,
        decreases pts@.len() - i,
    {
        if pts[i] == p {
            return;
        }
        i = i + 1;
    }
    proof {
        assert(!old(pts)@.contains(p));
    }
    pts.push(p);
    proof {
        assert forall|a: int, b: int|
            0 <= a < pts@.len() && 0 <= b < pts@.len() && a != b
            implies pts@[a] != pts@[b] by {
            if a < old(pts)@.len() && b < old(pts)@.len() {
                assert(pts@[a] == old(pts)@[a] && pts@[b] == old(pts)@[b]);
            } else {
                let (u, v) = if a < old(pts)@.len() { (a, b) } else { (b, a) };
                assert(pts@[v] == p && pts@[u] == old(pts)@[u]);
            }
        }
    }
}

impl ZoneEngine {
    /// Reparent one agent.
    fn bot_set_group(&mut self, b: usize, g: usize)
        requires
            b < old(self).bots@.len(),
        ensures
            final(self).bots@ == old(self).bots@.update(
                b as int,
                crate::groups::Nanobot { group: g },
            ),
            final(self).grid == old(self).grid,
            final(self).groups == old(self).groups,
            final(self).id_counter == old(self).id_counter,
            final(self).channel == old(self).channel,
    {
        let bot = &mut self.bots[b];
        bot.group = g;
    }

    /// Enqueue a release of every coordinate the group in slot `j` claims, in
    /// its class on its behalf. Touches only the channel.
    fn enqueue_releases_of_slot(&mut self, j: usize)
        requires
            j < old(self).groups@.len(),
        ensures
            final(self).channel.events@ == old(self).channel.events@
                + removes_for(
                    old(self).groups@[j as int].zone.zone_points@,
                    old(self).groups@[j as int].zone.zone_color,
                    old(self).groups@[j as int].group.id as u32,
                ),
            final(self).grid == old(self).grid,
            final(self).groups == old(self).groups,
            final(self).bots == old(self).bots,
            final(self).id_counter == old(self).id_counter,
    {
        let ghost pre = *self;
        let ghost pts = self.groups@[j as int].zone.zone_points@;
        let ghost color = self.groups@[j as int].zone.zone_color;
        let ghost gid = self.groups@[j as int].group.id as u32;
        let n = self.groups[j].zone.zone_points.len();
        let zone_id = self.groups[j].group.id as u32;
        let zone_color = self.groups[j].zone.zone_color;
        let mut k: usize = 0;
        proof {
            assert(pre.channel.events@ + removes_for(pts.take(0), color, gid)
                =~= pre.channel.events@);
        }
        while k < n
            invariant
                0 <= k <= n,
                n == pts.len(),
                color == zone_color,
                gid == zone_id,
                self.groups == pre.groups,
                pts == self.groups@[j as int].zone.zone_points@,
                j < self.groups@.len(),
                self.channel.events@ == pre.channel.events@
                    + removes_for(pts.take(k as int), color, gid),
                self.grid == pre.grid,
                self.bots == pre.bots,
                self.id_counter == pre.id_counter,
            decreases n - k,
        {
            let p = self.groups[j].zone.zone_points[k];
            self.channel.enqueue(ZoneChangedEvent {
                point: p,
                zone_color,
                zone_id,
                kind: ZoneChangedKind::PointRemoved,
            });
            proof {
                assert(removes_for(pts.take(k as int + 1), color, gid)
                    =~= removes_for(pts.take(k as int), color, gid).push(
                        ZoneChangedEvent {
                            point: pts[k as int],
                            zone_color: color,
                            zone_id: gid,
                            kind: ZoneChangedKind::PointRemoved,
                        },
                    ));
                assert(self.channel.events@ =~= pre.channel.events@
                    + removes_for(pts.take(k as int + 1), color, gid));
            }
            k = k + 1;
        }
        proof {
            assert(pts.take(n as int) =~= pts);
        }
    }

    /// Enqueue a claim of every coordinate the group in slot `j` claims, for
    /// the given class and group id. Touches only the channel.
    fn enqueue_claims_of_slot(&mut self, j: usize, zone_color: u32, zone_id: u32)
        requires
            j < old(self).groups@.len(),
        ensures
            final(self).channel.events@ == old(self).channel.events@
                + adds_for(old(self).groups@[j as int].zone.zone_points@, zone_color, zone_id),
            final(self).grid == old(self).grid,
            final(self).groups == old(self).groups,
            final(self).bots == old(self).bots,
            final(self).id_counter == old(self).id_counter,
    {
        let ghost pre = *self;
        let ghost pts = self.groups@[j as int].zone.zone_points@;
        let n = self.groups[j].zone.zone_points.len();
        let mut k: usize = 0;
        proof {
            assert(pre.channel.events@ + adds_for(pts.take(0), zone_color, zone_id)
                =~= pre.channel.events@);
        }
        while k < n
            invariant
                0 <= k <= n,
                n == pts.len(),
                self.groups == pre.groups,
                pts == self.groups@[j as int].zone.zone_points@,
                j < self.groups@.len(),
                self.channel.events@ == pre.channel.events@
                    + adds_for(pts.take(k as int), zone_color, zone_id),
                self.grid == pre.grid,
                self.bots == pre.bots,
                self.id_counter == pre.id_counter,
            decreases n - k,
        {
            let p = self.groups[j].zone.zone_points[k];
            self.channel.enqueue(ZoneChangedEvent {
                point: p,
                zone_color,
                zone_id,
                kind: ZoneChangedKind::PointAdded,
            });
            proof {
                assert(adds_for(pts.take(k as int + 1), zone_color, zone_id)
                    =~= adds_for(pts.take(k as int), zone_color, zone_id).push(
                        ZoneChangedEvent {
                            point: pts[k as int],
                            zone_color,
                            zone_id,
                            kind: ZoneChangedKind::PointAdded,
                        },
                    ));
                assert(self.channel.events@ =~= pre.channel.events@
                    + adds_for(pts.take(k as int + 1), zone_color, zone_id));
            }
            k = k + 1;
        }
        proof {
            assert(pts.take(n as int) =~= pts);
        }
    }

    /// Mark the group in slot `j` dead. Touches nothing else.
    fn retire_slot(&mut self, j: usize)
        requires
            j < old(self).groups@.len(),
        ensures
            final(self).groups@.len() == old(self).groups@.len(),
            forall|l: int| 0 <= l < old(self).groups@.len() && l != j
                ==> final(self).groups@[l] == old(self).groups@[l],
            final(self).groups@[j as int].live == false,
            final(self).groups@[j as int].group == old(self).groups@[j as int].group,
            final(self).groups@[j as int].zone == old(self).groups@[j as int].zone,
            final(self).groups@[j as int].members == old(self).groups@[j as int].members,
            final(self).grid == old(self).grid,
            final(self).bots == old(self).bots,
            final(self).id_counter == old(self).id_counter,
            final(self).channel == old(self).channel,
    {
        let rec = &mut self.groups[j];
        rec.live = false;
    }

    /// Despawn the live group `id`: enqueue a release of every coordinate it
    /// claims and retire its record. Its agents stay, orphaned, where they
    /// are. Returns whether such a group existed.
    pub fn despawn_group(&mut self, id: u16) -> (r: bool)
        requires
            old(self).wf(),
        ensures
            final(self).wf(),
            r == old(self).has_live_id(id),
            !r ==> *final(self) == *old(self),
            r ==> {
                let j = old(self).slot_of(id);
                &&& !final(self).has_live_id(id)
                &&& final(self).channel.events@ == old(self).channel.events@
                    + removes_for(
                        old(self).groups@[j].zone.zone_points@,
                        old(self).groups@[j].zone.zone_color,
                        id as u32,
                    )
                &&& final(self).grid == old(self).grid
                &&& final(self).bots == old(self).bots
                &&& final(self).id_counter == old(self).id_counter
                &&& final(self).groups@.len() == old(self).groups@.len()
                &&& forall|l: int| 0 <= l < old(self).groups@.len() && l != j
                    ==> final(self).groups@[l] == old(self).groups@[l]
                &&& final(self).model().cells == old(self).model().cells
                &&& forall|i: u16| #[trigger] final(self).has_live_id(i)
                    <==> (old(self).has_live_id(i) && i != id)
                &&& forall|i: u16| #[trigger] final(self).has_live_id(i)
                    ==> final(self).model().points[i] == old(self).model().points[i]
                        && final(self).model().classes[i] == old(self).model().classes[i]
            },
    {
        let ghost pre = *self;
        match self.find_live_group_by_id(id) {
            None => false,
            Some(j) => {
                proof {
                    self.lemma_slot_of(j as int);
                }
                self.enqueue_releases_of_slot(j);
                self.retire_slot(j);
                proof {
                    let post = *self;
                    let mp = pre.model();
                    let mq = post.model();
                    let j = j as int;
                    // liveness: exactly `id` went away
                    assert forall|i: u16| #[trigger] post.has_live_id(i)
                        implies pre.has_live_id(i) && i != id by {
                        let l = post.slot_of(i);
                        assert(post.live_at(l) && post.groups@[l].group.id == i);
                        assert(l != j);
                        assert(pre.live_at(l) && pre.groups@[l].group.id == i);
                        if i == id {
                            assert(pre.unique_ids());
                            assert(pre.live_at(j) && pre.groups@[j].group.id == id);
                            assert(false);
                        }
                    }
                    assert forall|i: u16| pre.has_live_id(i) && i != id
                        implies #[trigger] post.has_live_id(i) by {
                        let l = pre.slot_of(i);
                        assert(pre.live_at(l) && pre.groups@[l].group.id == i);
                        assert(l != j);
                        assert(post.live_at(l) && post.groups@[l].group.id == i);
                    }
                    assert(post.unique_ids());
                    assert forall|i: u16| #[trigger] post.has_live_id(i)
                        implies post.slot_of(i) == pre.slot_of(i)
                            && post.model().points[i] == pre.model().points[i]
                            && post.model().classes[i] == pre.model().classes[i] by {
                        let l = pre.slot_of(i);
                        assert(pre.live_at(l) && pre.groups@[l].group.id == i);
                        assert(l != j);
                        assert(post.live_at(l) && post.groups@[l].group.id == i);
                        post.lemma_slot_of_unique(l, i);
                    }
                    assert(mq.cells =~= mp.cells);
                    // the abstract state stays well-formed
                    assert(crate::model::model_wf(mq)) by {
                        assert forall|i: u16, p: GridPoint|
                            mq.points.dom().contains(i) && #[trigger] mq.points[i].contains(p)
                            implies crate::grid::in_world_bounds(p, mq.width, mq.height)
                                && mq.cells[(p, mq.classes[i])] == Some(i as u32) by {
                            assert(pre.has_live_id(i));
                            assert(mp.points[i].contains(p));
                        }
                    }
                    // every stale raster entry is still scheduled for release:
                    // the cells the dead group claimed are covered by the new
                    // releases, everything else by the old queue
                    let pts = pre.groups@[j].zone.zone_points@;
                    let color = pre.groups@[j].zone.zone_color;
                    let rems = removes_for(pts, color, id as u32);
                    assert(covered(mq, post.channel.events@)) by {
                        assert forall|p: GridPoint, z: u32|
                            crate::grid::in_world_bounds(p, mq.width, mq.height)
                                && valid_zone(z)
                                && (#[trigger] mq.cells[(p, z)]) is Some
                                && !mq.owner_claims(p, z)
                            implies has_remove_for(post.channel.events@, p, z) by {
                            let o = mq.cells[(p, z)]->Some_0;
                            assert(mp.cells[(p, z)] == Some(o));
                            if mp.owner_claims(p, z) {
                                let ou = o as u16;
                                assert(pre.has_live_id(ou));
                                if ou == id {
                                    // covered by the new releases
                                    assert(pre.slot_of(id) == j);
                                    assert(mp.points[id] == pts.to_set());
                                    assert(mp.classes[id] == color);
                                    assert(z == color);
                                    assert(pts.to_set().contains(p));
                                    let l = choose|l: int|
                                        0 <= l < pts.len() && (#[trigger] pts[l]) == p;
                                    assert(rems[l].kind == ZoneChangedKind::PointRemoved
                                        && rems[l].point == p && rems[l].zone_color == z);
                                    assert(post.channel.events@[pre.channel.events@.len() + l]
                                        == rems[l]);
                                } else {
                                    assert(mq.owner_claims(p, z));
                                    assert(false);
                                }
                            } else {
                                // covered by the old queue
                                assert(has_remove_for(pre.channel.events@, p, z));
                                let w = choose|w: int|
                                    0 <= w < pre.channel.events@.len()
                                        && (#[trigger] pre.channel.events@[w]).kind
                                            == ZoneChangedKind::PointRemoved
                                        && pre.channel.events@[w].point == p
                                        && pre.channel.events@[w].zone_color == z;
                                assert(post.channel.events@[w] == pre.channel.events@[w]);
                            }
                        }
                    }
                    assert(evs_ok(post.channel.events@)) by {
                        assert forall|l: int| 0 <= l < post.channel.events@.len()
                            implies valid_zone(
                                (#[trigger] post.channel.events@[l]).zone_color,
                            ) && post.channel.events@[l].zone_id <= ZonePointData::ZONE_ID_MASK by {
                            if l < pre.channel.events@.len() {
                                assert(post.channel.events@[l] == pre.channel.events@[l]);
                            } else {
                                assert(post.channel.events@[l]
                                    == rems[l - pre.channel.events@.len()]);
                                assert(rems[l - pre.channel.events@.len()].zone_color == color);
                            }
                        }
                    }
                    assert(post.wf());
                }
                true
            },
        }
    }

    /// Merge the selected live groups: enqueue a release of every coordinate
    /// each of them claims, then exactly one claim per distinct coordinate of
    /// their union — coordinates shared between inputs are coalesced before
    /// any claim is emitted — for a freshly minted group that inherits all
    /// their agents; the input groups are retired. All releases of a
    /// coordinate are enqueued before any claim of it, so no drain ever
    /// records two owners in one class. Requests naming fewer than two ids, a
    /// dead or repeated id, or arriving with the id space exhausted are
    /// ignored.
    pub fn merge_groups(&mut self, ids: &Vec<u16>) -> (r: Option<u16>)
        requires
            old(self).wf(),
        ensures
            final(self).wf(),
            r is Some <==> merge_ok(*old(self), ids@),
            r matches Some(n) ==> merge_post(*old(self), *final(self), ids@, n),
            r is None ==> *final(self) == *old(self),
    {
        let ghost pre = *self;
        if ids.len() < 2 {
            return None;
        }
        if self.id_counter.count as u32 >= ZonePointData::ZONE_ID_MASK {
            return None;
        }
        // resolve every id to its live slot, rejecting repeats and dead ids
        let mut slots: Vec<usize> = Vec::new();
        let mut i: usize = 0;
        while i < ids.len()
            invariant
                *self == pre,
                pre == *old(self),
                pre.wf(),
                0 <= i <= ids@.len(),
                slots@.len() == i,
                forall|l: int| 0 <= l < i ==> pre.has_live_id(#[trigger] ids@[l]),
                forall|l: int| 0 <= l < i
                    ==> (#[trigger] slots@[l]) as int == pre.slot_of(ids@[l])
                        && slots@[l] < pre.groups@.len()
                        && pre.live_at(slots@[l] as int)
                        && pre.groups@[slots@[l] as int].group.id == ids@[l],
                forall|l1: int, l2: int|
                    #![trigger ids@[l1], ids@[l2]]
                    0 <= l1 < i && 0 <= l2 < i && l1 != l2 ==> ids@[l1] != ids@[l2],
            decreases ids@.len() - i,
        {
            let id_i = ids[i];
            let mut l: usize = 0;
            while l < i
                invariant
                    *self == pre,
                    pre == *old(self),
                    pre.wf(),
                    0 <= l <= i,
                    i < ids@.len(),
                    id_i == ids@[i as int],
                    forall|t: int| 0 <= t < l ==> ids@[t] != ids@[i as int],
                decreases i - l,
            {
                if ids[l] == id_i {
                    proof {
                        assert(!ids@.no_duplicates());
                    }
                    return None;
                }
                l = l + 1;
            }
            match self.find_live_group_by_id(id_i) {
                None => {
                    return None;
                },
                Some(j) => {
                    proof {
                        self.lemma_slot_of(j as int);
                    }
                    slots.push(j);
                },
            }
            i = i + 1;
        }
        proof {
            assert(merge_ok(pre, ids@));
            lemma_merge_members_props(pre, ids@);
        }
        // phase 1: enqueue all releases, in selection order
        let mut i: usize = 0;
        proof {
            assert(merge_removes(pre, ids@.take(0)) =~= Seq::<ZoneChangedEvent>::empty());
            assert(self.channel.events@ =~= pre.channel.events@
                + merge_removes(pre, ids@.take(0)));
        }
        while i < slots.len()
            invariant
                0 <= i <= slots@.len(),
                slots@.len() == ids@.len(),
                forall|l: int| 0 <= l < slots@.len()
                    ==> (#[trigger] slots@[l]) as int == pre.slot_of(ids@[l])
                        && slots@[l] < pre.groups@.len()
                        && pre.live_at(slots@[l] as int)
                        && pre.groups@[slots@[l] as int].group.id == ids@[l],
                self.groups == pre.groups,
                self.bots == pre.bots,
                self.grid == pre.grid,
                self.id_counter == pre.id_counter,
                self.channel.events@ == pre.channel.events@
                    + merge_removes(pre, ids@.take(i as int)),
            decreases slots@.len() - i,
        {
            let j = slots[i];
            self.enqueue_releases_of_slot(j);
            proof {
                lemma_merge_batches_snoc(pre, ids@.take(i as int), ids@[i as int]);
                assert(ids@.take(i as int).push(ids@[i as int]) =~= ids@.take(i as int + 1));
                assert(self.channel.events@ =~= pre.channel.events@
                    + merge_removes(pre, ids@.take(i as int + 1)));
            }
            i = i + 1;
        }
        proof {
            assert(ids@.take(ids@.len() as int) =~= ids@);
        }
        let ghost chan_a = self.channel.events@;
        // phase 2: collect the union of the input groups' coordinates,
        // coalescing any coordinate shared between inputs
        let mut union_pts: Vec<GridPoint> = Vec::new();
        let mut i: usize = 0;
        proof {
            assert(union_pts@
                =~= merge_union_acc(pre, ids@.take(0), Seq::<GridPoint>::empty()));
        }
        while i < slots.len()
            invariant
                0 <= i <= slots@.len(),
                slots@.len() == ids@.len(),
                forall|l: int| 0 <= l < slots@.len()
                    ==> (#[trigger] slots@[l]) as int == pre.slot_of(ids@[l])
                        && slots@[l] < pre.groups@.len(),
                self.groups == pre.groups,
                self.bots == pre.bots,
                self.grid == pre.grid,
                self.id_counter == pre.id_counter,
                self.channel.events@ == chan_a,
                union_pts@
                    == merge_union_acc(pre, ids@.take(i as int), Seq::<GridPoint>::empty()),
                union_pts@.no_duplicates(),
            decreases slots@.len() - i,
        {
            let j = slots[i];
            let ghost pts = pre.groups@[j as int].zone.zone_points@;
            let ghost acc0 = union_pts@;
            let n_p = self.groups[j].zone.zone_points.len();
            let mut k: usize = 0;
            proof {
                assert(union_pts@ =~= dedup_append(acc0, pts.take(0)));
            }
            while k < n_p
                invariant
                    0 <= k <= n_p,
                    0 <= i < slots@.len(),
                    j == slots@[i as int],
                    j < pre.groups@.len(),
                    n_p == pts.len(),
                    pts == pre.groups@[j as int].zone.zone_points@,
                    self.groups == pre.groups,
                    self.bots == pre.bots,
                    self.grid == pre.grid,
                    self.id_counter == pre.id_counter,
                    self.channel.events@ == chan_a,
                    union_pts@ == dedup_append(acc0, pts.take(k as int)),
                    union_pts@.no_duplicates(),
                decreases n_p - k,
            {
                let p = self.groups[j].zone.zone_points[k];
                proof {
                    lemma_dedup_append_snoc(acc0, pts.take(k as int), pts[k as int]);
                    assert(pts.take(k as int).push(pts[k as int]) =~= pts.take(k as int + 1));
                }
                push_point_unique(&mut union_pts, p);
                k = k + 1;
            }
            proof {
                assert(pts.take(n_p as int) =~= pts);
                lemma_merge_batches_snoc(pre, ids@.take(i as int), ids@[i as int]);
                assert(ids@.take(i as int).push(ids@[i as int]) =~= ids@.take(i as int + 1));
            }
            i = i + 1;
        }
        proof {
            assert(union_pts@ == merge_union_seq(pre, ids@));
        }
        let ghost useq = union_pts@;
        // phase 3: reparent every input group's agents to the new slot and
        // collect them in selection order
        let ji = self.groups.len();
        let mut members: Vec<usize> = Vec::new();
        let mut i: usize = 0;
        proof {
            assert(merge_members(pre, ids@.take(0)) =~= Seq::<usize>::empty());
            assert(members@ =~= merge_members(pre, ids@.take(0)));
        }
        while i < slots.len()
            invariant
                0 <= i <= slots@.len(),
                slots@.len() == ids@.len(),
                pre.wf(),
                ji == pre.groups@.len(),
                forall|l: int| 0 <= l < slots@.len()
                    ==> (#[trigger] slots@[l]) as int == pre.slot_of(ids@[l])
                        && slots@[l] < pre.groups@.len()
                        && pre.live_at(slots@[l] as int),
                self.groups == pre.groups,
                self.grid == pre.grid,
                self.id_counter == pre.id_counter,
                self.channel.events@ == chan_a,
                self.bots@.len() == pre.bots@.len(),
                members@ == merge_members(pre, ids@.take(i as int)),
                forall|l: int| 0 <= l < members@.len()
                    ==> (#[trigger] members@[l]) < self.bots@.len()
                        && self.bots@[members@[l] as int].group == ji,
                forall|b: usize| b < pre.bots@.len() && !members@.contains(b)
                    ==> #[trigger] self.bots@[b as int] == pre.bots@[b as int],
            decreases slots@.len() - i,
        {
            let j = slots[i];
            let ghost gmembers = pre.groups@[j as int].members@;
            let n_m = self.groups[j].members.len();
            let mut k: usize = 0;
            proof {
                assert(gmembers.take(0) =~= Seq::<usize>::empty());
                assert(members@ =~= merge_members(pre, ids@.take(i as int)) + gmembers.take(0));
            }
            while k < n_m
                invariant
                    0 <= k <= n_m,
                    0 <= i < slots@.len(),
                    slots@.len() == ids@.len(),
                    pre.wf(),
                    ji == pre.groups@.len(),
                    j == slots@[i as int],
                    j < pre.groups@.len(),
                    pre.live_at(j as int),
                    n_m == gmembers.len(),
                    gmembers == pre.groups@[j as int].members@,
                    self.groups == pre.groups,
                    self.grid == pre.grid,
                    self.id_counter == pre.id_counter,
                    self.channel.events@ == chan_a,
                    self.bots@.len() == pre.bots@.len(),
                    members@ == merge_members(pre, ids@.take(i as int))
                        + gmembers.take(k as int),
                    forall|l: int| 0 <= l < members@.len()
                        ==> (#[trigger] members@[l]) < self.bots@.len()
                            && self.bots@[members@[l] as int].group == ji,
                    forall|b: usize| b < pre.bots@.len() && !members@.contains(b)
                        ==> #[trigger] self.bots@[b as int] == pre.bots@[b as int],
                decreases n_m - k,
            {
                let b = self.groups[j].members[k];
                proof {
                    assert(b == gmembers[k as int]);
                    assert(b < pre.bots@.len());
                }
                let ghost members_before = members@;
                let ghost bots_before = self.bots@;
                self.bot_set_group(b, ji);
                members.push(b);
                proof {
                    assert(members@ == members_before.push(b));
                    assert(members@ =~= merge_members(pre, ids@.take(i as int))
                        + gmembers.take(k as int + 1));
                    assert forall|b2: usize|
                        b2 < pre.bots@.len() && !members@.contains(b2)
                        implies #[trigger] self.bots@[b2 as int] == pre.bots@[b2 as int] by {
                        assert(members@[members@.len() - 1] == b);
                        assert(b2 != b);
                        if members_before.contains(b2) {
                            let l = choose|l: int|
                                0 <= l < members_before.len()
                                    && (#[trigger] members_before[l]) == b2;
                            assert(members@[l] == b2);
                            assert(false);
                        }
                        assert(self.bots@[b2 as int] == bots_before[b2 as int]);
                    }
                    assert forall|l: int| 0 <= l < members@.len()
                        implies (#[trigger] members@[l]) < self.bots@.len()
                            && self.bots@[members@[l] as int].group == ji by {
                        if l < members_before.len() {
                            assert(members@[l] == members_before[l]);
                            if members_before[l] != b {
                                assert(self.bots@[members@[l] as int]
                                    == bots_before[members@[l] as int]);
                            }
                        } else {
                            assert(members@[l] == b);
                        }
                    }
                }
                k = k + 1;
            }
            proof {
                assert(gmembers.take(n_m as int) =~= gmembers);
                lemma_merge_batches_snoc(pre, ids@.take(i as int), ids@[i as int]);
                assert(ids@.take(i as int).push(ids@[i as int]) =~= ids@.take(i as int + 1));
                assert(members@ == merge_members(pre, ids@.take(i as int + 1)));
            }
            i = i + 1;
        }
        proof {
            assert(members@ == merge_members(pre, ids@));
        }
        let ghost bots_b = self.bots@;
        let ghost mm = members@;
        // phase 4: retire the input groups
        let mut i: usize = 0;
        while i < slots.len()
            invariant
                0 <= i <= slots@.len(),
                slots@.len() == ids@.len(),
                forall|l: int| 0 <= l < slots@.len()
                    ==> (#[trigger] slots@[l]) as int == pre.slot_of(ids@[l])
                        && slots@[l] < pre.groups@.len(),
                self.groups@.len() == pre.groups@.len(),
                forall|l: int| 0 <= l < pre.groups@.len()
                    ==> (#[trigger] self.groups@[l]).group == pre.groups@[l].group
                        && self.groups@[l].zone == pre.groups@[l].zone
                        && self.groups@[l].members == pre.groups@[l].members,
                forall|l: int| 0 <= l < pre.groups@.len()
                    ==> ((#[trigger] self.groups@[l]).live <==> (pre.groups@[l].live
                        && !(exists|i2: int| 0 <= i2 < i
                            && (#[trigger] slots@[i2]) as int == l))),
                self.bots@ == bots_b,
                self.grid == pre.grid,
                self.id_counter == pre.id_counter,
                self.channel.events@ == chan_a,
            decreases slots@.len() - i,
        {
            let j = slots[i];
            self.retire_slot(j);
            proof {
                assert forall|l: int| 0 <= l < pre.groups@.len()
                    implies ((#[trigger] self.groups@[l]).live <==> (pre.groups@[l].live
                        && !(exists|i2: int| 0 <= i2 < i + 1
                            && (#[trigger] slots@[i2]) as int == l))) by {
                    if l == j as int {
                        assert(slots@[i as int] as int == l);
                    }
                }
            }
            i = i + 1;
        }
        // phase 5: mint the merged group
        let new_id = self.id_counter.next_id();
        let zone_color = ZonePointData::id_to_zone(new_id as u32);
        self.groups.push(crate::groups::GroupRecord {
            live: true,
            group: crate::groups::NanobotGroup { id: new_id },
            zone: crate::membership::ZoneComponent::new(zone_color),
            members,
        });
        let ghost groups_d = self.groups@;
        // phase 6: enqueue one claim per distinct coordinate of the union
        let mut k: usize = 0;
        proof {
            assert(adds_for(useq.take(0), zone_color, new_id as u32)
                =~= Seq::<ZoneChangedEvent>::empty());
            assert(self.channel.events@ =~= chan_a
                + adds_for(useq.take(0), zone_color, new_id as u32));
        }
        while k < union_pts.len()
            invariant
                0 <= k <= useq.len(),
                useq == union_pts@,
                self.groups@ == groups_d,
                self.bots@ == bots_b,
                self.grid == pre.grid,
                self.id_counter.count == new_id,
                self.channel.events@ == chan_a
                    + adds_for(useq.take(k as int), zone_color, new_id as u32),
            decreases useq.len() - k,
        {
            let p = union_pts[k];
            self.channel.enqueue(ZoneChangedEvent {
                point: p,
                zone_color,
                zone_id: new_id as u32,
                kind: ZoneChangedKind::PointAdded,
            });
            proof {
                assert(adds_for(useq.take(k as int + 1), zone_color, new_id as u32)
                    =~= adds_for(useq.take(k as int), zone_color, new_id as u32).push(
                        ZoneChangedEvent {
                            point: useq[k as int],
                            zone_color,
                            zone_id: new_id as u32,
                            kind: ZoneChangedKind::PointAdded,
                        },
                    ));
                assert(self.channel.events@ =~= chan_a
                    + adds_for(useq.take(k as int + 1), zone_color, new_id as u32));
            }
            k = k + 1;
        }
        proof {
            assert(useq.take(useq.len() as int) =~= useq);
            self.lemma_merge_wf(pre, ids@, slots@, new_id, zone_color, mm, chan_a);
        }
        Some(new_id)
    }

    /// Assemble well-formedness and the merge postcondition from what the
    /// merge phases established.
    proof fn lemma_merge_wf(
        self,
        pre: ZoneEngine,
        ids: Seq<u16>,
        slots: Seq<usize>,
        n: u16,
        zone_color: u32,
        mm: Seq<usize>,
        chan_a: Seq<ZoneChangedEvent>,
    )
        requires
            pre.wf(),
            merge_ok(pre, ids),
            slots.len() == ids.len(),
            forall|l: int| 0 <= l < slots.len()
                ==> (#[trigger] slots[l]) as int == pre.slot_of(ids[l])
                    && slots[l] < pre.groups@.len(),
            n == pre.id_counter.count + 1,
            self.id_counter.count == n,
            zone_color == crate::codec::spec_id_to_zone(n as u32),
            mm == merge_members(pre, ids),
            self.groups@.len() == pre.groups@.len() + 1,
            forall|l: int| 0 <= l < pre.groups@.len()
                ==> (#[trigger] self.groups@[l]).group == pre.groups@[l].group
                    && self.groups@[l].zone == pre.groups@[l].zone
                    && self.groups@[l].members == pre.groups@[l].members,
            forall|l: int| 0 <= l < pre.groups@.len()
                ==> ((#[trigger] self.groups@[l]).live <==> (pre.groups@[l].live
                    && !(exists|i2: int| 0 <= i2 < slots.len()
                        && (#[trigger] slots[i2]) as int == l))),
            self.groups@[pre.groups@.len() as int].live == true,
            self.groups@[pre.groups@.len() as int].group.id == n,
            self.groups@[pre.groups@.len() as int].members@ == mm,
            self.groups@[pre.groups@.len() as int].zone.wf(),
            self.groups@[pre.groups@.len() as int].zone.zone_color == zone_color,
            self.groups@[pre.groups@.len() as int].zone.points() == Set::<GridPoint>::empty(),
            self.bots@.len() == pre.bots@.len(),
            forall|l: int| 0 <= l < mm.len()
                ==> (#[trigger] mm[l]) < self.bots@.len()
                    && self.bots@[mm[l] as int].group == pre.groups@.len(),
            forall|b: usize| b < pre.bots@.len() && !mm.contains(b)
                ==> #[trigger] self.bots@[b as int] == pre.bots@[b as int],
            self.grid == pre.grid,
            chan_a == pre.channel.events@ + merge_removes(pre, ids),
            self.channel.events@ == chan_a
                + adds_for(merge_union_seq(pre, ids), zone_color, n as u32),
        ensures
            self.wf(),
            merge_post(pre, self, ids, n),
    {
        let post = self;
        let mp = pre.model();
        let li = pre.groups@.len() as int;
        let rems = merge_removes(pre, ids);
        let adds = adds_for(merge_union_seq(pre, ids), zone_color, n as u32);
        assert(valid_zone(zone_color));
        assert((n as u32) <= ZonePointData::ZONE_ID_MASK && 1 <= n);
        lemma_merge_removes_ok(pre, ids);
        lemma_adds_for_props(merge_union_seq(pre, ids), zone_color, n as u32);
        assert(evs_ok(adds)) by {
            assert forall|l: int| 0 <= l < adds.len()
                implies valid_zone((#[trigger] adds[l]).zone_color)
                    && adds[l].zone_id <= ZonePointData::ZONE_ID_MASK by {
                assert(adds[l].zone_color == zone_color);
                assert(adds[l].zone_id == ((n as u32) as u16) as u32);
            }
        }
        lemma_merge_members_props(pre, ids);
        assert(!pre.has_live_id(n)) by {
            if pre.has_live_id(n) {
                let l = pre.slot_of(n);
                assert(pre.live_at(l) && pre.groups@[l].group.id == n);
                assert(pre.groups@[l].group.id <= pre.id_counter.count);
            }
        }
        assert(post.live_at(li) && post.groups@[li].group.id == n);
        assert(post.unique_ids()) by {
            assert forall|j: int, k: int|
                post.live_at(j) && post.live_at(k) && j != k
                implies (#[trigger] post.groups@[j]).group.id
                    != (#[trigger] post.groups@[k]).group.id by {
                if j < li && k < li {
                    assert(pre.live_at(j) && pre.live_at(k));
                } else if j == li {
                    assert(pre.live_at(k));
                    assert(pre.groups@[k].group.id <= pre.id_counter.count);
                } else {
                    assert(pre.live_at(j));
                    assert(pre.groups@[j].group.id <= pre.id_counter.count);
                }
            }
        }
        post.lemma_slot_of_unique(li, n);
        // exactly the input ids went away; the new id arrived
        assert forall|i: u16| #[trigger] post.has_live_id(i)
            implies (i == n || (pre.has_live_id(i) && !ids.contains(i))) by {
            let l = post.slot_of(i);
            assert(post.live_at(l) && post.groups@[l].group.id == i);
            if l != li {
                assert(pre.live_at(l) && pre.groups@[l].group.id == i);
                assert(pre.has_live_id(i));
                if ids.contains(i) {
                    let t = choose|t: int| 0 <= t < ids.len() && (#[trigger] ids[t]) == i;
                    assert(pre.has_live_id(ids[t]));
                    pre.lemma_slot_of_unique(l, i);
                    assert(slots[t] as int == l);
                    assert(false);
                }
            }
        }
        assert forall|i: u16| i == n || (pre.has_live_id(i) && !ids.contains(i))
            implies #[trigger] post.has_live_id(i) by {
            if i != n {
                let l = pre.slot_of(i);
                assert(pre.live_at(l) && pre.groups@[l].group.id == i);
                if exists|i2: int| 0 <= i2 < slots.len() && (#[trigger] slots[i2]) as int == l {
                    let i2 = choose|i2: int|
                        0 <= i2 < slots.len() && (#[trigger] slots[i2]) as int == l;
                    assert(pre.has_live_id(ids[i2]));
                    assert(pre.slot_of(ids[i2]) == l);
                    assert(pre.groups@[l].group.id == ids[i2]);
                    assert(ids.contains(i));
                    assert(false);
                }
                assert(post.live_at(l) && post.groups@[l].group.id == i);
            }
        }
        // survivors keep their slot, membership and class
        assert forall|i: u16| #[trigger] post.has_live_id(i) && i != n
            implies post.slot_of(i) == pre.slot_of(i)
                && post.model().points[i] == mp.points[i]
                && post.model().classes[i] == mp.classes[i] by {
            assert(pre.has_live_id(i));
            let l = pre.slot_of(i);
            assert(pre.live_at(l) && pre.groups@[l].group.id == i);
            assert(post.live_at(l)) by {
                if exists|i2: int| 0 <= i2 < slots.len() && (#[trigger] slots[i2]) as int == l {
                    let i2 = choose|i2: int|
                        0 <= i2 < slots.len() && (#[trigger] slots[i2]) as int == l;
                    assert(pre.has_live_id(ids[i2]));
                    assert(pre.slot_of(ids[i2]) == l);
                    assert(pre.groups@[l].group.id == ids[i2]);
                    assert(ids.contains(i));
                    assert(false);
                }
            }
            post.lemma_slot_of_unique(l, i);
        }
        let mq = post.model();
        assert(mq.cells =~= mp.cells);
        assert(mq.points[n] == post.groups@[li].zone.points());
        assert(mq.classes[n] == zone_color);
        // the abstract state stays well-formed
        assert(crate::model::model_wf(mq)) by {
            assert(mq.points.dom() =~= mq.classes.dom());
            assert forall|i: u16, p: GridPoint|
                mq.points.dom().contains(i) && #[trigger] mq.points[i].contains(p)
                implies crate::grid::in_world_bounds(p, mq.width, mq.height)
                    && mq.cells[(p, mq.classes[i])] == Some(i as u32) by {
                if i == n {
                    assert(mq.points[n].contains(p));
                    assert(false);
                } else {
                    assert(pre.has_live_id(i));
                    assert(mp.points[i].contains(p));
                    assert(mp.cells[(p, mp.classes[i])] == Some(i as u32));
                }
            }
        }
        // every stale raster entry is scheduled for release
        assert(covered(mq, post.channel.events@)) by {
            assert forall|p: GridPoint, z: u32|
                crate::grid::in_world_bounds(p, mq.width, mq.height) && valid_zone(z)
                    && (#[trigger] mq.cells[(p, z)]) is Some && !mq.owner_claims(p, z)
                implies has_remove_for(post.channel.events@, p, z) by {
                let o = mq.cells[(p, z)]->Some_0;
                assert(mp.cells[(p, z)] == Some(o));
                if mp.owner_claims(p, z) {
                    let ou = o as u16;
                    assert(pre.has_live_id(ou));
                    if ids.contains(ou) {
                        let t = choose|t: int| 0 <= t < ids.len() && (#[trigger] ids[t]) == ou;
                        assert(mp.points[ids[t]].contains(p));
                        assert(z == pre.groups@[pre.slot_of(ids[t])].zone.zone_color) by {
                            assert(mp.classes[ou] == z);
                        }
                        lemma_merge_removes_cover(pre, ids, t, p);
                        lemma_has_remove_app(pre.channel.events@, rems, p, z);
                        lemma_has_remove_app(chan_a, adds, p, z);
                    } else {
                        assert(post.has_live_id(ou));
                        assert(mq.points[ou] == mp.points[ou]);
                        assert(mq.classes[ou] == mp.classes[ou]);
                        assert(mq.owner_claims(p, z));
                        assert(false);
                    }
                } else {
                    assert(has_remove_for(pre.channel.events@, p, z));
                    lemma_has_remove_app(pre.channel.events@, rems, p, z);
                    lemma_has_remove_app(chan_a, adds, p, z);
                }
            }
        }
        // queue hygiene
        assert(evs_ok(post.channel.events@)) by {
            lemma_evs_ok_app(pre.channel.events@, rems);
            lemma_evs_ok_app(chan_a, adds);
        }
        // agent back-references match the member lists
        assert forall|j: int, k: int|
            post.live_at(j) && 0 <= k < post.groups@[j].members@.len()
            implies (#[trigger] post.groups@[j].members@[k]) < post.bots@.len()
                && post.bots@[post.groups@[j].members@[k] as int].group == j by {
            if j == li {
                assert(post.groups@[li].members@[k] == mm[k]);
            } else {
                assert(pre.live_at(j));
                let m = pre.groups@[j].members@[k];
                assert(m < pre.bots@.len() && pre.bots@[m as int].group == j);
                assert(!mm.contains(m)) by {
                    if mm.contains(m) {
                        let l2 = choose|l2: int| 0 <= l2 < mm.len() && (#[trigger] mm[l2]) == m;
                        let t = choose|t: int|
                            0 <= t < ids.len()
                                && pre.bots@[mm[l2] as int].group
                                    == pre.slot_of(#[trigger] ids[t]);
                        assert(pre.slot_of(ids[t]) == j);
                        assert(slots[t] as int == j);
                        assert(false);
                    }
                }
                assert(post.bots@[m as int] == pre.bots@[m as int]);
            }
        }
        // recorded owners stay bounded by the counter
        assert forall|k: (GridPoint, u32)| mq.cells.dom().contains(k)
            implies ((#[trigger] mq.cells[k]) matches Some(o)
                ==> o <= post.id_counter.count as u32) by {
            match mq.cells[k] {
                Some(o) => {
                    assert(mp.cells[k] == Some(o));
                    assert(o <= pre.id_counter.count as u32);
                },
                None => {},
            }
        }
        assert(post.wf_core());
        assert(post.wf());
        assert(merge_post(pre, post, ids, n));
    }

    /// Split the live group `id`: enqueue a release of every coordinate it
    /// claims, then a claim of each of those coordinates for each of two
    /// freshly minted groups — the zone footprint is duplicated onto both
    /// halves, deliberately, while the agents are partitioned: the first
    /// half (in insertion order) goes to the first new group, the rest to
    /// the second. Requests naming a dead id, a group with fewer than two
    /// agents, or arriving with the id space nearly exhausted are ignored.
    pub fn split_group(&mut self, id: u16) -> (r: Option<(u16, u16)>)
        requires
            old(self).wf(),
        ensures
            final(self).wf(),
            r is Some <==> split_ok(*old(self), id),
            r matches Some(p) ==> split_post(*old(self), *final(self), id, p.0, p.1),
            r is None ==> *final(self) == *old(self),
    {
        let ghost pre = *self;
        if self.id_counter.count as u32 + 2 > ZonePointData::ZONE_ID_MASK {
            return None;
        }
        if self.groups.len() > usize::MAX - 2 {
            return None;
        }
        let j = match self.find_live_group_by_id(id) {
            None => {
                return None;
            },
            Some(j) => j,
        };
        proof {
            self.lemma_slot_of(j as int);
        }
        if self.groups[j].members.len() < 2 {
            return None;
        }
        proof {
            assert(split_ok(pre, id));
        }
        let ghost pts = pre.groups@[j as int].zone.zone_points@;
        let ghost mems = pre.groups@[j as int].members@;
        let ghost c_old = pre.groups@[j as int].zone.zone_color;
        // phase 1: enqueue all releases
        self.enqueue_releases_of_slot(j);
        let ghost chan_a = self.channel.events@;
        // phase 2: partition the agents between the two future slots
        let ji1 = self.groups.len();
        let ji2 = ji1 + 1;
        let n_m = self.groups[j].members.len();
        let mid = n_m / 2;
        let mut members1: Vec<usize> = Vec::new();
        let mut members2: Vec<usize> = Vec::new();
        let mut k: usize = 0;
        proof {
            assert(members1@ =~= mems.take(0));
        }
        while k < mid
            invariant
                0 <= k <= mid,
                mid == n_m / 2,
                n_m == mems.len(),
                2 <= n_m,
                pre.wf(),
                pre.live_at(j as int),
                j < pre.groups@.len(),
                mems == pre.groups@[j as int].members@,
                ji1 == pre.groups@.len(),
                self.groups == pre.groups,
                self.grid == pre.grid,
                self.id_counter == pre.id_counter,
                self.channel.events@ == chan_a,
                self.bots@.len() == pre.bots@.len(),
                members1@ == mems.take(k as int),
                forall|l: int| 0 <= l < members1@.len()
                    ==> (#[trigger] members1@[l]) < self.bots@.len()
                        && self.bots@[members1@[l] as int].group == ji1,
                forall|b: usize| b < pre.bots@.len() && !members1@.contains(b)
                    ==> #[trigger] self.bots@[b as int] == pre.bots@[b as int],
            decreases mid - k,
        {
            let b = self.groups[j].members[k];
            proof {
                assert(b == mems[k as int]);
                assert(b < pre.bots@.len());
            }
            let ghost members_before = members1@;
            let ghost bots_before = self.bots@;
            self.bot_set_group(b, ji1);
            members1.push(b);
            proof {
                assert(members1@ =~= mems.take(k as int + 1));
                assert forall|b2: usize|
                    b2 < pre.bots@.len() && !members1@.contains(b2)
                    implies #[trigger] self.bots@[b2 as int] == pre.bots@[b2 as int] by {
                    assert(members1@[members1@.len() - 1] == b);
                    assert(b2 != b);
                    if members_before.contains(b2) {
                        let l = choose|l: int|
                            0 <= l < members_before.len()
                                && (#[trigger] members_before[l]) == b2;
                        assert(members1@[l] == b2);
                        assert(false);
                    }
                    assert(self.bots@[b2 as int] == bots_before[b2 as int]);
                }
                assert forall|l: int| 0 <= l < members1@.len()
                    implies (#[trigger] members1@[l]) < self.bots@.len()
                        && self.bots@[members1@[l] as int].group == ji1 by {
                    if l < members_before.len() {
                        assert(members1@[l] == members_before[l]);
                        if members_before[l] != b {
                            assert(self.bots@[members1@[l] as int]
                                == bots_before[members1@[l] as int]);
                        }
                    } else {
                        assert(members1@[l] == b);
                    }
                }
            }
            k = k + 1;
        }
        let ghost bots_h1 = self.bots@;
        let ghost m1 = members1@;
        let mut k: usize = mid;
        proof {
            assert(members2@ =~= mems.subrange(mid as int, mid as int));
        }
        while k < n_m
            invariant
                mid <= k <= n_m,
                mid == n_m / 2,
                n_m == mems.len(),
                2 <= n_m,
                pre.wf(),
                pre.live_at(j as int),
                j < pre.groups@.len(),
                mems == pre.groups@[j as int].members@,
                ji1 == pre.groups@.len(),
                ji2 == ji1 + 1,
                m1 == mems.take(mid as int),
                self.groups == pre.groups,
                self.grid == pre.grid,
                self.id_counter == pre.id_counter,
                self.channel.events@ == chan_a,
                self.bots@.len() == pre.bots@.len(),
                members2@ == mems.subrange(mid as int, k as int),
                forall|l: int| 0 <= l < m1.len()
                    ==> (#[trigger] m1[l]) < self.bots@.len()
                        && self.bots@[m1[l] as int].group == ji1,
                forall|l: int| 0 <= l < members2@.len()
                    ==> (#[trigger] members2@[l]) < self.bots@.len()
                        && self.bots@[members2@[l] as int].group == ji2,
                forall|b: usize|
                    b < pre.bots@.len() && !m1.contains(b) && !members2@.contains(b)
                    ==> #[trigger] self.bots@[b as int] == bots_h1[b as int]
                        && self.bots@[b as int] == pre.bots@[b as int],
            decreases n_m - k,
        {
            let b = self.groups[j].members[k];
            proof {
                assert(b == mems[k as int]);
                assert(b < pre.bots@.len());
                // the second half never revisits a first-half agent
                assert(!m1.contains(b)) by {
                    if m1.contains(b) {
                        let l = choose|l: int| 0 <= l < m1.len() && (#[trigger] m1[l]) == b;
                        assert(pre.groups@[j as int].wf());
                        assert(mems[l] == mems[k as int]);
                        assert(false);
                    }
                }
            }
            let ghost members_before = members2@;
            let ghost bots_before = self.bots@;
            self.bot_set_group(b, ji2);
            members2.push(b);
            proof {
                assert(members2@ =~= mems.subrange(mid as int, k as int + 1));
                assert forall|b2: usize|
                    b2 < pre.bots@.len() && !m1.contains(b2) && !members2@.contains(b2)
                    implies #[trigger] self.bots@[b2 as int] == bots_h1[b2 as int]
                        && self.bots@[b2 as int] == pre.bots@[b2 as int] by {
                    assert(members2@[members2@.len() - 1] == b);
                    assert(b2 != b);
                    if members_before.contains(b2) {
                        let l = choose|l: int|
                            0 <= l < members_before.len()
                                && (#[trigger] members_before[l]) == b2;
                        assert(members2@[l] == b2);
                        assert(false);
                    }
                    assert(self.bots@[b2 as int] == bots_before[b2 as int]);
                }
                assert forall|l: int| 0 <= l < m1.len()
                    implies (#[trigger] m1[l]) < self.bots@.len()
                        && self.bots@[m1[l] as int].group == ji1 by {
                    assert(m1[l] == mems[l]);
                    if m1[l] != b {
                        assert(self.bots@[m1[l] as int] == bots_before[m1[l] as int]);
                    } else {
                        assert(mems[l] == mems[k as int]);
                        assert(pre.groups@[j as int].wf());
                        assert(false);
                    }
                }
                assert forall|l: int| 0 <= l < members2@.len()
                    implies (#[trigger] members2@[l]) < self.bots@.len()
                        && self.bots@[members2@[l] as int].group == ji2 by {
                    if l < members_before.len() {
                        assert(members2@[l] == members_before[l]);
                        if members_before[l] != b {
                            assert(self.bots@[members2@[l] as int]
                                == bots_before[members2@[l] as int]);
                        }
                    } else {
                        assert(members2@[l] == b);
                    }
                }
            }
            k = k + 1;
        }
        let ghost m2 = members2@;
        let ghost bots_b = self.bots@;
        // phase 3: retire the split group
        self.retire_slot(j);
        // phase 4: mint the two halves
        let n1 = self.id_counter.next_id();
        let c1 = ZonePointData::id_to_zone(n1 as u32);
        self.groups.push(crate::groups::GroupRecord {
            live: true,
            group: crate::groups::NanobotGroup { id: n1 },
            zone: crate::membership::ZoneComponent::new(c1),
            members: members1,
        });
        let n2 = self.id_counter.next_id();
        let c2 = ZonePointData::id_to_zone(n2 as u32);
        self.groups.push(crate::groups::GroupRecord {
            live: true,
            group: crate::groups::NanobotGroup { id: n2 },
            zone: crate::membership::ZoneComponent::new(c2),
            members: members2,
        });
        // phase 5: enqueue the claims, first half first
        proof {
            assert(self.groups@[j as int].zone == pre.groups@[j as int].zone);
        }
        self.enqueue_claims_of_slot(j, c1, n1 as u32);
        proof {
            assert(self.groups@[j as int].zone == pre.groups@[j as int].zone);
        }
        self.enqueue_claims_of_slot(j, c2, n2 as u32);
        proof {
            self.lemma_split_wf(pre, id, j as int, n1, n2, m1, m2, chan_a);
        }
        Some((n1, n2))
    }

    /// Assemble well-formedness and the split postcondition from what the
    /// split phases established.
    proof fn lemma_split_wf(
        self,
        pre: ZoneEngine,
        id: u16,
        j: int,
        n1: u16,
        n2: u16,
        m1: Seq<usize>,
        m2: Seq<usize>,
        chan_a: Seq<ZoneChangedEvent>,
    )
        requires
            pre.wf(),
            split_ok(pre, id),
            j == pre.slot_of(id),
            n1 == pre.id_counter.count + 1,
            n2 == pre.id_counter.count + 2,
            self.id_counter.count == n2,
            m1 == pre.groups@[j].members@.take(pre.groups@[j].members@.len() as int / 2),
            m2 == pre.groups@[j].members@.skip(pre.groups@[j].members@.len() as int / 2),
            self.groups@.len() == pre.groups@.len() + 2,
            forall|l: int| 0 <= l < pre.groups@.len()
                ==> (#[trigger] self.groups@[l]).group == pre.groups@[l].group
                    && self.groups@[l].zone == pre.groups@[l].zone
                    && self.groups@[l].members == pre.groups@[l].members,
            forall|l: int| 0 <= l < pre.groups@.len()
                ==> ((#[trigger] self.groups@[l]).live <==> (pre.groups@[l].live && l != j)),
            self.groups@[pre.groups@.len() as int].live == true,
            self.groups@[pre.groups@.len() as int].group.id == n1,
            self.groups@[pre.groups@.len() as int].members@ == m1,
            self.groups@[pre.groups@.len() as int].zone.wf(),
            self.groups@[pre.groups@.len() as int].zone.zone_color
                == crate::codec::spec_id_to_zone(n1 as u32),
            self.groups@[pre.groups@.len() as int].zone.points() == Set::<GridPoint>::empty(),
            self.groups@[pre.groups@.len() as int + 1].live == true,
            self.groups@[pre.groups@.len() as int + 1].group.id == n2,
            self.groups@[pre.groups@.len() as int + 1].members@ == m2,
            self.groups@[pre.groups@.len() as int + 1].zone.wf(),
            self.groups@[pre.groups@.len() as int + 1].zone.zone_color
                == crate::codec::spec_id_to_zone(n2 as u32),
            self.groups@[pre.groups@.len() as int + 1].zone.points()
                == Set::<GridPoint>::empty(),
            self.bots@.len() == pre.bots@.len(),
            forall|l: int| 0 <= l < m1.len()
                ==> (#[trigger] m1[l]) < self.bots@.len()
                    && self.bots@[m1[l] as int].group == pre.groups@.len(),
            forall|l: int| 0 <= l < m2.len()
                ==> (#[trigger] m2[l]) < self.bots@.len()
                    && self.bots@[m2[l] as int].group == pre.groups@.len() + 1,
            forall|b: usize| b < pre.bots@.len() && !m1.contains(b) && !m2.contains(b)
                ==> #[trigger] self.bots@[b as int] == pre.bots@[b as int],
            self.grid == pre.grid,
            chan_a == pre.channel.events@ + removes_for(
                pre.groups@[j].zone.zone_points@,
                pre.groups@[j].zone.zone_color,
                id as u32,
            ),
            self.channel.events@ == chan_a
                + adds_for(
                    pre.groups@[j].zone.zone_points@,
                    crate::codec::spec_id_to_zone(n1 as u32),
                    n1 as u32,
                ) + adds_for(
                    pre.groups@[j].zone.zone_points@,
                    crate::codec::spec_id_to_zone(n2 as u32),
                    n2 as u32,
                ),
        ensures
            self.wf(),
            split_post(pre, self, id, n1, n2),
    {
        let post = self;
        let mp = pre.model();
        let li1 = pre.groups@.len() as int;
        let li2 = li1 + 1;
        let pts = pre.groups@[j].zone.zone_points@;
        let c_old = pre.groups@[j].zone.zone_color;
        let c1 = crate::codec::spec_id_to_zone(n1 as u32);
        let c2 = crate::codec::spec_id_to_zone(n2 as u32);
        let rems = removes_for(pts, c_old, id as u32);
        let adds1 = adds_for(pts, c1, n1 as u32);
        let adds2 = adds_for(pts, c2, n2 as u32);
        assert(pre.live_at(j) && pre.groups@[j].group.id == id) by {
            assert(pre.has_live_id(id));
        }
        assert(valid_zone(c1) && valid_zone(c2));
        assert(1 <= n1 && (n2 as u32) <= ZonePointData::ZONE_ID_MASK);
        assert(!pre.has_live_id(n1) && !pre.has_live_id(n2)) by {
            if pre.has_live_id(n1) {
                let l = pre.slot_of(n1);
                assert(pre.live_at(l) && pre.groups@[l].group.id == n1);
                assert(pre.groups@[l].group.id <= pre.id_counter.count);
            }
            if pre.has_live_id(n2) {
                let l = pre.slot_of(n2);
                assert(pre.live_at(l) && pre.groups@[l].group.id == n2);
                assert(pre.groups@[l].group.id <= pre.id_counter.count);
            }
        }
        assert(post.unique_ids()) by {
            assert forall|a: int, b: int|
                post.live_at(a) && post.live_at(b) && a != b
                implies (#[trigger] post.groups@[a]).group.id
                    != (#[trigger] post.groups@[b]).group.id by {
                if a < li1 && b < li1 {
                    assert(pre.live_at(a) && pre.live_at(b));
                } else if a < li1 {
                    assert(pre.live_at(a));
                    assert(pre.groups@[a].group.id <= pre.id_counter.count);
                } else if b < li1 {
                    assert(pre.live_at(b));
                    assert(pre.groups@[b].group.id <= pre.id_counter.count);
                }
            }
        }
        post.lemma_slot_of_unique(li1, n1);
        post.lemma_slot_of_unique(li2, n2);
        // exactly `id` went away; the two halves arrived
        assert forall|i: u16| #[trigger] post.has_live_id(i)
            implies (i == n1 || i == n2 || (pre.has_live_id(i) && i != id)) by {
            let l = post.slot_of(i);
            assert(post.live_at(l) && post.groups@[l].group.id == i);
            if l < li1 {
                assert(pre.live_at(l) && pre.groups@[l].group.id == i);
                assert(pre.has_live_id(i));
                if i == id {
                    pre.lemma_slot_of_unique(l, i);
                    assert(false);
                }
            }
        }
        assert forall|i: u16| i == n1 || i == n2 || (pre.has_live_id(i) && i != id)
            implies #[trigger] post.has_live_id(i) by {
            if i != n1 && i != n2 {
                let l = pre.slot_of(i);
                assert(pre.live_at(l) && pre.groups@[l].group.id == i);
                if l == j {
                    assert(i == id);
                    assert(false);
                }
                assert(post.live_at(l) && post.groups@[l].group.id == i);
            }
        }
        // survivors keep their slot, membership and class
        assert forall|i: u16| #[trigger] post.has_live_id(i) && i != n1 && i != n2
            implies post.slot_of(i) == pre.slot_of(i)
                && post.model().points[i] == mp.points[i]
                && post.model().classes[i] == mp.classes[i] by {
            assert(pre.has_live_id(i) && i != id);
            let l = pre.slot_of(i);
            assert(pre.live_at(l) && pre.groups@[l].group.id == i);
            assert(l != j) by {
                if l == j {
                    assert(i == id);
                }
            }
            assert(post.live_at(l));
            post.lemma_slot_of_unique(l, i);
        }
        let mq = post.model();
        assert(mq.cells =~= mp.cells);
        assert(mq.points[n1] == post.groups@[li1].zone.points());
        assert(mq.points[n2] == post.groups@[li2].zone.points());
        crate::codec::lemma_id_to_zone_consecutive(n1 as u32);
        assert(c1 != c2);
        // the abstract state stays well-formed
        assert(crate::model::model_wf(mq)) by {
            assert(mq.points.dom() =~= mq.classes.dom());
            assert forall|i: u16, p: GridPoint|
                mq.points.dom().contains(i) && #[trigger] mq.points[i].contains(p)
                implies crate::grid::in_world_bounds(p, mq.width, mq.height)
                    && mq.cells[(p, mq.classes[i])] == Some(i as u32) by {
                if i == n1 || i == n2 {
                    assert(false);
                } else {
                    assert(pre.has_live_id(i));
                    assert(mp.points[i].contains(p));
                    assert(mp.cells[(p, mp.classes[i])] == Some(i as u32));
                }
            }
        }
        // every stale raster entry is scheduled for release
        assert(covered(mq, post.channel.events@)) by {
            assert forall|p: GridPoint, z: u32|
                crate::grid::in_world_bounds(p, mq.width, mq.height) && valid_zone(z)
                    && (#[trigger] mq.cells[(p, z)]) is Some && !mq.owner_claims(p, z)
                implies has_remove_for(post.channel.events@, p, z) by {
                let o = mq.cells[(p, z)]->Some_0;
                assert(mp.cells[(p, z)] == Some(o));
                if mp.owner_claims(p, z) {
                    let ou = o as u16;
                    assert(pre.has_live_id(ou));
                    if ou == id {
                        assert(z == mp.classes[id]);
                        assert(mp.classes[id] == c_old);
                        assert(mp.points[id].contains(p));
                        assert(mp.points[id] == pts.to_set());
                        let l = choose|l: int| 0 <= l < pts.len() && (#[trigger] pts[l]) == p;
                        assert(rems[l].kind == ZoneChangedKind::PointRemoved
                            && rems[l].point == p && rems[l].zone_color == z);
                        assert(has_remove_for(rems, p, z));
                        lemma_has_remove_app(pre.channel.events@, rems, p, z);
                        lemma_has_remove_app(chan_a, adds1, p, z);
                        lemma_has_remove_app(chan_a + adds1, adds2, p, z);
                        assert(post.channel.events@ == (chan_a + adds1) + adds2);
                    } else {
                        assert(post.has_live_id(ou));
                        assert(mq.points[ou] == mp.points[ou]);
                        assert(mq.classes[ou] == mp.classes[ou]);
                        assert(mq.owner_claims(p, z));
                        assert(false);
                    }
                } else {
                    assert(has_remove_for(pre.channel.events@, p, z));
                    lemma_has_remove_app(pre.channel.events@, rems, p, z);
                    lemma_has_remove_app(chan_a, adds1, p, z);
                    lemma_has_remove_app(chan_a + adds1, adds2, p, z);
                    assert(post.channel.events@ == (chan_a + adds1) + adds2);
                }
            }
        }
        // queue hygiene
        assert(evs_ok(post.channel.events@)) by {
            assert(valid_zone(c_old) && (id as u32) <= ZonePointData::ZONE_ID_MASK) by {
                assert(pre.groups@[j].wf());
            }
            assert(evs_ok(rems)) by {
                assert(forall|l: int| 0 <= l < rems.len()
                    ==> (#[trigger] rems[l]) == removes_for(pts, c_old, id as u32)[l]);
            }
            assert(evs_ok(adds1));
            assert(evs_ok(adds2));
            lemma_evs_ok_app(pre.channel.events@, rems);
            lemma_evs_ok_app(chan_a, adds1);
            lemma_evs_ok_app(chan_a + adds1, adds2);
            assert(post.channel.events@ == (chan_a + adds1) + adds2);
        }
        // the halves are duplicate-free
        assert(m1.no_duplicates() && m2.no_duplicates()) by {
            assert(pre.groups@[j].wf());
            let mems = pre.groups@[j].members@;
            let mid = mems.len() as int / 2;
            assert forall|a: int, b: int|
                0 <= a < m1.len() && 0 <= b < m1.len() && a != b
                implies m1[a] != m1[b] by {
                assert(m1[a] == mems[a] && m1[b] == mems[b]);
            }
            assert forall|a: int, b: int|
                0 <= a < m2.len() && 0 <= b < m2.len() && a != b
                implies m2[a] != m2[b] by {
                assert(m2[a] == mems[a + mid] && m2[b] == mems[b + mid]);
            }
        }
        // agent back-references match the member lists
        assert forall|l: int, k: int|
            post.live_at(l) && 0 <= k < post.groups@[l].members@.len()
            implies (#[trigger] post.groups@[l].members@[k]) < post.bots@.len()
                && post.bots@[post.groups@[l].members@[k] as int].group == l by {
            let mems = pre.groups@[j].members@;
            let mid = mems.len() as int / 2;
            if l == li1 {
                assert(post.groups@[li1].members@[k] == m1[k]);
            } else if l == li2 {
                assert(post.groups@[li2].members@[k] == m2[k]);
            } else {
                assert(pre.live_at(l) && l != j);
                let m = pre.groups@[l].members@[k];
                assert(m < pre.bots@.len() && pre.bots@[m as int].group == l);
                assert(!m1.contains(m)) by {
                    if m1.contains(m) {
                        let t = choose|t: int| 0 <= t < m1.len() && (#[trigger] m1[t]) == m;
                        assert(m1[t] == mems[t]);
                        assert(pre.bots@[mems[t] as int].group == j);
                        assert(false);
                    }
                }
                assert(!m2.contains(m)) by {
                    if m2.contains(m) {
                        let t = choose|t: int| 0 <= t < m2.len() && (#[trigger] m2[t]) == m;
                        assert(m2[t] == mems[t + mid]);
                        assert(pre.bots@[mems[t + mid] as int].group == j);
                        assert(false);
                    }
                }
                assert(post.bots@[m as int] == pre.bots@[m as int]);
            }
        }
        // recorded owners stay bounded by the counter
        assert forall|k: (GridPoint, u32)| mq.cells.dom().contains(k)
            implies ((#[trigger] mq.cells[k]) matches Some(o)
                ==> o <= post.id_counter.count as u32) by {
            match mq.cells[k] {
                Some(o) => {
                    assert(mp.cells[k] == Some(o));
                    assert(o <= pre.id_counter.count as u32);
                },
                None => {},
            }
        }
        assert(post.wf_core());
        assert(post.wf());
        assert(split_post(pre, post, id, n1, n2));
    }

    /// Dispatch one selection action: a merge of all the selected groups, or
    /// a split of each selected group in selection order, each against the
    /// state the previous splits left behind. Returns the ids of the groups
    /// the action created; see `merge_groups` and `split_group` for when a
    /// request is honoured and what it does. The dispatch never touches the
    /// raster: all grid change flows through the queued deltas.
    pub fn group_action(&mut self, action: NanobotGroupAction, selected: &Vec<u16>) -> (created:
        Vec<u16>)
        requires
            old(self).wf(),
        ensures
            final(self).wf(),
            final(self).grid == old(self).grid,
            final(self).model().cells == old(self).model().cells,
            action == NanobotGroupAction::Merge && merge_ok(*old(self), selected@)
                ==> created@.len() == 1
                    && merge_post(*old(self), *final(self), selected@, created@[0]),
            action == NanobotGroupAction::Merge && !merge_ok(*old(self), selected@)
                ==> created@.len() == 0 && *final(self) == *old(self),
            action == NanobotGroupAction::Split
                ==> split_fold(*old(self), *final(self), selected@, created@),
            action == NanobotGroupAction::Split && selected@.len() == 0
                ==> created@.len() == 0 && *final(self) == *old(self),
            action == NanobotGroupAction::Split && selected@.len() == 1
                && split_ok(*old(self), selected@[0])
                ==> created@.len() == 2
                    && split_post(*old(self), *final(self), selected@[0], created@[0], created@[1]),
            action == NanobotGroupAction::Split && selected@.len() == 1
                && !split_ok(*old(self), selected@[0])
                ==> created@.len() == 0 && *final(self) == *old(self),
    {
        let mut created: Vec<u16> = Vec::new();
        match action {
            NanobotGroupAction::Merge => {
                match self.merge_groups(selected) {
                    Some(n) => {
                        created.push(n);
                    },
                    None => {},
                }
            },
            NanobotGroupAction::Split => {
                let mut i: usize = 0;
                proof {
                    assert(selected@.take(0) =~= Seq::<u16>::empty());
                }
                while i < selected.len()
                    invariant
                        self.wf(),
                        0 <= i <= selected@.len(),
                        split_fold(*old(self), *self, selected@.take(i as int), created@),
                        self.grid == old(self).grid,
                        self.model().cells == old(self).model().cells,
                        i == 0 ==> *self == *old(self) && created@.len() == 0,
                        i >= 1 && selected@.len() == 1 ==> {
                            &&& (split_ok(*old(self), selected@[0]) ==> created@.len() == 2
                                && split_post(
                                    *old(self),
                                    *self,
                                    selected@[0],
                                    created@[0],
                                    created@[1],
                                ))
                            &&& (!split_ok(*old(self), selected@[0]) ==> created@.len() == 0
                                && *self == *old(self))
                        },
                    decreases selected@.len() - i,
                {
                    let ghost pre_it = *self;
                    let ghost created_before = created@;
                    let ghost cx: Seq<u16>;
                    match self.split_group(selected[i]) {
                        Some(pair) => {
                            created.push(pair.0);
                            created.push(pair.1);
                            proof {
                                cx = seq![pair.0, pair.1];
                                assert(cx[0] == pair.0 && cx[1] == pair.1);
                                assert(created@ =~= created_before + cx);
                                assert(split_step(pre_it, *self, selected@[i as int], cx));
                            }
                        },
                        None => {
                            proof {
                                cx = Seq::<u16>::empty();
                                assert(created@ =~= created_before + cx);
                                assert(split_step(pre_it, *self, selected@[i as int], cx));
                            }
                        },
                    }
                    proof {
                        // extend the fold by one handled request
                        let spre = selected@.take(i as int + 1);
                        assert(spre.drop_last() =~= selected@.take(i as int));
                        assert(spre.last() == selected@[i as int]);
                        assert(split_fold(*old(self), pre_it, spre.drop_last(), created_before));
                        assert(split_step(pre_it, *self, spre.last(), cx));
                        assert(split_fold(*old(self), *self, spre, created_before + cx));
                    }
                    i = i + 1;
                }
                proof {
                    assert(selected@.take(selected@.len() as int) =~= selected@);
                }
            },
        }
        created
    }

}

/// The claims over a coordinate list are exactly one claim per coordinate,
/// for the given group and class, and their coordinate set is the list's.
pub proof fn lemma_adds_for_props(pts: Seq<GridPoint>, zone_color: u32, zone_id: u32)
    requires
        zone_id <= ZonePointData::ZONE_ID_MASK,
    ensures
        crate::model::all_adds_for(adds_for(pts, zone_color, zone_id), zone_id as u16, zone_color),
        crate::model::ev_points(adds_for(pts, zone_color, zone_id)) == pts.to_set(),
        forall|l: int| 0 <= l < adds_for(pts, zone_color, zone_id).len()
            ==> (#[trigger] adds_for(pts, zone_color, zone_id)[l]).point == pts[l],
{
    let adds = adds_for(pts, zone_color, zone_id);
    assert(crate::model::ev_points(adds) =~= pts.to_set()) by {
        assert forall|q: GridPoint|
            #[trigger] crate::model::ev_points(adds).contains(q) <==> pts.to_set().contains(q) by {
            crate::model::lemma_ev_points_contains(adds, q);
            if exists|l: int| 0 <= l < adds.len() && (#[trigger] adds[l]).point == q {
                let l = choose|l: int| 0 <= l < adds.len() && (#[trigger] adds[l]).point == q;
                assert(pts[l] == q);
            }
            if pts.to_set().contains(q) {
                let l = choose|l: int| 0 <= l < pts.len() && (#[trigger] pts[l]) == q;
                assert(adds[l].point == q);
            }
        }
    }
}

/// Merge conservation: a merge of groups owning point sets S1, ..., Sk,
/// followed by a drain of the queue, leaves the new group owning exactly
/// S1 ∪ ... ∪ Sk — shared coordinates are owned once, not twice.
pub proof fn lemma_merge_conservation(
    pre: ZoneEngine,
    mid: ZoneEngine,
    post: ZoneEngine,
    ids: Seq<u16>,
    n: u16,
)
    requires
        pre.wf(),
        pre.channel.events@.len() == 0,
        merge_ok(pre, ids),
        merge_post(pre, mid, ids, n),
        post.model() == crate::model::run(mid.model(), mid.channel.events@),
    ensures
        post.model().live(n),
        post.model().points[n] == union_points(pre, ids),
{
    let cn = crate::codec::spec_id_to_zone(n as u32);
    let m0 = mid.model();
    let rems = merge_removes(pre, ids);
    let useq = merge_union_seq(pre, ids);
    let adds = adds_for(useq, cn, n as u32);
    assert(valid_zone(cn));
    assert((n as u32) <= ZonePointData::ZONE_ID_MASK);
    lemma_merge_removes_ok(pre, ids);
    lemma_adds_for_props(useq, cn, n as u32);
    lemma_merge_union_props(pre, ids);
    assert(mid.channel.events@ =~= rems + adds);
    crate::model::lemma_run_app(m0, rems, adds);
    let m1 = crate::model::run(m0, rems);
    crate::model::lemma_run_structure(m0, rems);
    crate::model::lemma_run_removes(m0, rems);
    assert(m1.points[n] =~= Set::<GridPoint>::empty()) by {
        assert(m0.points.dom().contains(n));
        assert(m1.points[n].subset_of(m0.points[n]));
    }
    assert(m1.live(n) && m1.classes[n] == cn);
    crate::model::lemma_run_preserves(m0, rems, adds);
    assert(m1.width == pre.model().width && m1.height == pre.model().height) by {
        assert(m0.width == pre.model().width);
    }
    assert forall|l: int| 0 <= l < adds.len()
        implies crate::grid::in_world_bounds(
            (#[trigger] adds[l]).point,
            m1.width,
            m1.height,
        ) by {
        assert(adds[l].point == useq[l]);
    }
    crate::model::lemma_run_adds(m1, adds, n, cn);
    assert(post.model().points[n] =~= union_points(pre, ids)) by {
        assert(post.model() == crate::model::run(m1, adds));
        assert(crate::model::run(m1, adds).points[n]
            == m1.points[n] + crate::model::ev_points(adds));
        assert(crate::model::ev_points(adds) == useq.to_set());
    }
    crate::model::lemma_run_structure(m1, adds);
}

/// Split conservation: a split of a group owning point set S and n agents,
/// followed by a drain of the queue, leaves each of the two new groups
/// owning exactly S — the footprint is duplicated, not partitioned — while
/// the agents are partitioned into two disjoint halves of sizes ⌊n/2⌋ and
/// n − ⌊n/2⌋ whose concatenation is the original agent list.
pub proof fn lemma_split_conservation(
    pre: ZoneEngine,
    mid: ZoneEngine,
    post: ZoneEngine,
    id: u16,
    n1: u16,
    n2: u16,
)
    requires
        pre.wf(),
        pre.channel.events@.len() == 0,
        split_ok(pre, id),
        split_post(pre, mid, id, n1, n2),
        post.model() == crate::model::run(mid.model(), mid.channel.events@),
    ensures
        post.model().live(n1),
        post.model().live(n2),
        post.model().points[n1] == pre.model().points[id],
        post.model().points[n2] == pre.model().points[id],
        mid.groups@[mid.slot_of(n1)].members@
            == pre.groups@[pre.slot_of(id)].members@.take(
                pre.groups@[pre.slot_of(id)].members@.len() as int / 2,
            ),
        mid.groups@[mid.slot_of(n2)].members@
            == pre.groups@[pre.slot_of(id)].members@.skip(
                pre.groups@[pre.slot_of(id)].members@.len() as int / 2,
            ),
        mid.groups@[mid.slot_of(n1)].members@ + mid.groups@[mid.slot_of(n2)].members@
            == pre.groups@[pre.slot_of(id)].members@,
        mid.groups@[mid.slot_of(n1)].members@.len()
            == pre.groups@[pre.slot_of(id)].members@.len() as int / 2,
        mid.groups@[mid.slot_of(n2)].members@.len()
            == pre.groups@[pre.slot_of(id)].members@.len()
                - pre.groups@[pre.slot_of(id)].members@.len() as int / 2,
        1 <= mid.groups@[mid.slot_of(n1)].members@.len(),
        1 <= mid.groups@[mid.slot_of(n2)].members@.len(),
        forall|a: int, b: int|
            0 <= a < mid.groups@[mid.slot_of(n1)].members@.len()
                && 0 <= b < mid.groups@[mid.slot_of(n2)].members@.len()
                ==> (#[trigger] mid.groups@[mid.slot_of(n1)].members@[a])
                    != (#[trigger] mid.groups@[mid.slot_of(n2)].members@[b]),
{
    let j = pre.slot_of(id);
    let pts = pre.groups@[j].zone.zone_points@;
    let c_old = pre.groups@[j].zone.zone_color;
    let c1 = crate::codec::spec_id_to_zone(n1 as u32);
    let c2 = crate::codec::spec_id_to_zone(n2 as u32);
    let rems = removes_for(pts, c_old, id as u32);
    let adds1 = adds_for(pts, c1, n1 as u32);
    let adds2 = adds_for(pts, c2, n2 as u32);
    let m0 = mid.model();
    assert(pre.live_at(j) && pre.groups@[j].group.id == id) by {
        assert(pre.has_live_id(id));
    }
    assert(valid_zone(c1) && valid_zone(c2));
    assert((n1 as u32) <= ZonePointData::ZONE_ID_MASK && (n2 as u32) <= ZonePointData::ZONE_ID_MASK);
    lemma_adds_for_props(pts, c1, n1 as u32);
    lemma_adds_for_props(pts, c2, n2 as u32);
    // the input group's points are in bounds, so every claim is applied
    assert(pre.model().points[id] == pts.to_set());
    assert forall|l: int| 0 <= l < pts.len()
        implies crate::grid::in_world_bounds(
            (#[trigger] pts[l]),
            pre.model().width,
            pre.model().height,
        ) by {
        assert(pts.to_set().contains(pts[l]));
        assert(pre.model().points[id].contains(pts[l]));
    }
    assert(mid.channel.events@ =~= (rems + adds1) + adds2);
    crate::model::lemma_run_app(m0, rems + adds1, adds2);
    crate::model::lemma_run_app(m0, rems, adds1);
    assert(crate::model::run(m0, rems + adds1)
        == crate::model::run(crate::model::run(m0, rems), adds1)) by {
        crate::model::lemma_run_app(m0, rems, adds1);
    }
    let m1 = crate::model::run(m0, rems);
    let m2 = crate::model::run(m1, adds1);
    let m3 = crate::model::run(m2, adds2);
    assert(post.model() == m3);
    // releases only shrink memberships and never record owners
    assert(forall|l: int| 0 <= l < rems.len()
        ==> (#[trigger] rems[l]).kind == ZoneChangedKind::PointRemoved);
    crate::model::lemma_run_structure(m0, rems);
    crate::model::lemma_run_removes(m0, rems);
    assert(m1.points[n1] =~= Set::<GridPoint>::empty()) by {
        assert(m0.points.dom().contains(n1));
        assert(m1.points[n1].subset_of(m0.points[n1]));
    }
    assert(m1.points[n2] =~= Set::<GridPoint>::empty()) by {
        assert(m0.points.dom().contains(n2));
        assert(m1.points[n2].subset_of(m0.points[n2]));
    }
    // fresh ids are recorded nowhere before their own claims
    assert forall|p: GridPoint|
        crate::grid::in_world_bounds(p, m1.width, m1.height)
        implies (#[trigger] m1.cells[(p, c1)]) != Some(n2 as u32)
            && m1.cells[(p, c2)] != Some(n1 as u32) by {
        assert(m0.cells.dom().contains((p, c1)));
        assert(m0.cells.dom().contains((p, c2)));
        assert(m0.cells[(p, c1)] == pre.model().cells[(p, c1)]);
        assert(m0.cells[(p, c2)] == pre.model().cells[(p, c2)]);
        match pre.model().cells[(p, c1)] {
            Some(o) => {
                assert(o <= pre.id_counter.count as u32);
            },
            None => {},
        }
        match pre.model().cells[(p, c2)] {
            Some(o) => {
                assert(o <= pre.id_counter.count as u32);
            },
            None => {},
        }
        assert(m1.cells[(p, c1)] == m0.cells[(p, c1)] || m1.cells[(p, c1)] is None);
        assert(m1.cells[(p, c2)] == m0.cells[(p, c2)] || m1.cells[(p, c2)] is None);
    }
    // first half of the claims
    assert(covered(m0, mid.channel.events@));
    assert(mid.channel.events@ =~= rems + (adds1 + adds2));
    crate::model::lemma_run_preserves(m0, rems, adds1 + adds2);
    assert(covered(m1, adds1 + adds2));
    crate::model::lemma_run_adds(m1, adds1, n1, c1);
    assert(m2.points[n1] =~= pts.to_set()) by {
        assert(m2.points[n1] == m1.points[n1] + crate::model::ev_points(adds1));
    }
    crate::model::lemma_run_adds_bystander(m1, adds1, n1, c1, n2);
    assert(m2.points[n2] == m1.points[n2]);
    // second half of the claims
    crate::model::lemma_run_structure(m1, adds1);
    crate::model::lemma_run_preserves(m1, adds1, adds2);
    crate::model::lemma_run_adds(m2, adds2, n2, c2);
    assert(m3.points[n2] =~= pts.to_set()) by {
        assert(m3.points[n2] == m2.points[n2] + crate::model::ev_points(adds2));
    }
    assert forall|p: GridPoint|
        crate::grid::in_world_bounds(p, m2.width, m2.height)
        implies (#[trigger] m2.cells[(p, c2)]) != Some(n1 as u32) by {
        assert(m2.cells[(p, c2)] == m1.cells[(p, c2)]);
    }
    crate::model::lemma_run_adds_bystander(m2, adds2, n2, c2, n1);
    assert(m3.points[n1] == m2.points[n1]);
    crate::model::lemma_run_structure(m2, adds2);
    // the agent halves partition the original agent list
    let mems = pre.groups@[j].members@;
    let mid_ix = mems.len() as int / 2;
    assert(mems.take(mid_ix) + mems.skip(mid_ix) =~= mems);
    assert(pre.groups@[j].wf());
    assert forall|a: int, b: int|
        0 <= a < mems.take(mid_ix).len() && 0 <= b < mems.skip(mid_ix).len()
        implies (#[trigger] mems.take(mid_ix)[a]) != (#[trigger] mems.skip(mid_ix)[b]) by {
        assert(mems.take(mid_ix)[a] == mems[a]);
        assert(mems.skip(mid_ix)[b] == mems[b + mid_ix]);
    }
}

} // verus!
