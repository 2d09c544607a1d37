use nanoswarm_zones::channel::ZoneChangedKind;
use nanoswarm_zones::codec::ZonePointData;
use nanoswarm_zones::engine::ZoneEngine;
use nanoswarm_zones::grid::GridPoint;
use nanoswarm_zones::partition::NanobotGroupAction;

fn gp(x: i32, y: i32) -> GridPoint {
    GridPoint { x, y }
}

fn claim(e: &mut ZoneEngine, id: u16, p: GridPoint) {
    assert!(e.enqueue_zone_change(id, p, ZoneChangedKind::PointAdded));
}

fn release(e: &mut ZoneEngine, id: u16, p: GridPoint) {
    assert!(e.enqueue_zone_change(id, p, ZoneChangedKind::PointRemoved));
}

#[test]
fn paint_claims_and_releases_one_cell() {
    let mut e = ZoneEngine::new(10, 10);
    let a = e.spawn_group(ZonePointData::ZONE1, 1);
    claim(&mut e, a, gp(0, 0));
    let stats = e.drain_and_apply();
    assert_eq!(stats.conflicts, 0);
    assert_eq!(stats.bounds_skips, 0);
    assert_eq!(stats.unknown_skips, 0);
    assert_eq!(e.owner_at(gp(0, 0), ZonePointData::ZONE1), Some(a as u32));
    assert!(e.group_contains_point(a, gp(0, 0)));
    assert_eq!(e.group_points_count(a), Some(1));

    release(&mut e, a, gp(0, 0));
    let stats = e.drain_and_apply();
    assert_eq!(stats.conflicts, 0);
    assert_eq!(e.owner_at(gp(0, 0), ZonePointData::ZONE1), None);
    assert!(!e.group_contains_point(a, gp(0, 0)));
    assert_eq!(e.group_points_count(a), Some(0));
}

#[test]
fn out_of_bounds_deltas_are_skipped_without_mutation() {
    let mut e = ZoneEngine::new(10, 10);
    let a = e.spawn_group(ZonePointData::ZONE1, 1);
    claim(&mut e, a, gp(5, 0));
    claim(&mut e, a, gp(0, -6));
    let stats = e.drain_and_apply();
    assert_eq!(stats.bounds_skips, 2);
    assert_eq!(stats.conflicts, 0);
    assert_eq!(e.group_points_count(a), Some(0));
    for x in -5..5 {
        for y in -5..5 {
            assert_eq!(e.owner_at(gp(x, y), ZonePointData::ZONE1), None);
        }
    }
}

#[test]
fn releasing_an_unclaimed_cell_is_a_no_op() {
    let mut e = ZoneEngine::new(10, 10);
    let a = e.spawn_group(ZonePointData::ZONE1, 1);
    release(&mut e, a, gp(1, 1));
    let stats = e.drain_and_apply();
    assert_eq!(stats.conflicts, 0);
    assert_eq!(stats.bounds_skips, 0);
    assert_eq!(stats.unknown_skips, 0);
    assert_eq!(e.owner_at(gp(1, 1), ZonePointData::ZONE1), None);
}

#[test]
fn repeated_claim_by_the_same_group_is_not_a_conflict() {
    let mut e = ZoneEngine::new(10, 10);
    let a = e.spawn_group(ZonePointData::ZONE1, 1);
    claim(&mut e, a, gp(2, 2));
    claim(&mut e, a, gp(2, 2));
    let stats = e.drain_and_apply();
    assert_eq!(stats.conflicts, 0);
    assert_eq!(e.group_points_count(a), Some(1));
}

#[test]
fn conflicting_claim_overwrites_and_strips_the_loser() {
    // the concrete scenario: a 10x10 grid centred at the origin, two groups
    // of the same class, the second to enqueue wins the contested cell
    let mut e = ZoneEngine::new(10, 10);
    let a = e.spawn_group(ZonePointData::ZONE1, 1);
    let b = e.spawn_group(ZonePointData::ZONE1, 1);
    claim(&mut e, a, gp(0, 0));
    claim(&mut e, a, gp(1, 0));
    claim(&mut e, b, gp(1, 0));
    claim(&mut e, b, gp(2, 0));
    let stats = e.drain_and_apply();
    assert_eq!(stats.conflicts, 1);
    assert_eq!(e.owner_at(gp(0, 0), ZonePointData::ZONE1), Some(a as u32));
    assert_eq!(e.owner_at(gp(1, 0), ZonePointData::ZONE1), Some(b as u32));
    assert_eq!(e.owner_at(gp(2, 0), ZonePointData::ZONE1), Some(b as u32));
    // the loser's membership must not keep the contested cell
    assert!(e.group_contains_point(a, gp(0, 0)));
    assert!(!e.group_contains_point(a, gp(1, 0)));
    assert!(e.group_contains_point(b, gp(1, 0)));
    assert!(e.group_contains_point(b, gp(2, 0)));
    assert_eq!(e.group_points_count(a), Some(1));
    assert_eq!(e.group_points_count(b), Some(2));
}

#[test]
fn claims_for_a_despawned_group_are_skipped() {
    let mut e = ZoneEngine::new(10, 10);
    let a = e.spawn_group(ZonePointData::ZONE1, 1);
    claim(&mut e, a, gp(0, 0));
    assert!(e.despawn_group(a));
    assert!(!e.despawn_group(a));
    let stats = e.drain_and_apply();
    assert_eq!(stats.unknown_skips, 1);
    assert_eq!(e.owner_at(gp(0, 0), ZonePointData::ZONE1), None);
    assert!(!e.is_live(a));
}

#[test]
fn despawn_releases_every_claimed_cell() {
    let mut e = ZoneEngine::new(10, 10);
    let a = e.spawn_group(ZonePointData::ZONE2, 1);
    claim(&mut e, a, gp(-1, -1));
    claim(&mut e, a, gp(3, 3));
    e.drain_and_apply();
    assert_eq!(e.owner_at(gp(-1, -1), ZonePointData::ZONE2), Some(a as u32));
    assert!(e.despawn_group(a));
    e.drain_and_apply();
    assert_eq!(e.owner_at(gp(-1, -1), ZonePointData::ZONE2), None);
    assert_eq!(e.owner_at(gp(3, 3), ZonePointData::ZONE2), None);
}

#[test]
fn enqueue_for_a_dead_id_is_rejected() {
    let mut e = ZoneEngine::new(10, 10);
    assert!(!e.enqueue_zone_change(7, gp(0, 0), ZoneChangedKind::PointAdded));
    let a = e.spawn_group(ZonePointData::ZONE1, 1);
    assert!(e.despawn_group(a));
    assert!(!e.enqueue_zone_change(a, gp(0, 0), ZoneChangedKind::PointAdded));
}

#[test]
fn merge_yields_the_union_of_footprints() {
    let mut e = ZoneEngine::new(10, 10);
    let a = e.spawn_group(ZonePointData::ZONE1, 2); // id 1
    let b = e.spawn_group(ZonePointData::ZONE2, 3); // id 2
    claim(&mut e, a, gp(0, 0));
    claim(&mut e, a, gp(1, 0));
    claim(&mut e, b, gp(1, 0));
    claim(&mut e, b, gp(2, 0));
    e.drain_and_apply();

    let n = e.merge_groups(&vec![a, b]).unwrap();
    assert_eq!(n, 3);
    // four releases, then one claim per distinct coordinate of the union:
    // the shared coordinate is coalesced before any claim is emitted
    assert_eq!(e.channel.len(), 4 + 3);
    let stats = e.drain_and_apply();
    assert_eq!(stats.conflicts, 0);
    assert!(!e.is_live(a));
    assert!(!e.is_live(b));
    assert!(e.is_live(n));
    // union, not sum: (1, 0) was owned by both inputs but is owned once
    assert_eq!(e.group_points_count(n), Some(3));
    let nc = e.group_zone_color(n).unwrap();
    assert_eq!(nc, ZonePointData::id_to_zone(n as u32));
    for p in [gp(0, 0), gp(1, 0), gp(2, 0)] {
        assert!(e.group_contains_point(n, p));
        assert_eq!(e.owner_at(p, nc), Some(n as u32));
        assert_eq!(e.owner_at(p, ZonePointData::ZONE1), None);
        assert_eq!(e.owner_at(p, ZonePointData::ZONE2), None);
    }
    // all five agents were reparented
    assert_eq!(e.group_member_count(n), Some(5));
}

#[test]
fn merge_requests_with_unmet_preconditions_are_ignored() {
    let mut e = ZoneEngine::new(10, 10);
    let a = e.spawn_group(ZonePointData::ZONE1, 1);
    let b = e.spawn_group(ZonePointData::ZONE2, 1);
    assert_eq!(e.merge_groups(&vec![a]), None);
    assert_eq!(e.merge_groups(&vec![a, a]), None);
    assert_eq!(e.merge_groups(&vec![a, 999]), None);
    assert!(e.is_live(a) && e.is_live(b));
}

#[test]
fn split_duplicates_the_footprint_and_partitions_the_agents() {
    let mut e = ZoneEngine::new(10, 10);
    let g = e.spawn_group(ZonePointData::ZONE1, 5); // id 1
    claim(&mut e, g, gp(0, 0));
    claim(&mut e, g, gp(1, 1));
    e.drain_and_apply();

    let (n1, n2) = e.split_group(g).unwrap();
    assert_eq!((n1, n2), (2, 3));
    let stats = e.drain_and_apply();
    assert_eq!(stats.conflicts, 0);
    assert!(!e.is_live(g));
    // agents: floor(5 / 2) and the rest
    assert_eq!(e.group_member_count(n1), Some(2));
    assert_eq!(e.group_member_count(n2), Some(3));
    // the zone footprint is duplicated onto both halves
    let c1 = e.group_zone_color(n1).unwrap();
    let c2 = e.group_zone_color(n2).unwrap();
    assert_ne!(c1, c2);
    for p in [gp(0, 0), gp(1, 1)] {
        assert!(e.group_contains_point(n1, p));
        assert!(e.group_contains_point(n2, p));
        assert_eq!(e.owner_at(p, c1), Some(n1 as u32));
        assert_eq!(e.owner_at(p, c2), Some(n2 as u32));
        assert_eq!(e.owner_at(p, ZonePointData::ZONE1), None);
    }
    assert_eq!(e.group_points_count(n1), Some(2));
    assert_eq!(e.group_points_count(n2), Some(2));
}

#[test]
fn split_requests_with_unmet_preconditions_are_ignored() {
    let mut e = ZoneEngine::new(10, 10);
    let single = e.spawn_group(ZonePointData::ZONE1, 1);
    assert_eq!(e.split_group(single), None);
    assert_eq!(e.split_group(999), None);
    assert!(e.is_live(single));
}

#[test]
fn group_action_dispatches_merge_and_split() {
    let mut e = ZoneEngine::new(10, 10);
    let a = e.spawn_group(ZonePointData::ZONE1, 2);
    let b = e.spawn_group(ZonePointData::ZONE2, 2);
    let created = e.group_action(NanobotGroupAction::Merge, &vec![a, b]);
    assert_eq!(created.len(), 1);
    e.drain_and_apply();
    let n = created[0];
    assert!(e.is_live(n));
    let created = e.group_action(NanobotGroupAction::Split, &vec![n]);
    assert_eq!(created.len(), 2);
    e.drain_and_apply();
    assert!(!e.is_live(n));
    assert!(e.is_live(created[0]) && e.is_live(created[1]));
    assert_eq!(e.group_member_count(created[0]), Some(2));
    assert_eq!(e.group_member_count(created[1]), Some(2));
}

#[test]
fn memberships_and_raster_agree_after_many_drains() {
    // drive a small random-ish workload, then check both consistency
    // directions through the public accessors
    let mut e = ZoneEngine::new(8, 8);
    let a = e.spawn_group(ZonePointData::ZONE1, 2);
    let b = e.spawn_group(ZonePointData::ZONE1, 2);
    for x in -4..4 {
        claim(&mut e, a, gp(x, 0));
    }
    e.drain_and_apply();
    for x in -2..4 {
        claim(&mut e, b, gp(x, 0));
    }
    release(&mut e, a, gp(-4, 0));
    e.drain_and_apply();

    for x in -4..4i32 {
        for y in -4..4i32 {
            let p = gp(x, y);
            let owner = e.owner_at(p, ZonePointData::ZONE1);
            let in_a = e.group_contains_point(a, p);
            let in_b = e.group_contains_point(b, p);
            match owner {
                Some(o) if o == a as u32 => assert!(in_a && !in_b),
                Some(o) if o == b as u32 => assert!(in_b && !in_a),
                Some(o) => panic!("unexpected owner {o}"),
                None => assert!(!in_a && !in_b),
            }
        }
    }
}

#[test]
fn draining_an_empty_queue_changes_nothing() {
    let mut e = ZoneEngine::new(10, 10);
    let a = e.spawn_group(ZonePointData::ZONE1, 1);
    claim(&mut e, a, gp(0, 0));
    e.drain_and_apply();
    let stats = e.drain_and_apply();
    assert_eq!(stats.conflicts, 0);
    assert_eq!(stats.bounds_skips, 0);
    assert_eq!(stats.unknown_skips, 0);
    assert_eq!(e.owner_at(gp(0, 0), ZonePointData::ZONE1), Some(a as u32));
    assert_eq!(e.group_points_count(a), Some(1));
}

#[test]
fn deltas_survive_in_enqueue_order_until_the_drain() {
    let mut e = ZoneEngine::new(10, 10);
    let a = e.spawn_group(ZonePointData::ZONE1, 1);
    claim(&mut e, a, gp(0, 0));
    release(&mut e, a, gp(0, 0));
    assert_eq!(e.channel.len(), 2);
    // applied in enqueue order: the release wins
    e.drain_and_apply();
    assert_eq!(e.channel.len(), 0);
    assert_eq!(e.owner_at(gp(0, 0), ZonePointData::ZONE1), None);

    release(&mut e, a, gp(1, 1));
    claim(&mut e, a, gp(1, 1));
    e.drain_and_apply();
    // applied in enqueue order: the claim wins
    assert_eq!(e.owner_at(gp(1, 1), ZonePointData::ZONE1), Some(a as u32));
}

#[test]
fn group_action_split_over_empty_selection_changes_nothing() {
    let mut e = ZoneEngine::new(10, 10);
    let a = e.spawn_group(ZonePointData::ZONE1, 2);
    let created = e.group_action(NanobotGroupAction::Split, &vec![]);
    assert_eq!(created.len(), 0);
    assert_eq!(e.channel.len(), 0);
    assert!(e.is_live(a));
}

#[test]
fn group_action_splits_each_selected_group_in_order() {
    let mut e = ZoneEngine::new(10, 10);
    let a = e.spawn_group(ZonePointData::ZONE1, 2); // id 1
    let b = e.spawn_group(ZonePointData::ZONE2, 3); // id 2
    let single = e.spawn_group(ZonePointData::ZONE3, 1); // id 3: too small to split
    let created = e.group_action(NanobotGroupAction::Split, &vec![a, single, b]);
    e.drain_and_apply();
    // a and b were split in order, the one-agent group was ignored
    assert_eq!(created, vec![4, 5, 6, 7]);
    assert!(!e.is_live(a));
    assert!(!e.is_live(b));
    assert!(e.is_live(single));
    assert_eq!(e.group_member_count(4), Some(1));
    assert_eq!(e.group_member_count(5), Some(1));
    assert_eq!(e.group_member_count(6), Some(1));
    assert_eq!(e.group_member_count(7), Some(2));
}
