use nanoswarm_zones::codec::ZonePointData;
use nanoswarm_zones::grid::{GridPoint, ZoneMaterial};

fn gp(x: i32, y: i32) -> GridPoint {
    GridPoint { x, y }
}

#[test]
fn new_grid_is_empty() {
    let g = ZoneMaterial::new(4, 3);
    assert_eq!(g.width, 4);
    assert_eq!(g.height, 3);
    assert_eq!(g.highlight_zone_id, 0);
    assert_eq!(g.zone_map.len(), 12);
    for x in 0..4 {
        for y in 0..3 {
            let c = g.at_zone(x, y).unwrap();
            assert!(!c.is_zone_active(ZonePointData::ZONE1));
        }
    }
}

#[test]
fn at_zone_rejects_raster_coordinates_outside() {
    let g = ZoneMaterial::new(4, 3);
    assert!(g.at_zone(4, 0).is_none());
    assert!(g.at_zone(0, 3).is_none());
    assert!(g.at_zone(3, 2).is_some());
}

#[test]
fn at_zone_mut_writes_one_cell() {
    let mut g = ZoneMaterial::new(4, 4);
    {
        let c = g.at_zone_mut(1, 2).unwrap();
        c.set_zone(ZonePointData::ZONE1, true);
        c.set_zone_id(ZonePointData::ZONE1, 42);
    }
    assert_eq!(g.at_zone(1, 2).unwrap().owner_of(ZonePointData::ZONE1), Some(42));
    assert_eq!(g.at_zone(2, 1).unwrap().owner_of(ZonePointData::ZONE1), None);
    assert!(g.at_zone_mut(4, 0).is_none());
}

#[test]
fn world_bounds_are_centred_half_open() {
    let g = ZoneMaterial::new(10, 10);
    assert!(g.get(gp(-5, -5)).is_some());
    assert!(g.get(gp(4, 4)).is_some());
    assert!(g.get(gp(5, 0)).is_none());
    assert!(g.get(gp(0, 5)).is_none());
    assert!(g.get(gp(-6, 0)).is_none());
    assert!(g.get(gp(0, -6)).is_none());
}

#[test]
fn put_then_get_round_trip() {
    let mut g = ZoneMaterial::new(10, 10);
    let mut c = ZonePointData::new();
    c.set_zone(ZonePointData::ZONE1, true);
    c.set_zone_id(ZonePointData::ZONE1, 9);
    assert!(g.put(gp(2, -3), c));
    assert_eq!(g.get(gp(2, -3)).unwrap().owner_of(ZonePointData::ZONE1), Some(9));
    assert_eq!(g.get(gp(-3, 2)).unwrap().owner_of(ZonePointData::ZONE1), None);
    assert!(!g.put(gp(5, 0), c));
}

#[test]
fn world_origin_maps_to_expected_raster_row() {
    // rows grow downwards: world (0, 0) in a 4x4 grid sits at raster (2, 1)
    let mut g = ZoneMaterial::new(4, 4);
    let mut c = ZonePointData::new();
    c.set_zone(ZonePointData::ZONE1, true);
    c.set_zone_id(ZonePointData::ZONE1, 3);
    assert!(g.put(GridPoint { x: 0, y: 0 }, c));
    assert_eq!(g.at_zone(2, 1).unwrap().owner_of(ZonePointData::ZONE1), Some(3));
}

#[test]
fn highlight_follows_selection_and_clears_on_matching_deselection() {
    let mut g = ZoneMaterial::new(4, 4);
    g.select_highlight(7);
    assert_eq!(g.highlight_zone_id, 7);
    g.select_highlight(9);
    assert_eq!(g.highlight_zone_id, 9);
    g.deselect_highlight(7);
    assert_eq!(g.highlight_zone_id, 9);
    g.deselect_highlight(9);
    assert_eq!(g.highlight_zone_id, 0);
}

#[test]
fn odd_dimensions_use_floored_half_open_bounds() {
    let g = ZoneMaterial::new(5, 5);
    assert!(g.get(gp(-2, -2)).is_some());
    assert!(g.get(gp(1, 1)).is_some());
    assert!(g.get(gp(2, 0)).is_none());
    assert!(g.get(gp(0, 2)).is_none());
    assert!(g.get(gp(-3, 0)).is_none());
}

#[test]
fn empty_grid_rejects_everything() {
    let g = ZoneMaterial::new(0, 0);
    assert_eq!(g.zone_map.len(), 0);
    assert!(g.get(gp(0, 0)).is_none());
    assert!(g.at_zone(0, 0).is_none());
}
