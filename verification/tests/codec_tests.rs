use nanoswarm_zones::codec::ZonePointData;

#[test]
fn new_cell_has_no_active_zone() {
    let c = ZonePointData::new();
    for z in [ZonePointData::ZONE1, ZonePointData::ZONE2, ZonePointData::ZONE3, ZonePointData::ZONE4] {
        assert!(!c.is_zone_active(z));
        assert_eq!(c.get_zone_id(z), 0);
        assert_eq!(c.owner_of(z), None);
    }
}

#[test]
fn round_trip_every_zone() {
    for z in [ZonePointData::ZONE1, ZonePointData::ZONE2, ZonePointData::ZONE3, ZonePointData::ZONE4] {
        let mut c = ZonePointData::new();
        c.set_zone(z, true);
        c.set_zone_id(z, 1234);
        assert!(c.is_zone_active(z));
        assert_eq!(c.get_zone_id(z), 1234);
        assert_eq!(c.owner_of(z), Some(1234));
        c.set_zone(z, false);
        assert!(!c.is_zone_active(z));
        assert_eq!(c.owner_of(z), None);
    }
}

#[test]
fn zones_are_independent() {
    let mut c = ZonePointData::new();
    c.set_zone(ZonePointData::ZONE1, true);
    c.set_zone_id(ZonePointData::ZONE1, 7);
    c.set_zone(ZonePointData::ZONE3, true);
    c.set_zone_id(ZonePointData::ZONE3, 9);
    assert!(c.is_zone_active(ZonePointData::ZONE1));
    assert!(!c.is_zone_active(ZonePointData::ZONE2));
    assert!(c.is_zone_active(ZonePointData::ZONE3));
    assert!(!c.is_zone_active(ZonePointData::ZONE4));
    assert_eq!(c.owner_of(ZonePointData::ZONE1), Some(7));
    assert_eq!(c.owner_of(ZonePointData::ZONE3), Some(9));
    c.set_zone_id(ZonePointData::ZONE2, 11);
    assert_eq!(c.owner_of(ZonePointData::ZONE1), Some(7));
    assert_eq!(c.owner_of(ZonePointData::ZONE3), Some(9));
    assert!(!c.is_zone_active(ZonePointData::ZONE2));
}

#[test]
fn exact_bit_layout() {
    let mut c = ZonePointData::new();
    c.set_zone(ZonePointData::ZONE1, true);
    c.set_zone_id(ZonePointData::ZONE1, 5);
    assert_eq!(c.zones, (5 << 4) | 1);
    assert_eq!(c.bits, 0);

    let mut c = ZonePointData::new();
    c.set_zone(ZonePointData::ZONE2, true);
    c.set_zone_id(ZonePointData::ZONE2, 3);
    assert_eq!(c.zones, (3 << 18) | 2);

    let mut c = ZonePointData::new();
    c.set_zone(ZonePointData::ZONE4, true);
    c.set_zone_id(ZonePointData::ZONE4, ZonePointData::ZONE_ID_MASK);
    assert_eq!(c.zones, 8);
    assert_eq!(c.bits, ZonePointData::ZONE_ID_MASK << 14);
}

#[test]
fn overwriting_owner_id_keeps_presence() {
    let mut c = ZonePointData::new();
    c.set_zone(ZonePointData::ZONE2, true);
    c.set_zone_id(ZonePointData::ZONE2, 100);
    c.set_zone_id(ZonePointData::ZONE2, 200);
    assert!(c.is_zone_active(ZonePointData::ZONE2));
    assert_eq!(c.owner_of(ZonePointData::ZONE2), Some(200));
}

#[test]
fn id_to_zone_is_round_robin_and_consecutive_ids_differ() {
    assert_eq!(ZonePointData::id_to_zone(0), ZonePointData::ZONE1);
    assert_eq!(ZonePointData::id_to_zone(1), ZonePointData::ZONE2);
    assert_eq!(ZonePointData::id_to_zone(2), ZonePointData::ZONE3);
    assert_eq!(ZonePointData::id_to_zone(3), ZonePointData::ZONE4);
    assert_eq!(ZonePointData::id_to_zone(4), ZonePointData::ZONE1);
    for id in 0..100u32 {
        assert_ne!(
            ZonePointData::id_to_zone(id),
            ZonePointData::id_to_zone(id + 1)
        );
    }
}
