use ds_registry::accounts::{AccountRegistry, Role};
use ds_registry::error::Error;
use ds_registry::events::{Event, EventLog};
use ds_registry::maps::{Box3D, Point3D, Zone, ZoneRegistry, ZoneType};

fn cube(a: u32, b: u32) -> Box3D<Point3D<u32>> {
    Box3D::new(Point3D::new(a, a, a), Point3D::new(b, b, b))
}

#[test]
fn zone_type_defaults_to_green() {
    assert_eq!(ZoneType::default(), ZoneType::Green);
}

#[test]
fn zone_constructors_keep_their_fields() {
    let p = Point3D::new(1u32, 2, 3);
    assert_eq!((p.x, p.y, p.z), (1, 2, 3));
    let b = Box3D::new(p, Point3D::new(4, 5, 6));
    assert_eq!(b.point_1, p);
    assert_eq!(b.point_2, Point3D::new(4, 5, 6));
    let z = Zone::new(7, ZoneType::Red, b);
    assert_eq!(z.zone_id, 7);
    assert!(z.zone_is(ZoneType::Red));
    assert!(!z.zone_is(ZoneType::Green));
    assert_eq!(z.bounding_box, b);
}

#[test]
fn zone_scenario() {
    let accounts = AccountRegistry::new(1, 0);
    let mut log = EventLog::new();
    let mut zones = ZoneRegistry::new();
    assert_eq!(zones.zone_add(&accounts, 1, ZoneType::Green, cube(0, 1), &mut log), Ok(0));
    assert_eq!(zones.zone_add(&accounts, 1, ZoneType::Red, cube(2, 3), &mut log), Ok(1));
    assert!(zones.zone_is(0, ZoneType::Green));
    assert!(!zones.zone_is(1, ZoneType::Green));
    assert!(zones.zone_is(1, ZoneType::Red));
    assert!(!zones.zone_is(99, ZoneType::Green));
    assert!(zones.map_data(99).is_none());
    assert_eq!(zones.total_boxes(), 2);
    assert_eq!(
        log.events(),
        vec![
            Event::ZoneCreated(0, 1, ZoneType::Green),
            Event::ZoneCreated(1, 1, ZoneType::Red)
        ]
    );
}

#[test]
fn zone_ids_follow_call_order() {
    let accounts = AccountRegistry::new(1, 0);
    let mut log = EventLog::new();
    let mut zones = ZoneRegistry::new();
    let kinds = [ZoneType::Parent, ZoneType::Green, ZoneType::Red, ZoneType::Green];
    for (n, kind) in kinds.iter().enumerate() {
        assert_eq!(zones.total_boxes(), n as u32);
        let id = zones.zone_add(&accounts, 1, *kind, cube(n as u32, 9), &mut log);
        assert_eq!(id, Ok(n as u32));
        assert_eq!(zones.map_data(n as u32).unwrap().zone_id, n as u32);
        assert_eq!(zones.map_data(n as u32).unwrap().bounding_box, cube(n as u32, 9));
    }
    assert_eq!(zones.total_boxes(), 4);
    assert!(zones.zone_is(0, ZoneType::Parent));
}

#[test]
fn zone_add_needs_registrar() {
    let mut accounts = AccountRegistry::new(1, 0);
    let mut log = EventLog::new();
    assert_eq!(accounts.account_add(1, 2, Role::Standard, 0, &mut log), Ok(()));
    let before = log.events().len();
    assert_eq!(before, 1);
    let mut zones = ZoneRegistry::new();
    assert_eq!(
        zones.zone_add(&accounts, 2, ZoneType::Green, cube(0, 1), &mut log),
        Err(Error::NotAuthorized)
    );
    assert_eq!(
        zones.zone_add(&accounts, 3, ZoneType::Green, cube(0, 1), &mut log),
        Err(Error::NotAuthorized)
    );
    assert_eq!(zones.total_boxes(), 0);
    assert!(log.last_event().is_none());
    assert_eq!(zones.zone_add(&accounts, 1, ZoneType::Green, cube(0, 1), &mut log), Ok(0));
}

#[test]
fn zone_encoding_bytes() {
    let accounts = AccountRegistry::new(1, 0);
    let mut log = EventLog::new();
    let mut zones = ZoneRegistry::new();
    let b = Box3D::new(Point3D::new(1, 2, 3), Point3D::new(0x0100, 5, 6));
    assert_eq!(zones.zone_add(&accounts, 1, ZoneType::Parent, b, &mut log), Ok(0));
    assert_eq!(
        zones.encode(),
        vec![
            0, 0, 0, 0, 2, 1, 0, 0, 0, 2, 0, 0, 0, 3, 0, 0, 0, 0, 1, 0, 0, 5, 0, 0, 0, 6, 0, 0,
            0
        ]
    );
}

#[test]
fn zone_round_trip() {
    let accounts = AccountRegistry::new(1, 0);
    let mut log = EventLog::new();
    let mut zones = ZoneRegistry::new();
    assert_eq!(zones.zone_add(&accounts, 1, ZoneType::Green, cube(0, 1), &mut log), Ok(0));
    assert_eq!(zones.zone_add(&accounts, 1, ZoneType::Red, cube(u32::MAX, 3), &mut log), Ok(1));
    let bytes = zones.encode();
    assert_eq!(bytes.len(), 2 * 29);
    let back = ZoneRegistry::<Point3D<u32>>::decode(&bytes).unwrap();
    assert_eq!(back.encode(), bytes);
    assert_eq!(back.total_boxes(), 2);
    assert!(back.zone_is(1, ZoneType::Red));
    assert_eq!(back.map_data(1).unwrap().bounding_box, cube(u32::MAX, 3));
}

#[test]
fn zone_decode_rejects_bad_input() {
    let accounts = AccountRegistry::new(1, 0);
    let mut log = EventLog::new();
    let mut zones = ZoneRegistry::new();
    assert_eq!(zones.zone_add(&accounts, 1, ZoneType::Green, cube(0, 1), &mut log), Ok(0));
    let bytes = zones.encode();
    assert_eq!(
        ZoneRegistry::<Point3D<u32>>::decode(&bytes[..28]).err().map(|e| e),
        Some(Error::InvalidData)
    );
    let mut bad_tag = bytes.clone();
    bad_tag[4] = 3;
    assert_eq!(ZoneRegistry::<Point3D<u32>>::decode(&bad_tag).err(), Some(Error::InvalidData));
    let mut bad_id = bytes.clone();
    bad_id[0] = 1;
    assert_eq!(ZoneRegistry::<Point3D<u32>>::decode(&bad_id).err(), Some(Error::InvalidData));
    let mut twice = bytes.clone();
    twice.extend_from_slice(&bytes);
    assert_eq!(ZoneRegistry::<Point3D<u32>>::decode(&twice).err(), Some(Error::InvalidData));
}
