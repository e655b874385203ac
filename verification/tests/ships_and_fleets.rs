use ec4x_core::{Fleet, LaneType, Ship, ShipType};

#[test]
fn ship_new_keeps_fields() {
    let ship = Ship::new(ShipType::Spacelift, true);
    assert_eq!(ship.ship_type, ShipType::Spacelift);
    assert!(ship.is_crippled);
}

#[test]
fn only_sound_military_ships_cross_restricted_lanes() {
    assert!(Ship::new(ShipType::Military, false).can_cross_restricted_lane());
    assert!(!Ship::new(ShipType::Military, true).can_cross_restricted_lane());
    assert!(!Ship::new(ShipType::Spacelift, false).can_cross_restricted_lane());
    assert!(!Ship::new(ShipType::Spacelift, true).can_cross_restricted_lane());
}

#[test]
fn lane_weights_are_one_two_three() {
    assert_eq!(LaneType::Major.weight(), 1);
    assert_eq!(LaneType::Minor.weight(), 2);
    assert_eq!(LaneType::Restricted.weight(), 3);
}

#[test]
fn sound_military_fleet_crosses_every_lane() {
    let fleet = Fleet {
        ships: vec![Ship::new(ShipType::Military, false), Ship::new(ShipType::Military, false)],
    };
    assert!(fleet.can_traverse(LaneType::Major));
    assert!(fleet.can_traverse(LaneType::Minor));
    assert!(fleet.can_traverse(LaneType::Restricted));
}

#[test]
fn spacelift_ship_keeps_fleet_off_restricted_lanes() {
    let fleet = Fleet {
        ships: vec![Ship::new(ShipType::Military, false), Ship::new(ShipType::Spacelift, false)],
    };
    assert!(fleet.can_traverse(LaneType::Major));
    assert!(fleet.can_traverse(LaneType::Minor));
    assert!(!fleet.can_traverse(LaneType::Restricted));
}

#[test]
fn crippled_ship_keeps_fleet_off_restricted_lanes() {
    let fleet = Fleet {
        ships: vec![
            Ship::new(ShipType::Military, false),
            Ship::new(ShipType::Military, false),
            Ship::new(ShipType::Military, true),
        ],
    };
    assert!(fleet.can_traverse(LaneType::Major));
    assert!(fleet.can_traverse(LaneType::Minor));
    assert!(!fleet.can_traverse(LaneType::Restricted));
}

#[test]
fn empty_fleet_crosses_every_lane() {
    let fleet = Fleet { ships: Vec::new() };
    assert!(fleet.can_traverse(LaneType::Restricted));
}
