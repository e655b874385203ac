use ec4x_core::chance::{lane_type_for, random_lane_type};
use ec4x_core::topology::{any_repeated, share_of};
use ec4x_core::{GenerationError, Hex, LaneType, StarMap};
use rand::rngs::StdRng;
use rand::SeedableRng;

#[test]
fn share_rounds_to_nearest_and_halves_up() {
    assert_eq!(share_of(0, 3, 18), 0);
    assert_eq!(share_of(1, 3, 18), 6);
    assert_eq!(share_of(2, 3, 18), 12);
    assert_eq!(share_of(1, 4, 10), 3);
    assert_eq!(share_of(1, 3, 10), 3);
    assert_eq!(share_of(2, 3, 10), 7);
    assert_eq!(share_of(6, 7, 42), 36);
}

#[test]
fn any_repeated_finds_a_hex_listed_twice() {
    assert!(!any_repeated(&Vec::new()));
    assert!(!any_repeated(&vec![Hex::new(0, 1), Hex::new(1, 0), Hex::new(1, 1)]));
    assert!(any_repeated(&vec![Hex::new(0, 1), Hex::new(1, 0), Hex::new(0, 1)]));
    assert!(any_repeated(&vec![Hex::new(2, 2), Hex::new(2, 2)]));
}

#[test]
fn draws_stand_for_lane_classes() {
    assert_eq!(lane_type_for(0), LaneType::Major);
    assert_eq!(lane_type_for(1), LaneType::Minor);
    assert_eq!(lane_type_for(2), LaneType::Restricted);
    assert_eq!(lane_type_for(9), LaneType::Restricted);
}

#[test]
fn random_lane_types_cover_all_three_classes() {
    let mut rng = StdRng::seed_from_u64(17);
    let mut seen = [0usize; 3];
    for _ in 0..300 {
        match random_lane_type(&mut rng) {
            LaneType::Major => seen[0] += 1,
            LaneType::Minor => seen[1] += 1,
            LaneType::Restricted => seen[2] += 1,
        }
    }
    assert!(seen.iter().all(|count| *count > 50));
}

#[test]
fn generate_gives_a_connected_galaxy_with_homes() {
    for players in 2..=9usize {
        let mut rng = StdRng::seed_from_u64(players as u64);
        let mut map = StarMap::generate(players, &mut rng);
        assert_eq!(map.player_count(), players);
        assert_eq!(map.system_count(), 3 * players * players + 3 * players + 1);
        assert!(map.is_connected());
        for player in 0..players {
            let homes = map.systems.values().filter(|system| system.player == Some(player)).count();
            assert_eq!(homes, 1);
        }
        assert!(map.systems.values().all(|system| {
            system.player.is_none() || system.ring == players as u32
        }));
        for system in map.systems.values() {
            assert!(map.open_neighbor_ids(system.id).is_empty());
        }
        let lanes = map.lanes.len();
        let again = map.generate_lanes(&mut rng);
        assert!(matches!(again, Err(GenerationError::HomeNeighbors { available: 0, .. })));
        assert_eq!(map.lanes.len(), lanes);
        assert_eq!(map.graph.edge_count(), lanes);
    }
}
