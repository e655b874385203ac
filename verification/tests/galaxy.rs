use ec4x_core::topology::ring_by_angle;
use ec4x_core::{
    Fleet, GenerationError, Hex, JumpLane, LaneType, Ship, ShipType, StarMap, System,
};
use rand::rngs::StdRng;
use rand::SeedableRng;

fn generated(player_count: usize, seed: u64) -> StarMap {
    assert!(StarMap::fits(player_count));
    let mut map = StarMap::new(player_count);
    assert_eq!(map.populate(), Ok(()));
    let mut rng = StdRng::seed_from_u64(seed);
    assert_eq!(map.generate_lanes(&mut rng), Ok(()));
    map
}

fn lanes_at(map: &StarMap, id: usize) -> Vec<JumpLane> {
    map.lanes.iter().filter(|lane| lane.source == id || lane.destination == id).cloned().collect()
}

fn home_of(map: &StarMap, player: usize) -> System {
    let homes: Vec<System> =
        map.systems.values().filter(|system| system.player == Some(player)).cloned().collect();
    assert_eq!(homes.len(), 1);
    homes[0]
}

fn lane_type_between(map: &StarMap, a: usize, b: usize) -> LaneType {
    let found: Vec<&JumpLane> = map
        .lanes
        .iter()
        .filter(|lane| {
            (lane.source == a && lane.destination == b)
                || (lane.source == b && lane.destination == a)
        })
        .collect();
    assert_eq!(found.len(), 1);
    found[0].lane_type
}

fn route_cost(map: &StarMap, path: &Vec<System>) -> u32 {
    let mut cost = 0;
    for pair in path.windows(2) {
        cost += lane_type_between(map, pair[0].id, pair[1].id).weight();
    }
    cost
}

fn cheapest(map: &StarMap, start: usize, goal: usize, fleet: &Fleet) -> Option<u32> {
    let mut best: Vec<(usize, u32)> = vec![(start, 0)];
    let mut changed = true;
    while changed {
        changed = false;
        for lane in map.lanes.iter() {
            if !fleet.can_traverse(lane.lane_type) {
                continue;
            }
            for (from, to) in [(lane.source, lane.destination), (lane.destination, lane.source)] {
                let Some(&(_, base)) = best.iter().find(|(id, _)| *id == from) else {
                    continue;
                };
                let offer = base + lane.lane_type.weight();
                match best.iter_mut().find(|(id, _)| *id == to) {
                    Some(entry) => {
                        if offer < entry.1 {
                            entry.1 = offer;
                            changed = true;
                        }
                    }
                    None => {
                        best.push((to, offer));
                        changed = true;
                    }
                }
            }
        }
    }
    best.iter().find(|(id, _)| *id == goal).map(|(_, cost)| *cost)
}

fn no_pair_joined_twice(map: &StarMap) -> bool {
    for (i, a) in map.lanes.iter().enumerate() {
        for b in map.lanes.iter().skip(i + 1) {
            let same = (a.source == b.source && a.destination == b.destination)
                || (a.source == b.destination && a.destination == b.source);
            if same {
                return false;
            }
        }
    }
    true
}

fn military() -> Fleet {
    Fleet { ships: vec![Ship::new(ShipType::Military, false), Ship::new(ShipType::Military, false)] }
}

fn spacelift() -> Fleet {
    Fleet { ships: vec![Ship::new(ShipType::Spacelift, false)] }
}

fn check_generated(player_count: usize, seed: u64) {
    let map = generated(player_count, seed);
    let radius = player_count as u32;
    assert_eq!(map.num_rings(), radius);
    assert_eq!(map.player_count(), player_count);
    assert_eq!(map.system_count(), 3 * player_count * player_count + 3 * player_count + 1);
    let hub = lanes_at(&map, map.hub_id());
    assert_eq!(hub.len(), 6);
    assert!(hub.iter().all(|lane| lane.lane_type == LaneType::Major));
    for player in 0..player_count {
        let home = home_of(&map, player);
        assert_eq!(home.ring, radius);
        let lanes = lanes_at(&map, home.id);
        assert_eq!(lanes.len(), 3);
        assert!(lanes.iter().all(|lane| lane.lane_type == LaneType::Major));
        let mut ends: Vec<usize> = lanes
            .iter()
            .map(|lane| if lane.source == home.id { lane.destination } else { lane.source })
            .collect();
        ends.sort();
        ends.dedup();
        assert_eq!(ends.len(), 3);
        for end in ends {
            assert_eq!(map.systems[&end].coords.distance(&home.coords), 1);
        }
    }
    assert!(map.is_connected());
    assert!(no_pair_joined_twice(&map));
    for lane in map.lanes.iter() {
        let a = map.systems[&lane.source].coords;
        let b = map.systems[&lane.destination].coords;
        assert_eq!(a.distance(&b), 1);
    }
}

#[test]
fn new_map_is_empty() {
    let map = StarMap::new(4);
    assert_eq!(map.player_count(), 4);
    assert_eq!(map.num_rings(), 4);
    assert_eq!(map.hub_id(), Hex::new(0, 0).to_id(4));
    assert_eq!(map.system_count(), 0);
    assert!(map.systems.is_empty());
    assert!(map.lanes.is_empty());
    assert_eq!(map.graph.node_count(), 0);
    assert_eq!(map.graph.edge_count(), 0);
}

#[test]
fn fits_tells_small_galaxies_from_huge_ones() {
    assert!(StarMap::fits(0));
    assert!(StarMap::fits(2));
    assert!(StarMap::fits(8917));
    assert!(!StarMap::fits(8918));
    assert!(!StarMap::fits(usize::MAX));
}

#[test]
fn add_system_numbers_nodes_in_order() {
    let mut map = StarMap::new(2);
    let first = System::new(Hex::new(1, -1), 1, 2, None);
    let second = System::new(Hex::new(0, 0), 0, 2, Some(1));
    map.add_system(first);
    map.add_system(second);
    assert_eq!(map.system_count(), 2);
    assert_eq!(map.graph.node_count(), 2);
    assert_eq!(map.get_system_id_by_node_index(0), first.id);
    assert_eq!(map.get_system_id_by_node_index(1), second.id);
    assert_eq!(map.system(first.id).map(|system| system.coords), Some(Hex::new(1, -1)));
    assert_eq!(map.system(second.id).map(|system| system.player), Some(Some(1)));
    assert!(map.system(0).is_none());
    assert_eq!(map.system_at(&Hex::new(1, -1)).map(|system| system.id), Some(first.id));
    assert!(map.system_at(&Hex::new(1, 0)).is_none());
    assert!(map.system_at(&Hex::new(5, 0)).is_none());
    assert_eq!(map.system_ids(), {
        let mut ids = vec![first.id, second.id];
        ids.sort();
        ids
    });
}

#[test]
fn system_new_derives_id_from_hex() {
    let system = System::new(Hex::new(2, -1), 2, 3, Some(4));
    assert_eq!(system.id, 5 * 7 + 2);
    assert_eq!(system.coords, Hex::new(2, -1));
    assert_eq!(system.ring, 2);
    assert_eq!(system.player, Some(4));
}

#[test]
fn add_lane_joins_once_in_either_direction() {
    let mut map = StarMap::new(2);
    let a = System::new(Hex::new(0, 0), 0, 2, None);
    let b = System::new(Hex::new(1, 0), 1, 2, None);
    let c = System::new(Hex::new(2, 0), 2, 2, None);
    map.add_system(a);
    map.add_system(b);
    map.add_system(c);
    assert!(!map.has_lane(a.id, b.id));
    map.add_lane(a.id, b.id, LaneType::Minor);
    assert!(map.has_lane(a.id, b.id));
    assert!(map.has_lane(b.id, a.id));
    assert!(!map.has_lane(a.id, c.id));
    map.add_lane(b.id, a.id, LaneType::Major);
    map.add_lane(a.id, b.id, LaneType::Restricted);
    assert_eq!(map.lanes.len(), 1);
    assert_eq!(map.graph.edge_count(), 1);
    assert_eq!(map.lanes[0].source, a.id);
    assert_eq!(map.lanes[0].destination, b.id);
    assert_eq!(map.lanes[0].lane_type, LaneType::Minor);
    map.add_lane(c.id, b.id, LaneType::Restricted);
    assert_eq!(map.lanes.len(), 2);
    let mut around = map.connected_ids(b.id);
    around.sort();
    let mut expected = vec![a.id, c.id];
    expected.sort();
    assert_eq!(around, expected);
    assert_eq!(map.connected_ids(a.id), vec![b.id]);
    let mut ways = map.lanes_from(b.id);
    ways.sort_by_key(|way| way.0);
    let mut wanted = vec![(a.id, LaneType::Minor), (c.id, LaneType::Restricted)];
    wanted.sort_by_key(|way| way.0);
    assert_eq!(ways, wanted);
    assert_eq!(map.lanes_from(c.id), vec![(b.id, LaneType::Restricted)]);
    assert_eq!(map.open_neighbor_ids(a.id), Vec::<usize>::new());
    assert_eq!(map.open_neighbor_ids(c.id), Vec::<usize>::new());
}

#[test]
fn ring_by_angle_walks_the_rim() {
    assert!(ring_by_angle(0).is_empty());
    assert_eq!(
        ring_by_angle(1),
        vec![
            Hex::new(0, -1),
            Hex::new(1, -1),
            Hex::new(1, 0),
            Hex::new(0, 1),
            Hex::new(-1, 1),
            Hex::new(-1, 0),
        ]
    );
    let ring = ring_by_angle(3);
    assert_eq!(ring.len(), 18);
    assert_eq!(ring[0], Hex::new(-2, -1));
    assert_eq!(ring[2], Hex::new(0, -3));
    assert_eq!(ring[5], Hex::new(3, -3));
    assert_eq!(ring[8], Hex::new(3, 0));
    assert_eq!(ring[11], Hex::new(0, 3));
    assert_eq!(ring[14], Hex::new(-3, 3));
    assert_eq!(ring[17], Hex::new(-3, 0));
    let angles: Vec<f64> = ring.iter().map(|hex| (hex.r as f64).atan2(hex.q as f64)).collect();
    for pair in angles.windows(2) {
        assert!(pair[0] < pair[1]);
    }
    for hex in ring.iter() {
        assert_eq!(hex.distance(&Hex::new(0, 0)), 3);
    }
}

#[test]
fn populate_places_every_system() {
    let mut map = StarMap::new(3);
    assert_eq!(map.populate(), Ok(()));
    assert_eq!(map.system_count(), 37);
    assert_eq!(map.systems.len(), 37);
    assert_eq!(map.graph.node_count(), 37);
    assert!(map.lanes.is_empty());
    assert_eq!(map.hub_id(), 24);
    assert_eq!(map.get_system_id_by_node_index(0), 24);
    for hex in Hex::within_radius(&Hex::new(0, 0), 3) {
        let system = map.systems[&hex.to_id(3)];
        assert_eq!(system.id, hex.to_id(3));
        assert_eq!(system.coords, hex);
        assert_eq!(system.ring, hex.distance(&Hex::new(0, 0)));
    }
    assert_eq!(map.count_adjacent(&Hex::new(0, 0)), 6);
    assert_eq!(map.count_adjacent(&Hex::new(3, -3)), 3);
    assert_eq!(map.count_adjacent(&Hex::new(3, -2)), 4);
    assert_eq!(map.count_adjacent(&Hex::new(5, 0)), 0);
    assert_eq!(map.count_adjacent(&Hex::new(4, -2)), 2);
}

#[test]
fn populate_gives_up_to_six_players_the_corners() {
    let mut map = StarMap::new(3);
    assert_eq!(map.populate(), Ok(()));
    assert_eq!(home_of(&map, 0).coords, Hex::new(0, -3));
    assert_eq!(home_of(&map, 1).coords, Hex::new(3, -3));
    assert_eq!(home_of(&map, 2).coords, Hex::new(3, 0));
    assert_eq!(map.systems.values().filter(|system| system.player.is_some()).count(), 3);
    let mut six = StarMap::new(6);
    assert_eq!(six.populate(), Ok(()));
    let corners = [
        Hex::new(0, -6),
        Hex::new(6, -6),
        Hex::new(6, 0),
        Hex::new(0, 6),
        Hex::new(-6, 6),
        Hex::new(-6, 0),
    ];
    for (player, corner) in corners.iter().enumerate() {
        assert_eq!(home_of(&six, player).coords, *corner);
    }
}

#[test]
fn populate_spreads_more_than_six_players_round_the_rim() {
    let mut map = StarMap::new(7);
    assert_eq!(map.populate(), Ok(()));
    let ring = ring_by_angle(7);
    assert_eq!(ring.len(), 42);
    for player in 0..7 {
        assert_eq!(home_of(&map, player).coords, ring[6 * player]);
    }
    assert_eq!(home_of(&map, 0).coords, Hex::new(-6, -1));
    assert_eq!(home_of(&map, 1).coords, Hex::new(0, -7));
    assert_eq!(map.systems.values().filter(|system| system.player.is_some()).count(), 7);
}

#[test]
fn populate_without_players_places_only_the_hub() {
    let mut map = StarMap::new(0);
    assert_eq!(map.populate(), Ok(()));
    assert_eq!(map.system_count(), 1);
    assert_eq!(map.systems[&0].player, None);
    let mut rng = StdRng::seed_from_u64(1);
    assert_eq!(map.generate_lanes(&mut rng), Err(GenerationError::HubNeighbors { found: 0 }));
    assert!(map.lanes.is_empty());
    assert!(map.is_connected());
}

#[test]
fn generate_lanes_without_hub_reports_it() {
    let mut map = StarMap::new(2);
    map.add_system(System::new(Hex::new(1, 0), 1, 2, None));
    map.add_system(System::new(Hex::new(2, 0), 2, 2, None));
    let mut rng = StdRng::seed_from_u64(1);
    assert_eq!(map.generate_lanes(&mut rng), Err(GenerationError::HubNeighbors { found: 0 }));
    assert_eq!(map.connect_hub(), Err(GenerationError::HubNeighbors { found: 0 }));
    map.add_system(System::new(Hex::new(0, 0), 0, 2, None));
    assert_eq!(map.generate_lanes(&mut rng), Err(GenerationError::HubNeighbors { found: 1 }));
    assert!(map.lanes.is_empty());
}

#[test]
fn single_player_home_lacks_a_third_neighbor() {
    let mut map = StarMap::new(1);
    assert_eq!(map.populate(), Ok(()));
    let home = home_of(&map, 0);
    assert_eq!(home.coords, Hex::new(0, -1));
    let mut rng = StdRng::seed_from_u64(3);
    assert_eq!(
        map.generate_lanes(&mut rng),
        Err(GenerationError::HomeNeighbors { system: home.id, available: 2 })
    );
    assert_eq!(map.lanes.len(), 6);
    assert!(map.lanes.iter().all(|lane| lane.source == map.hub_id()));
}

#[test]
fn two_players_get_hub_and_home_lanes() {
    check_generated(2, 11);
}

#[test]
fn three_players_get_hub_and_home_lanes() {
    check_generated(3, 12);
}

#[test]
fn four_players_get_hub_and_home_lanes() {
    check_generated(4, 13);
}

#[test]
fn six_players_get_hub_and_home_lanes() {
    check_generated(6, 14);
}

#[test]
fn five_players_get_hub_and_home_lanes() {
    check_generated(5, 15);
}

#[test]
fn eight_players_get_a_connected_galaxy() {
    let map = generated(8, 21);
    assert!(map.is_connected());
    assert!(no_pair_joined_twice(&map));
    let hub = lanes_at(&map, map.hub_id());
    assert_eq!(hub.len(), 6);
    for player in 0..8 {
        let lanes = lanes_at(&map, home_of(&map, player).id);
        assert!(lanes.iter().filter(|lane| lane.lane_type == LaneType::Major).count() >= 3);
    }
}

#[test]
fn every_pair_of_neighbors_ends_up_joined_unless_both_are_homes() {
    let map = generated(4, 5);
    for system in map.systems.values() {
        for direction in 0..6 {
            if let Some(neighbor) = map.neighbor_system(&system.coords, direction) {
                if system.player.is_none() || neighbor.player.is_none() {
                    assert!(map.has_lane(system.id, neighbor.id));
                }
            }
        }
    }
}

#[test]
fn random_lanes_come_in_every_class() {
    let map = generated(4, 99);
    for lane_type in [LaneType::Major, LaneType::Minor, LaneType::Restricted] {
        assert!(map.lanes.iter().skip(6 + 12).any(|lane| lane.lane_type == lane_type));
    }
}

#[test]
fn same_seed_gives_the_same_lanes_and_another_seed_others() {
    let first = generated(4, 7);
    let again = generated(4, 7);
    let other = generated(4, 8);
    let classes = |map: &StarMap| -> Vec<(usize, usize, LaneType)> {
        map.lanes.iter().map(|lane| (lane.source, lane.destination, lane.lane_type)).collect()
    };
    assert_eq!(classes(&first), classes(&again));
    assert_ne!(classes(&first), classes(&other));
}

#[test]
fn home_lanes_are_picked_at_random() {
    let mut picks: Vec<Vec<usize>> = Vec::new();
    for seed in 0..20u64 {
        let mut map = StarMap::new(7);
        assert_eq!(map.populate(), Ok(()));
        let home = home_of(&map, 0);
        assert_eq!(map.count_adjacent(&home.coords), 4);
        let mut rng = StdRng::seed_from_u64(seed);
        assert_eq!(map.connect_player_system(home.id, &mut rng), Ok(()));
        assert_eq!(map.lanes.len(), 3);
        let ends: Vec<usize> = map.lanes.iter().map(|lane| lane.destination).collect();
        picks.push(ends);
    }
    assert!(picks.iter().any(|ends| *ends != picks[0]));
}

#[test]
fn generating_again_adds_no_lane() {
    let mut map = generated(3, 31);
    let before: Vec<(usize, usize, LaneType)> =
        map.lanes.iter().map(|lane| (lane.source, lane.destination, lane.lane_type)).collect();
    let mut rng = StdRng::seed_from_u64(32);
    let outcome = map.generate_lanes(&mut rng);
    assert!(matches!(outcome, Err(GenerationError::HomeNeighbors { available: 0, .. })));
    let after: Vec<(usize, usize, LaneType)> =
        map.lanes.iter().map(|lane| (lane.source, lane.destination, lane.lane_type)).collect();
    assert_eq!(before, after);
    assert_eq!(map.graph.edge_count(), before.len());
    assert!(no_pair_joined_twice(&map));
    assert!(map.is_connected());
}

#[test]
fn generating_again_without_homes_succeeds_and_adds_no_lane() {
    let mut map = StarMap::new(2);
    for hex in Hex::within_radius(&Hex::new(0, 0), 2) {
        map.add_system(System::new(hex, hex.distance(&Hex::new(0, 0)), 2, None));
    }
    let mut rng = StdRng::seed_from_u64(5);
    assert_eq!(map.generate_lanes(&mut rng), Ok(()));
    let count = map.lanes.len();
    assert_eq!(count, 42);
    assert_eq!(map.generate_lanes(&mut rng), Ok(()));
    assert_eq!(map.lanes.len(), count);
    assert!(no_pair_joined_twice(&map));
}

#[test]
fn end_to_end_three_players() {
    let map = generated(3, 77);
    assert_eq!(map.num_rings(), 3);
    let hub = lanes_at(&map, map.hub_id());
    assert_eq!(hub.len(), 6);
    assert!(hub.iter().all(|lane| lane.lane_type == LaneType::Major));
    let start = home_of(&map, 0);
    let goal = home_of(&map, 1);
    let fast = map.astar(&start, &goal, &military()).expect("military route");
    assert_eq!(fast.first().map(|system| system.id), Some(start.id));
    assert_eq!(fast.last().map(|system| system.id), Some(goal.id));
    let fast_cost = route_cost(&map, &fast);
    assert_eq!(Some(fast_cost), cheapest(&map, start.id, goal.id, &military()));
    match map.astar(&start, &goal, &spacelift()) {
        Some(slow) => {
            let slow_cost = route_cost(&map, &slow);
            assert!(slow_cost >= fast_cost);
            assert_eq!(Some(slow_cost), cheapest(&map, start.id, goal.id, &spacelift()));
            for pair in slow.windows(2) {
                assert_ne!(lane_type_between(&map, pair[0].id, pair[1].id), LaneType::Restricted);
            }
        }
        None => {
            assert_eq!(cheapest(&map, start.id, goal.id, &spacelift()), None);
        }
    }
}

#[test]
fn astar_finds_cheapest_routes_on_generated_maps() {
    for seed in 0..6u64 {
        let map = generated(3, seed);
        let ids = map.system_ids();
        let start = map.systems[&ids[0]];
        for fleet in [military(), spacelift()] {
            for goal_id in ids.iter().step_by(5) {
                let goal = map.systems[goal_id];
                let found = map.astar(&start, &goal, &fleet);
                let best = cheapest(&map, start.id, goal.id, &fleet);
                assert_eq!(found.as_ref().map(|path| route_cost(&map, path)), best);
                if let Some(path) = found {
                    assert_eq!(path[0].id, start.id);
                    assert_eq!(path[path.len() - 1].id, goal.id);
                    for pair in path.windows(2) {
                        assert!(fleet.can_traverse(lane_type_between(&map, pair[0].id, pair[1].id)));
                    }
                }
            }
        }
    }
}

#[test]
fn astar_from_a_system_to_itself_is_that_system() {
    let map = generated(2, 4);
    let hub = map.systems[&map.hub_id()];
    let path = map.astar(&hub, &hub, &spacelift()).expect("route");
    assert_eq!(path.len(), 1);
    assert_eq!(path[0].id, hub.id);
}

#[test]
fn astar_prefers_the_cheaper_detour() {
    let mut map = StarMap::new(2);
    let a = System::new(Hex::new(0, 0), 0, 2, None);
    let b = System::new(Hex::new(1, 0), 1, 2, None);
    let c = System::new(Hex::new(1, -1), 1, 2, None);
    let d = System::new(Hex::new(2, -1), 2, 2, None);
    for system in [a, b, c, d] {
        map.add_system(system);
    }
    map.add_lane(a.id, b.id, LaneType::Restricted);
    map.add_lane(b.id, d.id, LaneType::Restricted);
    map.add_lane(a.id, c.id, LaneType::Major);
    map.add_lane(c.id, d.id, LaneType::Minor);
    let path = map.astar(&a, &d, &military()).expect("route");
    let ids: Vec<usize> = path.iter().map(|system| system.id).collect();
    assert_eq!(ids, vec![a.id, c.id, d.id]);
    assert_eq!(route_cost(&map, &path), 3);
    let back = map.astar(&d, &a, &spacelift()).expect("route");
    let ids: Vec<usize> = back.iter().map(|system| system.id).collect();
    assert_eq!(ids, vec![d.id, c.id, a.id]);
}

#[test]
fn astar_breaks_ties_by_lower_identifier() {
    let mut map = StarMap::new(2);
    let a = System::new(Hex::new(0, 0), 0, 2, None);
    let b = System::new(Hex::new(1, 0), 1, 2, None);
    let c = System::new(Hex::new(1, -1), 1, 2, None);
    let d = System::new(Hex::new(2, -1), 2, 2, None);
    for system in [a, b, c, d] {
        map.add_system(system);
    }
    map.add_lane(a.id, b.id, LaneType::Major);
    map.add_lane(b.id, d.id, LaneType::Major);
    map.add_lane(a.id, c.id, LaneType::Major);
    map.add_lane(c.id, d.id, LaneType::Major);
    assert!(c.id < b.id);
    let path = map.astar(&a, &d, &military()).expect("route");
    let ids: Vec<usize> = path.iter().map(|system| system.id).collect();
    assert_eq!(ids, vec![a.id, c.id, d.id]);
}

#[test]
fn astar_finds_no_route_behind_restricted_lanes() {
    let mut map = StarMap::new(2);
    let a = System::new(Hex::new(0, 0), 0, 2, None);
    let b = System::new(Hex::new(1, 0), 1, 2, None);
    let c = System::new(Hex::new(2, 0), 2, 2, None);
    for system in [a, b, c] {
        map.add_system(system);
    }
    map.add_lane(a.id, b.id, LaneType::Minor);
    map.add_lane(b.id, c.id, LaneType::Restricted);
    assert!(map.is_connected());
    assert!(map.astar(&a, &c, &spacelift()).is_none());
    let crippled = Fleet { ships: vec![Ship::new(ShipType::Military, true)] };
    assert!(map.astar(&a, &c, &crippled).is_none());
    let path = map.astar(&a, &c, &military()).expect("route");
    assert_eq!(route_cost(&map, &path), 5);
    assert_eq!(path.len(), 3);
    assert!(map.astar(&a, &b, &spacelift()).is_some());
}

#[test]
fn astar_can_miss_the_cheapest_route_over_a_long_lane() {
    let mut map = StarMap::new(3);
    let start = System::new(Hex::new(0, 0), 0, 3, None);
    let goal = System::new(Hex::new(1, 0), 1, 3, None);
    let far = System::new(Hex::new(-3, 0), 3, 3, None);
    for system in [start, goal, far] {
        map.add_system(system);
    }
    map.add_lane(start.id, goal.id, LaneType::Restricted);
    map.add_lane(start.id, far.id, LaneType::Major);
    map.add_lane(far.id, goal.id, LaneType::Major);
    let path = map.astar(&start, &goal, &military()).expect("route");
    let ids: Vec<usize> = path.iter().map(|system| system.id).collect();
    assert_eq!(ids, vec![start.id, goal.id]);
    assert_eq!(route_cost(&map, &path), 3);
    assert_eq!(cheapest(&map, start.id, goal.id, &military()), Some(2));
    let detour = map.astar(&start, &goal, &spacelift()).expect("route");
    let ids: Vec<usize> = detour.iter().map(|system| system.id).collect();
    assert_eq!(ids, vec![start.id, far.id, goal.id]);
}

#[test]
fn is_connected_tells_joined_maps_from_split_ones() {
    let mut map = StarMap::new(2);
    let a = System::new(Hex::new(0, 0), 0, 2, None);
    let b = System::new(Hex::new(1, 0), 1, 2, None);
    let c = System::new(Hex::new(2, 0), 2, 2, None);
    map.add_system(a);
    assert!(map.is_connected());
    map.add_system(b);
    map.add_system(c);
    assert!(!map.is_connected());
    map.add_lane(b.id, c.id, LaneType::Restricted);
    assert!(!map.is_connected());
    map.add_lane(c.id, a.id, LaneType::Restricted);
    assert!(map.is_connected());
    let mut bare = StarMap::new(3);
    assert_eq!(bare.populate(), Ok(()));
    assert!(!bare.is_connected());
}
