use ec4x_core::Hex;

#[test]
fn new_keeps_coordinates() {
    let hex = Hex::new(-4, 7);
    assert_eq!(hex.q, -4);
    assert_eq!(hex.r, 7);
}

#[test]
fn distance_matches_formula() {
    assert_eq!(Hex::new(0, 0).distance(&Hex::new(0, 0)), 0);
    assert_eq!(Hex::new(0, 0).distance(&Hex::new(3, -1)), 3);
    assert_eq!(Hex::new(2, -5).distance(&Hex::new(-1, 4)), 9);
    assert_eq!(Hex::new(1, 1).distance(&Hex::new(-2, -2)), 6);
    assert_eq!(Hex::new(-3, 3).distance(&Hex::new(3, -3)), 6);
}

#[test]
fn distance_is_a_metric_on_samples() {
    let samples = [
        Hex::new(0, 0),
        Hex::new(1, -1),
        Hex::new(-3, 2),
        Hex::new(4, 4),
        Hex::new(-5, -1),
        Hex::new(7, -9),
    ];
    for a in samples.iter() {
        for b in samples.iter() {
            assert_eq!(a.distance(b), b.distance(a));
            assert_eq!(a.distance(b) == 0, a == b);
            for c in samples.iter() {
                assert!(a.distance(c) <= a.distance(b) + b.distance(c));
            }
        }
    }
}

#[test]
fn neighbor_follows_the_six_directions() {
    let hex = Hex::new(2, -3);
    assert_eq!(hex.neighbor(0), Hex::new(3, -3));
    assert_eq!(hex.neighbor(1), Hex::new(3, -4));
    assert_eq!(hex.neighbor(2), Hex::new(2, -4));
    assert_eq!(hex.neighbor(3), Hex::new(1, -3));
    assert_eq!(hex.neighbor(4), Hex::new(1, -2));
    assert_eq!(hex.neighbor(5), Hex::new(2, -2));
}

#[test]
fn neighbor_takes_direction_modulo_six() {
    let hex = Hex::new(0, 0);
    for direction in 0..6usize {
        assert_eq!(hex.neighbor(direction + 6), hex.neighbor(direction));
        assert_eq!(hex.neighbor(direction + 600), hex.neighbor(direction));
        assert_eq!(hex.distance(&hex.neighbor(direction)), 1);
    }
}

#[test]
fn neighbor_within_stops_at_the_rim() {
    let rim = Hex::new(2, 0);
    assert_eq!(rim.neighbor_within(0, 2), None);
    assert_eq!(rim.neighbor_within(3, 2), Some(Hex::new(1, 0)));
    assert_eq!(rim.neighbor_within(9, 2), Some(Hex::new(1, 0)));
    assert!(Hex::new(1, 1).in_grid(2));
    assert!(!Hex::new(2, 1).in_grid(2));
}

#[test]
fn within_radius_zero_is_the_center() {
    let hexes = Hex::within_radius(&Hex::new(5, -2), 0);
    assert_eq!(hexes, vec![Hex::new(5, -2)]);
}

#[test]
fn within_radius_negative_is_empty() {
    assert!(Hex::within_radius(&Hex::new(0, 0), -1).is_empty());
}

#[test]
fn within_radius_one_lists_by_q_then_r() {
    let hexes = Hex::within_radius(&Hex::new(0, 0), 1);
    assert_eq!(
        hexes,
        vec![
            Hex::new(-1, 0),
            Hex::new(-1, 1),
            Hex::new(0, -1),
            Hex::new(0, 0),
            Hex::new(0, 1),
            Hex::new(1, -1),
            Hex::new(1, 0),
        ]
    );
}

#[test]
fn within_radius_counts_disc_and_ring() {
    let center = Hex::new(3, -7);
    for radius in 0..=8i32 {
        let hexes = Hex::within_radius(&center, radius);
        let expected = (3 * radius * radius + 3 * radius + 1) as usize;
        assert_eq!(hexes.len(), expected);
        for hex in hexes.iter() {
            assert!(hex.distance(&center) <= radius as u32);
        }
        let mut distinct = hexes.clone();
        distinct.sort_by_key(|hex| (hex.q, hex.r));
        distinct.dedup();
        assert_eq!(distinct.len(), expected);
        if radius >= 1 {
            let rim = hexes.iter().filter(|hex| hex.distance(&center) == radius as u32).count();
            assert_eq!(rim, 6 * radius as usize);
        }
    }
}

#[test]
fn to_id_matches_formula() {
    assert_eq!(Hex::new(0, 0).to_id(3), 24);
    assert_eq!(Hex::new(-3, 0).to_id(3), 3);
    assert_eq!(Hex::new(3, -3).to_id(3), 42);
    assert_eq!(Hex::new(3, 0).to_id(3), 45);
    assert_eq!(Hex::new(0, 0).to_id(0), 0);
    assert_eq!(Hex::new(-1, 1).to_id(1), 2);
}

#[test]
fn to_id_is_injective_within_radius() {
    for rings in 0..=6u32 {
        let hexes = Hex::within_radius(&Hex::new(0, 0), rings as i32);
        let side = (2 * rings + 1) as usize;
        let mut seen = vec![false; side * side];
        for hex in hexes.iter() {
            let id = hex.to_id(rings);
            assert!(id < side * side);
            assert!(!seen[id]);
            seen[id] = true;
        }
    }
}
