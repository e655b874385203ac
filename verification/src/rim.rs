//! The outer ring of a galaxy: its corners, and why the rule of placement
//! serves every player with a home of their own.

use vstd::prelude::*;
use vstd::arithmetic::div_mod::{lemma_fundamental_div_mod, lemma_fundamental_div_mod_converse};
use crate::generation::lemma_system_at_point;
use crate::hex::{
    lemma_distance_triangle, lemma_distance_zero, lemma_neighbor_is_adjacent, HexPoint,
};
use crate::starmap::Galaxy;
use crate::topology::{
    lemma_full_grid_neighbors,
    grid_neighbors, home_point, homes_collide, placement_outcome, ring_point, ring_vertices,
    rounded_share, side_point, vertex_points,
};

verus! {

/// The number of the side that the `k`-th hex of a ring lies on, and its
/// place on that side.
pub proof fn lemma_ring_point_side(radius: int, k: int)
    requires
        1 <= radius,
        0 <= k < 6 * radius,
    ensures
        0 <= k / radius < 6,
        0 <= k % radius < radius,
        k == (k / radius) * radius + k % radius,
{
    lemma_fundamental_div_mod(k, radius);
    let side = k / radius;
    let step = k % radius;
    assert(radius * side == side * radius) by (nonlinear_arith);
    if side >= 6 {
        assert(side * radius >= 6 * radius) by (nonlinear_arith)
            requires
                side >= 6,
                radius >= 1,
        ;
    }
    if side < 0 {
        assert(side * radius <= -radius) by (nonlinear_arith)
            requires
                side <= -1,
                radius >= 1,
        ;
    }
}

/// The `step`-th hex on side `side` is the hex of the ring whose number is
/// `side * radius + step - 1`.
pub proof fn lemma_side_point_number(radius: int, side: int, step: int)
    requires
        1 <= radius,
        1 <= step <= radius,
    ensures
        ring_point(radius, side * radius + step - 1) == side_point(radius, side, step),
{
    lemma_fundamental_div_mod_converse(side * radius + step - 1, radius, side, step - 1);
}

/// Every hex of a side lies on the ring.
pub proof fn lemma_side_point_on_ring(radius: int, side: int, step: int)
    requires
        1 <= step <= radius,
    ensures
        side_point(radius, side, step).ring() == radius,
{
}

/// A corner, the last hex of a side, has three neighbours in the grid;
/// every other hex of the ring has four.
pub proof fn lemma_side_point_neighbors(radius: int, side: int, step: int)
    requires
        0 <= side < 6,
        1 <= step <= radius,
    ensures
        grid_neighbors(side_point(radius, side, step), radius, 6) == (if step == radius {
            3int
        } else {
            4int
        }),
{
    reveal_with_fuel(grid_neighbors, 7);
}

/// Different places on the ring hold different hexes.
pub proof fn lemma_side_points_differ(radius: int, side: int, step: int, side2: int, step2: int)
    requires
        0 <= side < 6,
        0 <= side2 < 6,
        1 <= step <= radius,
        1 <= step2 <= radius,
        side_point(radius, side, step) == side_point(radius, side2, step2),
    ensures
        side == side2,
        step == step2,
{
}

/// Different numbers on the ring name different hexes.
pub proof fn lemma_ring_points_differ(radius: int, k: int, k2: int)
    requires
        1 <= radius,
        0 <= k < 6 * radius,
        0 <= k2 < 6 * radius,
        ring_point(radius, k) == ring_point(radius, k2),
    ensures
        k == k2,
{
    lemma_ring_point_side(radius, k);
    lemma_ring_point_side(radius, k2);
    lemma_side_points_differ(radius, k / radius, k % radius + 1, k2 / radius, k2 % radius + 1);
}

/// Among the hexes of the ring before the `rest`-th of side `side`, the
/// three-neighbour hexes are the corners that end the sides before `side`.
pub proof fn lemma_vertices_are_corners(radius: int, upto: int, side: int, rest: int)
    requires
        1 <= radius,
        0 <= side <= 6,
        0 <= rest < radius,
        upto == side * radius + rest,
        side == 6 ==> rest == 0,
    ensures
        vertex_points(radius, upto).len() == side,
        forall|i: int|
            0 <= i < side ==> #[trigger] vertex_points(radius, upto)[i] == side_point(
                radius,
                i,
                radius,
            ),
    decreases upto,
{
    assert(side * radius >= 0) by (nonlinear_arith)
        requires
            side >= 0,
            radius >= 1,
    ;
    if upto == 0 {
        if side > 0 {
            assert(side * radius >= radius) by (nonlinear_arith)
                requires
                    side >= 1,
                    radius >= 1,
            ;
        }
    } else if rest > 0 {
        lemma_vertices_are_corners(radius, upto - 1, side, rest - 1);
        lemma_side_point_number(radius, side, rest);
        lemma_side_point_neighbors(radius, side, rest);
    } else {
        assert(side >= 1) by (nonlinear_arith)
            requires
                side >= 0,
                side * radius > 0,
        ;
        assert((side - 1) * radius + (radius - 1) == side * radius - 1) by (nonlinear_arith);
        lemma_vertices_are_corners(radius, upto - 1, side - 1, radius - 1);
        lemma_side_point_number(radius, side - 1, radius);
        lemma_side_point_neighbors(radius, side - 1, radius);
    }
}

/// The ring of a galaxy with at least one ring has six three-neighbour
/// hexes: its corners, in the order of the sides they end.
pub proof fn lemma_ring_has_six_vertices(radius: int)
    requires
        1 <= radius,
    ensures
        ring_vertices(radius).len() == 6,
        forall|i: int|
            0 <= i < 6 ==> #[trigger] ring_vertices(radius)[i] == side_point(radius, i, radius),
{
    lemma_vertices_are_corners(radius, 6 * radius, 6, 0);
}

/// With more than six players, player `i` gets the hex of the ring with
/// number `6 * i`.
pub proof fn lemma_share_is_sixth(players: int, i: int)
    requires
        0 <= i < players,
    ensures
        rounded_share(i, players, 6 * players) % (6 * players) == 6 * i,
{
    assert(2 * i * (6 * players) + players == (6 * i) * (2 * players) + players)
        by (nonlinear_arith);
    lemma_fundamental_div_mod_converse(
        2 * i * (6 * players) + players,
        2 * players,
        6 * i,
        players,
    );
    lemma_fundamental_div_mod_converse(6 * i, 6 * players, 0, 6 * i);
}

/// Where player `i` of `players` gets a home: with up to six players on
/// the corner that ends side `i`, with more on the hex of the ring with
/// number `6 * i`.
pub proof fn lemma_home_point(players: int, i: int)
    requires
        0 <= i < players,
    ensures
        players <= 6 ==> home_point(players, i) == side_point(players, i, players),
        players > 6 ==> home_point(players, i) == ring_point(players, 6 * i),
        home_point(players, i).ring() == players,
{
    if players <= 6 {
        lemma_ring_has_six_vertices(players);
        lemma_fundamental_div_mod_converse(i, 6, 0, i);
        lemma_side_point_on_ring(players, i, players);
    } else {
        lemma_share_is_sixth(players, i);
        lemma_ring_point_side(players, 6 * i);
        lemma_side_point_on_ring(players, (6 * i) / players, (6 * i) % players + 1);
    }
}

/// No two players get the same home.
pub proof fn lemma_homes_differ(players: int, i: int, j: int)
    requires
        0 <= i < j < players,
    ensures
        home_point(players, i) != home_point(players, j),
{
    lemma_home_point(players, i);
    lemma_home_point(players, j);
    if players <= 6 {
        if home_point(players, i) == home_point(players, j) {
            lemma_side_points_differ(players, i, players, j, players);
        }
    } else {
        if home_point(players, i) == home_point(players, j) {
            lemma_ring_points_differ(players, 6 * i, 6 * j);
        }
    }
}

/// The rule of placement serves any number of players: the outer ring has
/// corners enough for up to six, and no two players ever get the same hex.
pub proof fn lemma_placement_succeeds(players: int)
    requires
        0 <= players,
    ensures
        placement_outcome(players) is Ok,
{
    if players >= 1 {
        lemma_ring_has_six_vertices(players);
    }
    if homes_collide(players) {
        let (i, j) = choose|i: int, j: int|
            0 <= i < j < players && #[trigger] home_point(players, i) == #[trigger] home_point(
                players,
                j,
            );
        lemma_homes_differ(players, i, j);
    }
}

/// The number of the first hex of a side on the ring.
pub proof fn lemma_side_start(radius: int, side: int)
    requires
        0 <= side < 6,
    ensures
        side * radius == (if side == 0 {
            0
        } else if side == 1 {
            radius
        } else if side == 2 {
            2 * radius
        } else if side == 3 {
            3 * radius
        } else if side == 4 {
            4 * radius
        } else {
            5 * radius
        }),
{
    assert(0 * radius == 0 && 1 * radius == radius) by (nonlinear_arith);
    assert(2 * radius == radius + radius && 3 * radius == 2 * radius + radius) by (nonlinear_arith);
    assert(4 * radius == 3 * radius + radius && 5 * radius == 4 * radius + radius)
        by (nonlinear_arith);
}

/// Two hexes of the ring that are the same or lie side by side are the
/// same or follow each other on the ring, the last hex being followed by
/// the first.
pub proof fn lemma_ring_neighbors_are_next(radius: int, k: int, k2: int)
    requires
        2 <= radius,
        0 <= k < 6 * radius,
        0 <= k2 < 6 * radius,
        ring_point(radius, k).distance(ring_point(radius, k2)) <= 1,
    ensures
        -1 <= k - k2 <= 1 || k - k2 == 6 * radius - 1 || k2 - k == 6 * radius - 1,
{
    lemma_ring_point_side(radius, k);
    lemma_ring_point_side(radius, k2);
    lemma_side_start(radius, k / radius);
    lemma_side_start(radius, k2 / radius);
}

/// Two corners of a ring of radius 2 or more do not lie side by side.
pub proof fn lemma_corners_lie_apart(radius: int, side: int, side2: int)
    requires
        2 <= radius,
        0 <= side < 6,
        0 <= side2 < 6,
        side != side2,
    ensures
        side_point(radius, side, radius).distance(side_point(radius, side2, radius)) >= 2,
{
}

/// In a galaxy for two or more players, no two homes lie side by side.
pub proof fn lemma_homes_lie_apart(players: int, i: int, j: int)
    requires
        2 <= players,
        0 <= i < players,
        0 <= j < players,
        i != j,
    ensures
        home_point(players, i).distance(home_point(players, j)) >= 2,
{
    lemma_home_point(players, i);
    lemma_home_point(players, j);
    if players <= 6 {
        lemma_corners_lie_apart(players, i, j);
    } else {
        if home_point(players, i).distance(home_point(players, j)) <= 1 {
            lemma_ring_neighbors_are_next(players, 6 * i, 6 * j);
        }
    }
}

/// Every home has at least three neighbours in the grid.
pub proof fn lemma_home_has_three_neighbors(players: int, i: int)
    requires
        1 <= players,
        0 <= i < players,
    ensures
        grid_neighbors(home_point(players, i), players, 6) >= 3,
{
    lemma_home_point(players, i);
    if players <= 6 {
        lemma_side_point_neighbors(players, i, players);
    } else {
        lemma_ring_point_side(players, 6 * i);
        lemma_side_point_neighbors(players, (6 * i) / players, (6 * i) % players + 1);
    }
}

impl Galaxy {
    /// Whether the homes of the map are those that the rule of placement
    /// gives its players.
    pub open spec fn homes_placed(self) -> bool {
        forall|id: usize|
            #![trigger self.systems[id]]
            self.systems.contains_key(id) && self.systems[id].player is Some ==> {
                let i = self.systems[id].player->0;
                i < self.player_count && self.systems[id].coords@ == home_point(
                    self.player_count as int,
                    i as int,
                )
            }
    }
}

/// In a galaxy for two or more players whose homes are those of the rule
/// of placement, no two home systems lie side by side.
pub proof fn lemma_placed_homes_lie_apart(galaxy: Galaxy)
    requires
        galaxy.well_formed(),
        galaxy.homes_placed(),
        galaxy.num_rings >= 2,
    ensures
        galaxy.homes_apart(),
{
    let players = galaxy.player_count as int;
    assert forall|id: usize, direction: int|
        galaxy.systems.contains_key(id) && galaxy.systems[id].player is Some && 0 <= direction < 6
            && galaxy.occupied(
            #[trigger] galaxy.systems[id].coords@.neighbor(direction),
        ) implies galaxy.at(galaxy.systems[id].coords@.neighbor(direction)).player is None by {
        let p = galaxy.systems[id].coords@;
        let i = galaxy.systems[id].player->0 as int;
        let n = p.neighbor(direction);
        let there = galaxy.at(n);
        lemma_system_at_point(galaxy, n);
        lemma_neighbor_is_adjacent(p, direction);
        lemma_distance_zero(p, n);
        if there.player is Some {
            let j = there.player->0 as int;
            if i != j {
                lemma_homes_lie_apart(players, i, j);
            }
        }
    }
}

/// On a galaxy for two or more players that was laid out in full and has
/// no lanes yet, the neighbours of a home in the grid are free.
pub proof fn lemma_fresh_neighbors_are_free(galaxy: Galaxy, id: usize, upto: int)
    requires
        galaxy.well_formed(),
        galaxy.full(),
        galaxy.homes_placed(),
        galaxy.lanes.len() == 0,
        galaxy.num_rings >= 2,
        galaxy.systems.contains_key(id),
        galaxy.systems[id].player is Some,
        upto <= 6,
    ensures
        galaxy.free_neighbors(galaxy.systems[id].coords@, upto) == grid_neighbors(
            galaxy.systems[id].coords@,
            galaxy.num_rings as int,
            upto,
        ),
    decreases upto,
{
    if upto > 0 {
        lemma_fresh_neighbors_are_free(galaxy, id, upto - 1);
        let players = galaxy.player_count as int;
        let home = galaxy.systems[id];
        let p = home.coords@;
        let i = home.player->0 as int;
        let n = p.neighbor(upto - 1);
        if n.ring() <= galaxy.num_rings {
            assert(galaxy.occupied(n));
            lemma_system_at_point(galaxy, n);
            lemma_neighbor_is_adjacent(p, upto - 1);
            lemma_home_point(players, i);
            lemma_distance_triangle(p, n, HexPoint::origin());
            lemma_distance_zero(n, HexPoint::origin());
            let there = galaxy.at(n);
            if there.player is Some {
                let j = there.player->0 as int;
                lemma_distance_zero(p, n);
                if i != j {
                    lemma_homes_lie_apart(players, i, j);
                }
            }
            assert(!galaxy.joined(galaxy.id_of(p), galaxy.id_of(n)));
            assert(galaxy.is_free(p, n));
        }
    }
}

/// On a galaxy for two or more players that was laid out in full and has
/// no lanes yet, the hub has its six neighbours and every home has room
/// for its three lanes, so that lane generation succeeds whatever is drawn.
pub proof fn lemma_fresh_galaxy_has_room(galaxy: Galaxy)
    requires
        galaxy.well_formed(),
        galaxy.full(),
        galaxy.homes_placed(),
        galaxy.lanes.len() == 0,
        galaxy.num_rings >= 2,
    ensures
        galaxy.homes_have_room(),
        galaxy.hub_outcome() is Ok,
{
    let players = galaxy.player_count as int;
    let origin = HexPoint::origin();
    assert(galaxy.occupied(origin));
    lemma_system_at_point(galaxy, origin);
    if galaxy.at(origin).player is Some {
        lemma_home_point(players, galaxy.at(origin).player->0 as int);
    }
    assert forall|id: usize|
        galaxy.systems.contains_key(id) && (#[trigger] galaxy.systems[id]).player
            is Some implies galaxy.free_neighbors(galaxy.systems[id].coords@, 6) >= 3 by {
        lemma_fresh_neighbors_are_free(galaxy, id, 6);
        lemma_home_has_three_neighbors(players, galaxy.systems[id].player->0 as int);
    }
    lemma_full_grid_neighbors(galaxy, origin, 6);
    assert(grid_neighbors(origin, galaxy.num_rings as int, 6) == 6) by {
        reveal_with_fuel(grid_neighbors, 7);
    }
}

/// The part of a full turn that the polar angle of `p` lies in: 0 below
/// the `q` axis, 1 on its positive half, 2 above it, 3 on its negative half.
pub open spec fn angle_part(p: HexPoint) -> int {
    if p.r < 0 {
        0
    } else if p.r == 0 && p.q > 0 {
        1
    } else if p.r > 0 {
        2
    } else {
        3
    }
}

/// Twice the signed area of the triangle from the centre to `a` to `b`:
/// positive where `b` lies less than half a turn ahead of `a`.
pub open spec fn turn(a: HexPoint, b: HexPoint) -> int {
    a.q * b.r - a.r * b.q
}

/// Whether the polar angle of `a` is less than that of `b`.
pub open spec fn angle_precedes(a: HexPoint, b: HexPoint) -> bool {
    angle_part(a) < angle_part(b) || (angle_part(a) == angle_part(b) && turn(a, b) > 0)
}

/// On one side of the ring, or from a side to a later one of the same
/// half of the ring, a later hex lies ahead of an earlier one.
proof fn lemma_turn_on_ring(radius: int, side: int, step: int, side2: int, step2: int)
    requires
        1 <= radius,
        1 <= step <= radius,
        1 <= step2 <= radius,
        0 <= side <= side2 < 6,
        side == side2 ==> step < step2,
        side2 <= 2 || side >= 3,
        side2 == 2 || side2 == 5 ==> step2 < radius,
        side == 2 || side == 5 ==> step < radius,
    ensures
        turn(side_point(radius, side, step), side_point(radius, side2, step2)) > 0,
{
    let a = side_point(radius, side, step);
    let b = side_point(radius, side2, step2);
    let gap = radius - step;
    let gap2 = radius - step2;
    if side == side2 {
        assert(turn(a, b) == radius * (step2 - step)) by (nonlinear_arith)
            requires
                side == side2,
                0 <= side < 6,
                a == side_point(radius, side, step),
                b == side_point(radius, side2, step2),
        ;
        assert(radius * (step2 - step) > 0) by (nonlinear_arith)
            requires
                radius >= 1,
                step2 - step >= 1,
        ;
    } else if side2 == side + 1 {
        if side == 0 || side == 3 {
            assert(turn(a, b) == radius * gap + step * step2) by (nonlinear_arith)
                requires
                    side == 0 || side == 3,
                    side2 == side + 1,
                    gap == radius - step,
                    a == side_point(radius, side, step),
                    b == side_point(radius, side2, step2),
            ;
            assert(radius * gap + step * step2 > 0) by (nonlinear_arith)
                requires
                    radius >= 1,
                    gap >= 0,
                    step >= 1,
                    step2 >= 1,
            ;
        } else {
            assert(turn(a, b) == radius * gap + step * step2) by (nonlinear_arith)
                requires
                    side == 1 || side == 4,
                    side2 == side + 1,
                    gap == radius - step,
                    a == side_point(radius, side, step),
                    b == side_point(radius, side2, step2),
            ;
            assert(radius * gap + step * step2 > 0) by (nonlinear_arith)
                requires
                    radius >= 1,
                    gap >= 0,
                    step >= 1,
                    step2 >= 1,
            ;
        }
    } else {
        assert(turn(a, b) == gap * gap2 + step * radius) by (nonlinear_arith)
            requires
                side == 0 || side == 3,
                side2 == side + 2,
                gap == radius - step,
                gap2 == radius - step2,
                a == side_point(radius, side, step),
                b == side_point(radius, side2, step2),
        ;
        assert(gap * gap2 + step * radius > 0) by (nonlinear_arith)
            requires
                radius >= 1,
                gap >= 0,
                gap2 >= 0,
                step >= 1,
        ;
    }
}

/// The hexes of the ring are numbered in the order of their polar angle.
pub proof fn lemma_ring_is_ordered_by_angle(radius: int, k: int, k2: int)
    requires
        1 <= radius,
        0 <= k < k2 < 6 * radius,
    ensures
        angle_precedes(ring_point(radius, k), ring_point(radius, k2)),
{
    lemma_ring_point_side(radius, k);
    lemma_ring_point_side(radius, k2);
    let side = k / radius;
    let step = k % radius + 1;
    let side2 = k2 / radius;
    let step2 = k2 % radius + 1;
    lemma_side_start(radius, side);
    lemma_side_start(radius, side2);
    let a = side_point(radius, side, step);
    let b = side_point(radius, side2, step2);
    if angle_part(a) == angle_part(b) {
        lemma_turn_on_ring(radius, side, step, side2, step2);
    }
}

} // verus!
