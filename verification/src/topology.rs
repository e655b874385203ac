//! Laying out a galaxy: one system on every hex of the grid, and the
//! players' home systems spread around the outer ring.

use vstd::prelude::*;
use crate::error::GenerationError;
use crate::hex::{
    disk_size, lemma_id_in_range, lemma_id_injective, lemma_rings_fit, Hex, HexPoint,
};
use crate::starmap::{Galaxy, StarMap};
use crate::system::System;

verus! {

/// The `step`-th hex on side `side` of the ring of radius `radius`. The
/// ring has six sides of `radius` hexes each, numbered from 0 in the order
/// of their polar angle, the angle of the point `(q, r)` measured from the
/// positive `q` axis and taken between -180 degrees (left out) and 180
/// degrees (kept). Each side is counted from 1 and ends on a corner; side 0
/// starts behind `(-radius, 0)` and side 5 ends on it.
pub open spec fn side_point(radius: int, side: int, step: int) -> HexPoint {
    if side == 0 {
        HexPoint { q: step - radius, r: -step }
    } else if side == 1 {
        HexPoint { q: step, r: -radius }
    } else if side == 2 {
        HexPoint { q: radius, r: step - radius }
    } else if side == 3 {
        HexPoint { q: radius - step, r: step }
    } else if side == 4 {
        HexPoint { q: -step, r: radius }
    } else {
        HexPoint { q: -radius, r: radius - step }
    }
}

/// The `k`-th hex of the ring of radius `radius` in the order of its polar
/// angle, counted from 0.
pub open spec fn ring_point(radius: int, k: int) -> HexPoint {
    side_point(radius, k / radius, k % radius + 1)
}

/// How many of the first `upto` neighbours of `p` lie within `radius` of
/// the centre.
pub open spec fn grid_neighbors(p: HexPoint, radius: int, upto: int) -> int
    decreases upto,
{
    if upto <= 0 {
        0
    } else {
        grid_neighbors(p, radius, upto - 1) + if p.neighbor(upto - 1).ring() <= radius {
            1int
        } else {
            0int
        }
    }
}

/// The hexes among the first `upto` of the ring that have exactly three
/// neighbours in the grid, in the order of the ring.
pub open spec fn vertex_points(radius: int, upto: int) -> Seq<HexPoint>
    decreases upto,
{
    if upto <= 0 {
        Seq::empty()
    } else {
        let before = vertex_points(radius, upto - 1);
        let p = ring_point(radius, upto - 1);
        if grid_neighbors(p, radius, 6) == 3 {
            before.push(p)
        } else {
            before
        }
    }
}

/// The hexes of the ring of radius `radius` that have exactly three
/// neighbours in the grid, in the order of the ring.
pub open spec fn ring_vertices(radius: int) -> Seq<HexPoint> {
    vertex_points(radius, 6 * radius)
}

/// `i * total / players`, rounded to the nearest whole number, halves upwards.
pub open spec fn rounded_share(i: int, players: int, total: int) -> int {
    (2 * i * total + players) / (2 * players)
}

/// The hex that the rule of placement gives to player `i` of `players`:
/// with up to six players the `i`-th of the three-neighbour hexes of the
/// outer ring, counted round; with more, the hex of the outer ring at the
/// player's share of the way round.
pub open spec fn home_point(players: int, i: int) -> HexPoint {
    if players <= 6 {
        let vertices = ring_vertices(players);
        vertices[i % (vertices.len() as int)]
    } else {
        ring_point(players, rounded_share(i, players, 6 * players) % (6 * players))
    }
}

/// Whether the rule of placement gives two of `players` players the same hex.
pub open spec fn homes_collide(players: int) -> bool {
    exists|i: int, j: int|
        0 <= i < j < players && #[trigger] home_point(players, i) == #[trigger] home_point(
            players,
            j,
        )
}

/// How placing the homes of `players` players ends.
pub open spec fn placement_outcome(players: int) -> Result<(), GenerationError> {
    let candidates = ring_vertices(players).len();
    if players <= 6 && candidates < players {
        Err(
            GenerationError::NotEnoughHomeSystems {
                players: players as usize,
                candidates: candidates as usize,
            },
        )
    } else if homes_collide(players) {
        Err(GenerationError::HomeCollision)
    } else {
        Ok(())
    }
}

impl Galaxy {
    /// How many of the first `upto` neighbours of `p` hold a system.
    pub open spec fn occupied_neighbors(self, p: HexPoint, upto: int) -> int
        decreases upto,
    {
        if upto <= 0 {
            0
        } else {
            self.occupied_neighbors(p, upto - 1) + if self.occupied(p.neighbor(upto - 1)) {
                1int
            } else {
                0int
            }
        }
    }

    /// Whether every home system lies on the outer ring.
    pub open spec fn homes_on_rim(self) -> bool {
        forall|id: usize|
            self.systems.contains_key(id) && (#[trigger] self.systems[id]).player is Some
                ==> self.systems[id].ring == self.num_rings
    }

    /// Whether no system of the map is anybody's home.
    pub open spec fn unclaimed(self) -> bool {
        forall|id: usize| self.systems.contains_key(id) ==> (#[trigger] self.systems[id]).player is None
    }
}

/// On a map with a system on every hex of its grid, the neighbours that hold
/// a system are those that lie in the grid.
pub proof fn lemma_full_grid_neighbors(galaxy: Galaxy, p: HexPoint, upto: int)
    requires
        galaxy.full(),
    ensures
        galaxy.occupied_neighbors(p, upto) == grid_neighbors(p, galaxy.num_rings as int, upto),
    decreases upto,
{
    if upto > 0 {
        lemma_full_grid_neighbors(galaxy, p, upto - 1);
        let n = p.neighbor(upto - 1);
        if n.ring() <= galaxy.num_rings {
            assert(galaxy.occupied(n));
        }
    }
}

/// The hexes of the ring of radius `radius` in the order of their polar angle.
pub fn ring_by_angle(radius: u32) -> (hexes: Vec<Hex>)
    requires
        6 * radius <= u32::MAX,
    ensures
        hexes.len() == 6 * radius,
        forall|k: int| 0 <= k < hexes.len() ==> (#[trigger] hexes[k])@ == ring_point(radius as int, k),
        forall|k: int| 0 <= k < hexes.len() ==> (#[trigger] hexes[k])@.ring() == radius,
{
    let mut hexes: Vec<Hex> = Vec::new();
    if radius == 0 {
        return hexes;
    }
    let reach: i64 = radius as i64;
    let total: u64 = 6 * (radius as u64);
    let mut k: u64 = 0;
    while k < total
        invariant
            0 < reach == radius,
            6 * radius <= u32::MAX,
            total == 6 * radius,
            k <= total,
            hexes.len() == k,
            forall|j: int| 0 <= j < hexes.len() ==> (#[trigger] hexes[j])@ == ring_point(radius as int, j),
            forall|j: int| 0 <= j < hexes.len() ==> (#[trigger] hexes[j])@.ring() == radius,
        decreases total - k,
    {
        let side: u64 = k / (radius as u64);
        let step: i64 = (k % (radius as u64)) as i64 + 1;
        let hex = if side == 0 {
            Hex::new((step - reach) as i32, (-step) as i32)
        } else if side == 1 {
            Hex::new(step as i32, (-reach) as i32)
        } else if side == 2 {
            Hex::new(reach as i32, (step - reach) as i32)
        } else if side == 3 {
            Hex::new((reach - step) as i32, step as i32)
        } else if side == 4 {
            Hex::new((-step) as i32, reach as i32)
        } else {
            Hex::new((-reach) as i32, (reach - step) as i32)
        };
        hexes.push(hex);
        k += 1;
    }
    hexes
}

/// Rounds `i * total / players` to the nearest whole number.
pub fn share_of(i: u32, players: u32, total: u32) -> (share: u32)
    requires
        i < players,
    ensures
        share == rounded_share(i as int, players as int, total as int),
        share <= total,
{
    let doubled: u64 = 2 * (i as u64);
    assert(doubled * total <= 2 * (players - 1) * total) by (nonlinear_arith)
        requires
            doubled <= 2 * (players - 1),
            0 <= total,
    ;
    assert(2 * (players - 1) * total <= 0x2_0000_0000 * 0x1_0000_0000) by (nonlinear_arith)
        requires
            0 <= players - 1 < 0x1_0000_0000,
            0 <= total < 0x1_0000_0000,
    ;
    let scaled: u128 = (doubled as u128) * (total as u128) + (players as u128);
    let divisor: u128 = 2 * (players as u128);
    let share: u128 = scaled / divisor;
    assert(2 * i * total == doubled * total) by (nonlinear_arith)
        requires
            doubled == 2 * i,
    ;
    assert(share <= total) by (nonlinear_arith)
        requires
            share == scaled / divisor,
            divisor == 2 * players,
            players > 0,
            scaled <= 2 * (players - 1) * total + players,
            total >= 0,
    ;
    share as u32
}

/// Whether some hex occurs twice in `homes`.
pub fn any_repeated(homes: &Vec<Hex>) -> (repeated: bool)
    ensures
        repeated == exists|i: int, j: int|
            0 <= i < j < homes.len() && #[trigger] homes[i] == #[trigger] homes[j],
{
    let mut repeated = false;
    let mut a: usize = 0;
    while a < homes.len()
        invariant
            a <= homes.len(),
            repeated == exists|i: int, j: int|
                0 <= i < j < a && #[trigger] homes[i] == #[trigger] homes[j],
        decreases homes.len() - a,
    {
        let mut b: usize = 0;
        while b < a
            invariant
                b <= a < homes.len(),
                repeated == ((exists|i: int, j: int|
                    0 <= i < j < a && #[trigger] homes[i] == #[trigger] homes[j]) || (exists|i: int|
                    0 <= i < b && #[trigger] homes[i] == homes[a as int])),
            decreases a - b,
        {
            if homes[b] == homes[a] {
                repeated = true;
            }
            b += 1;
        }
        a += 1;
    }
    repeated
}

/// The homes of `players` players, picked from the outer ring `ring` and
/// its three-neighbour hexes `vertices` by the rule of placement.
fn choose_homes(ring: &Vec<Hex>, vertices: &Vec<Hex>, players: u32) -> (homes: Vec<Hex>)
    requires
        6 * players <= u32::MAX,
        ring.len() == 6 * players,
        forall|k: int| 0 <= k < ring.len() ==> (#[trigger] ring[k])@ == ring_point(players as int, k),
        forall|k: int| 0 <= k < ring.len() ==> (#[trigger] ring[k])@.ring() == players,
        vertices.len() == ring_vertices(players as int).len(),
        forall|k: int|
            0 <= k < vertices.len() ==> (#[trigger] vertices[k])@ == ring_vertices(players as int)[k],
        forall|k: int| 0 <= k < vertices.len() ==> (#[trigger] vertices[k])@.ring() == players,
        players <= 6 ==> vertices.len() >= players,
    ensures
        homes.len() == players,
        forall|i: int|
            0 <= i < homes.len() ==> (#[trigger] homes[i])@ == home_point(players as int, i),
        forall|i: int| 0 <= i < homes.len() ==> (#[trigger] homes[i])@.ring() == players,
{
    let mut homes: Vec<Hex> = Vec::new();
    let total: u32 = 6 * players;
    let mut i: u32 = 0;
    while i < players
        invariant
            6 * players <= u32::MAX,
            total == 6 * players,
            ring.len() == 6 * players,
            forall|k: int|
                0 <= k < ring.len() ==> (#[trigger] ring[k])@ == ring_point(players as int, k),
            forall|k: int| 0 <= k < ring.len() ==> (#[trigger] ring[k])@.ring() == players,
            vertices.len() == ring_vertices(players as int).len(),
            forall|k: int|
                0 <= k < vertices.len() ==> (#[trigger] vertices[k])@ == ring_vertices(players as int)[k],
            forall|k: int| 0 <= k < vertices.len() ==> (#[trigger] vertices[k])@.ring() == players,
            players <= 6 ==> vertices.len() >= players,
            i <= players,
            homes.len() == i,
            forall|j: int|
                0 <= j < homes.len() ==> (#[trigger] homes[j])@ == home_point(players as int, j),
            forall|j: int| 0 <= j < homes.len() ==> (#[trigger] homes[j])@.ring() == players,
        decreases players - i,
    {
        let hex = if players <= 6 {
            vertices[(i as usize) % vertices.len()]
        } else {
            let share = share_of(i, players, total);
            ring[(share % total) as usize]
        };
        homes.push(hex);
        i += 1;
    }
    homes
}

impl StarMap {
    /// Puts a system on every hex of the grid: the hub first, then the
    /// others, each with its distance from the centre as its ring.
    fn fill_grid(&mut self)
        requires
            old(self).wf(),
            old(self)@.systems.len() == 0,
            disk_size(old(self)@.num_rings as int) <= u32::MAX,
        ensures
            final(self).wf(),
            final(self)@ == (Galaxy { systems: final(self)@.systems, ..old(self)@ }),
            final(self)@.full(),
            final(self)@.unclaimed(),
            final(self)@.systems.len() == disk_size(old(self)@.num_rings as int),
    {
        let center = Hex::new(0, 0);
        let rings = self.num_rings();
        assert(rings <= 40000) by (nonlinear_arith)
            requires
                3 * rings * rings + 3 * rings + 1 <= 0xFFFF_FFFF,
                rings >= 0,
        ;
        assert(old(self)@.systems.dom() =~= Set::<usize>::empty());
        let hub = System::new(center, 0, rings, None);
        self.add_system(hub);
        let hexes = Hex::within_radius(&center, rings as i32);
        let ghost centre_at = choose|c: int|
            0 <= c < hexes.len() && (#[trigger] hexes[c])@ == HexPoint::origin();
        let mut i: usize = 0;
        while i < hexes.len()
            invariant
                self.wf(),
                self@ == (Galaxy { systems: self@.systems, ..old(self)@ }),
                rings == self@.num_rings,
                center@ == HexPoint::origin(),
                hexes.len() == disk_size(rings as int) <= u32::MAX,
                forall|k: int| 0 <= k < hexes.len() ==> (#[trigger] hexes[k])@.ring() <= rings,
                forall|j: int, k: int|
                    0 <= j < k < hexes.len() ==> (#[trigger] hexes[j])@.precedes(
                        (#[trigger] hexes[k])@,
                    ),
                0 <= centre_at < hexes.len(),
                hexes[centre_at]@ == HexPoint::origin(),
                i <= hexes.len(),
                self@.systems.len() == (if i <= centre_at {
                    i + 1
                } else {
                    i as int
                }),
                forall|id: usize|
                    self@.systems.contains_key(id) ==> exists|j: int|
                        (j == centre_at || 0 <= j < i) && 0 <= j < hexes.len() && (
                        #[trigger] hexes[j])@ == self@.systems[id].coords@,
                forall|j: int|
                    (j == centre_at || 0 <= j < i) && 0 <= j < hexes.len() ==> self@.occupied(
                        (#[trigger] hexes[j])@,
                    ),
                self@.unclaimed(),
            decreases hexes.len() - i,
        {
            let hex = hexes[i];
            if hex != center {
                let ring = hex.distance(&center);
                let system = System::new(hex, ring, rings, None);
                proof {
                    lemma_id_in_range(hex@, rings as int);
                    if self@.systems.contains_key(system.id) {
                        let there = self@.systems[system.id];
                        lemma_id_injective(there.coords@, hex@, rings as int);
                        let j = choose|j: int|
                            (j == centre_at || 0 <= j < i) && 0 <= j < hexes.len() && (
                            #[trigger] hexes[j])@ == there.coords@;
                        if j < i {
                            assert(hexes[j]@.precedes(hexes[i as int]@));
                        }
                        assert(false);
                    }
                }
                let ghost before = self@;
                self.add_system(system);
                proof {
                    assert forall|id: usize| self@.systems.contains_key(id) implies exists|j: int|
                        (j == centre_at || 0 <= j < i + 1) && 0 <= j < hexes.len() && (
                        #[trigger] hexes[j])@ == self@.systems[id].coords@ by {
                        if id == system.id {
                            assert(hexes[i as int]@ == self@.systems[id].coords@);
                        } else {
                            let j = choose|j: int|
                                (j == centre_at || 0 <= j < i) && 0 <= j < hexes.len() && (
                                #[trigger] hexes[j])@ == before.systems[id].coords@;
                            assert(hexes[j]@ == self@.systems[id].coords@);
                        }
                    }
                    assert forall|j: int|
                        (j == centre_at || 0 <= j < i + 1) && 0 <= j < hexes.len() implies self@.occupied(
                        (#[trigger] hexes[j])@,
                    ) by {
                        if j != i {
                            assert(before.occupied(hexes[j]@));
                        }
                    }
                }
            } else {
                assert(hexes[i as int]@ == hexes[centre_at]@);
                assert(i == centre_at) by {
                    if i < centre_at {
                        assert(hexes[i as int]@.precedes(hexes[centre_at]@));
                    } else if centre_at < i {
                        assert(hexes[centre_at]@.precedes(hexes[i as int]@));
                    }
                }
            }
            i += 1;
        }
        proof {
            assert forall|p: HexPoint| p.ring() <= self@.num_rings implies #[trigger] self@.occupied(
                p,
            ) by {
                let j = choose|j: int| 0 <= j < hexes.len() && (#[trigger] hexes[j])@ == p;
                assert(self@.occupied(hexes[j]@));
            }
        }
    }

    /// The hexes of `ring` with exactly three neighbouring systems, in the
    /// order of `ring`.
    fn vertex_hexes(&self, ring: &Vec<Hex>) -> (vertices: Vec<Hex>)
        requires
            self.wf(),
            self@.full(),
            ring.len() == 6 * self@.num_rings,
            forall|k: int|
                0 <= k < ring.len() ==> (#[trigger] ring[k])@ == ring_point(
                    self@.num_rings as int,
                    k,
                ),
            forall|k: int| 0 <= k < ring.len() ==> (#[trigger] ring[k])@.ring() == self@.num_rings,
        ensures
            vertices.len() == ring_vertices(self@.num_rings as int).len(),
            forall|k: int|
                0 <= k < vertices.len() ==> (#[trigger] vertices[k])@ == ring_vertices(self@.num_rings as int)[k],
            forall|k: int|
                0 <= k < vertices.len() ==> (#[trigger] vertices[k])@.ring() == self@.num_rings,
    {
        let ghost radius = self@.num_rings as int;
        let mut vertices: Vec<Hex> = Vec::new();
        let mut k: usize = 0;
        while k < ring.len()
            invariant
                self.wf(),
                self@.full(),
                radius == self@.num_rings,
                ring.len() == 6 * radius,
                forall|j: int| 0 <= j < ring.len() ==> (#[trigger] ring[j])@ == ring_point(radius, j),
                forall|j: int| 0 <= j < ring.len() ==> (#[trigger] ring[j])@.ring() == radius,
                k <= ring.len(),
                vertices.len() == vertex_points(radius, k as int).len(),
                forall|j: int|
                    0 <= j < vertices.len() ==> (#[trigger] vertices[j])@ == vertex_points(
                        radius,
                        k as int,
                    )[j],
                forall|j: int| 0 <= j < vertices.len() ==> (#[trigger] vertices[j])@.ring() == radius,
            decreases ring.len() - k,
        {
            let hex = ring[k];
            proof {
                lemma_full_grid_neighbors(self@, hex@, 6);
            }
            if self.count_adjacent(&hex) == 3 {
                vertices.push(hex);
            }
            k += 1;
        }
        vertices
    }

    /// Lays out the galaxy: a system on every hex within the ring radius of
    /// the hub, and a home system on the outer ring for each player.
    ///
    /// The systems are placed in any case. Homes are given out only when
    /// the rule of placement can serve every player with a hex of their own.
    pub fn populate(&mut self) -> (outcome: Result<(), GenerationError>)
        requires
            old(self).wf(),
            old(self)@.systems.len() == 0,
            disk_size(old(self)@.num_rings as int) <= u32::MAX,
        ensures
            final(self).wf(),
            final(self)@ == (Galaxy { systems: final(self)@.systems, ..old(self)@ }),
            final(self)@.full(),
            final(self)@.systems.len() == disk_size(old(self)@.num_rings as int),
            outcome == placement_outcome(old(self)@.player_count as int),
            outcome is Err ==> final(self)@.unclaimed(),
            final(self)@.homes_on_rim(),
            final(self)@.homes_placed(),
            outcome is Ok ==> forall|i: int|
                0 <= i < old(self)@.player_count ==> final(self)@.at(
                    #[trigger] home_point(old(self)@.player_count as int, i),
                ).player == Some(i as usize),
            outcome is Ok ==> forall|id: usize|
                #![trigger final(self)@.systems[id]]
                final(self)@.systems.contains_key(id) && final(self)@.systems[id].player
                    is Some ==> {
                    let i = final(self)@.systems[id].player->0;
                    i < old(self)@.player_count && final(self)@.systems[id].coords@ == home_point(
                        old(self)@.player_count as int,
                        i as int,
                    )
                },
    {
        let rings = self.num_rings();
        assert(rings <= 40000) by (nonlinear_arith)
            requires
                3 * rings * rings + 3 * rings + 1 <= 0xFFFF_FFFF,
                rings >= 0,
        ;
        self.fill_grid();
        let ring = ring_by_angle(rings);
        let vertices = self.vertex_hexes(&ring);
        let players = self.player_count();
        if players <= 6 && vertices.len() < players {
            return Err(
                GenerationError::NotEnoughHomeSystems { players, candidates: vertices.len() },
            );
        }
        let homes = choose_homes(&ring, &vertices, rings);
        if any_repeated(&homes) {
            proof {
                let (i, j) = choose|i: int, j: int|
                    0 <= i < j < homes.len() && #[trigger] homes[i] == #[trigger] homes[j];
                assert(home_point(players as int, i) == home_point(players as int, j));
            }
            return Err(GenerationError::HomeCollision);
        }
        proof {
            if homes_collide(players as int) {
                let (i, j) = choose|i: int, j: int|
                    0 <= i < j < players && #[trigger] home_point(players as int, i)
                        == #[trigger] home_point(players as int, j);
                assert(homes[i]@ == homes[j]@);
                assert(homes[i] == homes[j]);
            }
        }
        let mut i: usize = 0;
        while i < homes.len()
            invariant
                self.wf(),
                self@ == (Galaxy { systems: self@.systems, ..old(self)@ }),
                self@.full(),
                self@.systems.len() == disk_size(old(self)@.num_rings as int),
                rings == self@.num_rings,
                players == self@.player_count,
                homes.len() == players,
                forall|j: int|
                    0 <= j < homes.len() ==> (#[trigger] homes[j])@ == home_point(players as int, j),
                forall|j: int| 0 <= j < homes.len() ==> (#[trigger] homes[j])@.ring() == rings,
                forall|j: int, k: int|
                    0 <= j < k < homes.len() ==> #[trigger] homes[j] != #[trigger] homes[k],
                i <= homes.len(),
                forall|j: int|
                    0 <= j < i ==> self@.at((#[trigger] homes[j])@).player == Some(j as usize),
                forall|id: usize|
                    self@.systems.contains_key(id) && (#[trigger] self@.systems[id]).player
                        is Some ==> {
                        let j = self@.systems[id].player->0;
                        j < i && self@.systems[id].coords == homes[j as int]
                    },
            decreases homes.len() - i,
        {
            let home = homes[i];
            let id = home.to_id(rings);
            let ghost before = self@;
            proof {
                assert(before.occupied(home@));
            }
            self.set_player(id, Some(i));
            proof {
                assert(self@.systems.dom() =~= before.systems.dom());
                assert forall|p: HexPoint| p.ring() <= self@.num_rings implies #[trigger] self@.occupied(
                    p,
                ) by {
                    assert(before.occupied(p));
                }
                assert(self@.systems[id].coords@ == home@) by {
                    lemma_id_injective(before.systems[id].coords@, home@, rings as int);
                }
                assert forall|j: int| 0 <= j < i + 1 implies self@.at(
                    (#[trigger] homes[j])@,
                ).player == Some(j as usize) by {
                    if j < i {
                        assert(homes[j] != homes[i as int]);
                        if homes[j]@.id(rings as int) == home@.id(rings as int) {
                            lemma_id_injective(homes[j]@, home@, rings as int);
                        }
                        assert(before.at(homes[j]@).player == Some(j as usize));
                    }
                }
            }
            i += 1;
        }
        proof {
            assert forall|id: usize|
                self@.systems.contains_key(id) && (#[trigger] self@.systems[id]).player
                    is Some implies {
                let i = self@.systems[id].player->0;
                i < old(self)@.player_count && self@.systems[id].coords@ == home_point(
                    old(self)@.player_count as int,
                    i as int,
                )
            } by {
                let j = self@.systems[id].player->0;
                assert(self@.systems[id].coords == homes[j as int]);
            }
            assert forall|i: int| 0 <= i < old(self)@.player_count implies self@.at(
                #[trigger] home_point(old(self)@.player_count as int, i),
            ).player == Some(i as usize) by {
                assert(homes[i]@ == home_point(players as int, i));
            }
            assert forall|id: usize|
                self@.systems.contains_key(id) && (#[trigger] self@.systems[id]).player
                    is Some implies self@.systems[id].ring == self@.num_rings by {
                let j = self@.systems[id].player->0;
                assert(self@.systems[id].coords == homes[j as int]);
                assert(homes[j as int]@.ring() == rings);
            }
        }
        Ok(())
    }

    /// The system beside `hex` in direction `direction`, if the map holds
    /// one there.
    pub fn neighbor_system(&self, hex: &Hex, direction: usize) -> (found: Option<System>)
        requires
            self.wf(),
            direction < 6,
        ensures
            found is Some == self@.occupied(hex@.neighbor(direction as int)),
            found is Some ==> found->0 == self@.at(hex@.neighbor(direction as int)),
            found is Some ==> found->0.coords@ == hex@.neighbor(direction as int),
    {
        proof {
            lemma_rings_fit(self@.num_rings as int);
        }
        match hex.neighbor_within(direction, self.num_rings()) {
            Some(neighbor) => self.system_at(&neighbor),
            None => None,
        }
    }

    /// How many of the six neighbours of `hex` hold a system.
    pub fn count_adjacent(&self, hex: &Hex) -> (count: usize)
        requires
            self.wf(),
        ensures
            count == self@.occupied_neighbors(hex@, 6),
    {
        let mut count: usize = 0;
        let mut direction: usize = 0;
        while direction < 6
            invariant
                self.wf(),
                direction <= 6,
                count == self@.occupied_neighbors(hex@, direction as int),
                count <= direction,
            decreases 6 - direction,
        {
            if self.neighbor_system(hex, direction).is_some() {
                count += 1;
            }
            direction += 1;
        }
        count
    }
}

} // verus!
