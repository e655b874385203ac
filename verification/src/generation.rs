//! Generating the jump lanes of a galaxy: six major lanes at the hub, three
//! at every home system, and lanes of random class from every other system
//! to each neighbour that no lane joins to it yet.

use vstd::prelude::*;
use rand::rngs::StdRng;
use crate::chance::{random_lane_type, shuffle_ids};
use crate::error::GenerationError;
use crate::hex::{
    id_space, lemma_id_in_range, lemma_id_injective, lemma_neighbor_and_back,
    lemma_neighbor_is_adjacent, lemma_rings_fit, opposite, HexPoint,
};
use crate::hex::disk_size;
use crate::lane::{JumpLane, LaneType};
use crate::rim::{
    lemma_fresh_galaxy_has_room, lemma_placed_homes_lie_apart, lemma_placement_succeeds,
};
use crate::search::lemma_generated_galaxy_is_connected;
use crate::starmap::{galaxy_fits, lemma_galaxy_fits, Galaxy, StarMap};
use crate::topology::home_point;

verus! {

impl Galaxy {
    /// Whether `id` is one of the occupied neighbours of `p` among its
    /// first `upto`.
    pub open spec fn beside_among(self, p: HexPoint, id: usize, upto: int) -> bool {
        exists|direction: int|
            0 <= direction < upto && self.occupied(#[trigger] p.neighbor(direction)) && id
                == self.id_of(p.neighbor(direction))
    }

    /// Whether `id` is one of the occupied neighbours of `p`.
    pub open spec fn beside(self, p: HexPoint, id: usize) -> bool {
        self.beside_among(p, id, 6)
    }

    /// Whether lane `k` leads from system `id` to one of its occupied
    /// neighbours.
    pub open spec fn lane_leaves(self, k: int, id: usize) -> bool {
        self.lanes[k].source == id && self.beside(
            self.systems[id].coords@,
            self.lanes[k].destination,
        )
    }

    /// How giving home system `id` its three lanes ends.
    pub open spec fn home_outcome(self, id: usize) -> Result<(), GenerationError> {
        let available = self.open_neighbors(self.systems[id].coords@, 6).len();
        if available < 3 {
            Err(GenerationError::HomeNeighbors { system: id, available: available as usize })
        } else {
            Ok(())
        }
    }

    /// Whether `outcome` reports a home system of this map that has fewer
    /// than three neighbours left to connect to, and says how many.
    pub open spec fn home_fault(self, outcome: Result<(), GenerationError>) -> bool {
        match outcome {
            Err(GenerationError::HomeNeighbors { system, available }) => {
                &&& self.systems.contains_key(system)
                &&& self.systems[system].player is Some
                &&& available < 3
                &&& available == self.open_neighbors(self.systems[system].coords@, 6).len()
            },
            _ => false,
        }
    }

    /// How finding the hub and its six neighbours ends.
    pub open spec fn hub_outcome(self) -> Result<(), GenerationError> {
        let found = if self.occupied(HexPoint::origin()) {
            self.occupied_neighbors(HexPoint::origin(), 6)
        } else {
            0
        };
        if found == 6 {
            Ok(())
        } else {
            Err(GenerationError::HubNeighbors { found: found as usize })
        }
    }

    /// Whether a lane joins system `id` to every occupied neighbour it has.
    pub open spec fn joined_all_round(self, id: usize) -> bool {
        forall|direction: int|
            0 <= direction < 6 && self.occupied(
                #[trigger] self.systems[id].coords@.neighbor(direction),
            ) ==> self.joined(id, self.id_of(self.systems[id].coords@.neighbor(direction)))
    }

    /// Whether point `n` holds a system that is nobody's home and not the
    /// hub, and that no lane joins to the system at point `p` yet.
    pub open spec fn is_free(self, p: HexPoint, n: HexPoint) -> bool {
        &&& self.occupied(n)
        &&& self.at(n).player is None
        &&& n != HexPoint::origin()
        &&& !self.joined(self.id_of(p), self.id_of(n))
    }

    /// How many of the first `upto` neighbours of `p` are free.
    pub open spec fn free_neighbors(self, p: HexPoint, upto: int) -> int
        decreases upto,
    {
        if upto <= 0 {
            0
        } else {
            self.free_neighbors(p, upto - 1) + if self.is_free(p, p.neighbor(upto - 1)) {
                1int
            } else {
                0int
            }
        }
    }

    /// Whether the hub is nobody's home and every home system has three
    /// free neighbours: systems that are nobody's home and not the hub, and
    /// that no lane joins to it yet. Lanes are made to such neighbours only
    /// from their own side or in the home's own turn, so a home that has
    /// three of them gets its lanes whatever is drawn.
    pub open spec fn homes_have_room(self) -> bool {
        &&& self.occupied(HexPoint::origin()) ==> self.at(HexPoint::origin()).player is None
        &&& forall|id: usize|
            self.systems.contains_key(id) && (#[trigger] self.systems[id]).player is Some
                ==> self.free_neighbors(self.systems[id].coords@, 6) >= 3
    }

    /// Whether no lane of this map joins system `id` to a neighbour that
    /// was free on the map `start`.
    pub open spec fn keeps_room(self, start: Galaxy, id: usize) -> bool {
        forall|direction: int|
            0 <= direction < 6 && start.is_free(
                start.systems[id].coords@,
                #[trigger] start.systems[id].coords@.neighbor(direction),
            ) ==> !self.joined(id, start.id_of(start.systems[id].coords@.neighbor(direction)))
    }

    /// Whether every lane from the `from`-th on that ends at the hub starts
    /// there and is major.
    pub open spec fn hub_lanes_major(self, from: int) -> bool {
        forall|k: int|
            from <= k < self.lanes.len() && (#[trigger] self.lanes[k]).touches(self.hub_id)
                ==> self.lanes[k].source == self.hub_id && self.lanes[k].lane_type
                == LaneType::Major
    }

    /// Whether a lane joins every system to every occupied neighbour it has.
    pub open spec fn joined_everywhere(self) -> bool {
        forall|id: usize| self.systems.contains_key(id) ==> #[trigger] self.joined_all_round(id)
    }

    /// Whether no two home systems lie side by side.
    pub open spec fn homes_apart(self) -> bool {
        forall|id: usize, direction: int|
            self.systems.contains_key(id) && self.systems[id].player is Some && 0 <= direction < 6
                && self.occupied(#[trigger] self.systems[id].coords@.neighbor(direction))
                ==> self.at(self.systems[id].coords@.neighbor(direction)).player is None
    }

    /// What lane generation leaves behind where it succeeds: lanes join the
    /// hub to six neighbours, and every system that is nobody's home to
    /// each of its neighbours.
    pub open spec fn saturated(self) -> bool {
        &&& self.hub_outcome() is Ok
        &&& forall|id: usize|
            self.systems.contains_key(id) && (#[trigger] self.systems[id]).player is None
                ==> self.joined_all_round(id)
    }
}

/// Lanes that a map had stay where they are when lanes are added.
pub proof fn lemma_extends_keeps_joined(new: Galaxy, old: Galaxy, a: usize, b: usize)
    requires
        new.extends(old),
        old.joined(a, b),
    ensures
        new.joined(a, b),
{
    let k = choose|k: int| 0 <= k < old.lanes.len() && (#[trigger] old.lanes[k]).joins(a, b);
    assert(new.lanes[k].joins(a, b));
}

/// Adding lanes to a map with lanes added gives a map with lanes added.
pub proof fn lemma_extends_twice(new: Galaxy, mid: Galaxy, old: Galaxy)
    requires
        new.extends(mid),
        mid.extends(old),
    ensures
        new.extends(old),
{
    assert forall|k: int| 0 <= k < old.lanes.len() implies #[trigger] new.lanes[k]
        == old.lanes[k] by {
        assert(mid.lanes[k] == old.lanes[k]);
    }
}

/// An occupied neighbour that no lane joins to `p` yet is among the open
/// neighbours of `p`.
pub proof fn lemma_open_neighbors_complete(galaxy: Galaxy, p: HexPoint, upto: int, direction: int)
    requires
        0 <= direction < upto,
        galaxy.occupied(p.neighbor(direction)),
        !galaxy.joined(galaxy.id_of(p), galaxy.id_of(p.neighbor(direction))),
    ensures
        galaxy.open_neighbors(p, upto).contains(galaxy.id_of(p.neighbor(direction))),
    decreases upto,
{
    let before = galaxy.open_neighbors(p, upto - 1);
    let last = p.neighbor(upto - 1);
    if direction == upto - 1 {
        assert(before.push(galaxy.id_of(last))[before.len() as int] == galaxy.id_of(last));
    } else {
        lemma_open_neighbors_complete(galaxy, p, upto - 1, direction);
        let i = choose|i: int|
            0 <= i < before.len() && before[i] == galaxy.id_of(p.neighbor(direction));
        if galaxy.occupied(last) && !galaxy.joined(galaxy.id_of(p), galaxy.id_of(last)) {
            assert(before.push(galaxy.id_of(last))[i] == galaxy.id_of(p.neighbor(direction)));
        }
    }
}

/// `count` major lanes.
fn major_lanes(count: usize) -> (types: Vec<LaneType>)
    ensures
        types.len() == count,
        forall|i: int| 0 <= i < count ==> types[i] == LaneType::Major,
{
    let mut types: Vec<LaneType> = Vec::new();
    while types.len() < count
        invariant
            types.len() <= count,
            forall|i: int| 0 <= i < types.len() ==> types[i] == LaneType::Major,
        decreases count - types.len(),
    {
        types.push(LaneType::Major);
    }
    types
}

/// `count` lane classes, each drawn at random.
fn draw_lane_types(count: usize, rng: &mut StdRng) -> (types: Vec<LaneType>)
    ensures
        types.len() == count,
{
    let mut types: Vec<LaneType> = Vec::new();
    while types.len() < count
        invariant
            types.len() <= count,
        decreases count - types.len(),
    {
        types.push(random_lane_type(rng));
    }
    types
}

/// Adding lanes keeps a system joined to every neighbour it was joined to.
pub proof fn lemma_joined_all_round_kept(new: Galaxy, old: Galaxy, id: usize)
    requires
        new.extends(old),
        old.joined_all_round(id),
    ensures
        new.joined_all_round(id),
{
    assert forall|direction: int|
        0 <= direction < 6 && new.occupied(
            #[trigger] new.systems[id].coords@.neighbor(direction),
        ) implies new.joined(id, new.id_of(new.systems[id].coords@.neighbor(direction))) by {
        let n = old.systems[id].coords@.neighbor(direction);
        assert(old.occupied(n));
        lemma_extends_keeps_joined(new, old, id, old.id_of(n));
    }
}

/// A lane from a system to one of its occupied neighbours joins two
/// systems that lie side by side.
pub proof fn lemma_leaving_lane_is_short(galaxy: Galaxy, k: int, id: usize)
    requires
        galaxy.well_formed(),
        0 <= k < galaxy.lanes.len(),
        galaxy.lane_leaves(k, id),
    ensures
        galaxy.lane_is_short(k),
{
    let lane = galaxy.lanes[k];
    let p = galaxy.systems[id].coords@;
    assert(galaxy.beside_among(p, lane.destination, 6));
    let d = choose|d: int|
        0 <= d < 6 && galaxy.occupied(#[trigger] p.neighbor(d)) && lane.destination
            == galaxy.id_of(p.neighbor(d));
    let n = p.neighbor(d);
    let there = galaxy.systems[lane.destination];
    assert(galaxy.systems.contains_key(lane.destination));
    lemma_id_in_range(n, galaxy.num_rings as int);
    lemma_id_injective(there.coords@, n, galaxy.num_rings as int);
    lemma_neighbor_is_adjacent(p, d);
}

/// Maps with the same systems on the same grid agree on which neighbours
/// of a point hold a system.
pub proof fn lemma_same_systems_same_neighbors(a: Galaxy, b: Galaxy, p: HexPoint, upto: int)
    requires
        a.systems == b.systems,
        a.num_rings == b.num_rings,
    ensures
        a.occupied_neighbors(p, upto) == b.occupied_neighbors(p, upto),
    decreases upto,
{
    if upto > 0 {
        lemma_same_systems_same_neighbors(a, b, p, upto - 1);
    }
}

/// Maps with the same systems on the same grid agree on whether the hub
/// has its six neighbours.
pub proof fn lemma_same_systems_same_hub(a: Galaxy, b: Galaxy)
    requires
        a.systems == b.systems,
        a.num_rings == b.num_rings,
    ensures
        a.hub_outcome() == b.hub_outcome(),
{
    lemma_same_systems_same_neighbors(a, b, HexPoint::origin(), 6);
}

/// Lanes made from the hub or from a home system leave the free
/// neighbours of every other system unjoined to it.
pub proof fn lemma_new_lanes_keep_room(
    new: Galaxy,
    before: Galaxy,
    start: Galaxy,
    from: usize,
    id: usize,
)
    requires
        start.well_formed(),
        before.extends(start),
        new.extends(before),
        start.systems.contains_key(id),
        start.systems.contains_key(from),
        start.systems[from].player is Some || from == start.hub_id,
        id != from,
        before.keeps_room(start, id),
        forall|k: int|
            before.lanes.len() <= k < new.lanes.len() ==> (#[trigger] new.lanes[k]).source == from,
    ensures
        new.keeps_room(start, id),
{
    let p = start.systems[id].coords@;
    assert forall|direction: int|
        0 <= direction < 6 && start.is_free(p, #[trigger] p.neighbor(direction)) implies !new.joined(
        id,
        start.id_of(p.neighbor(direction)),
    ) by {
        let n = p.neighbor(direction);
        let other = start.id_of(n);
        if new.joined(id, other) {
            let k = choose|k: int|
                0 <= k < new.lanes.len() && (#[trigger] new.lanes[k]).joins(id, other);
            if k < before.lanes.len() {
                assert(before.lanes[k].joins(id, other));
                assert(before.joined(id, other));
            } else {
                assert(new.lanes[k].source == from);
                assert(from == other);
                lemma_system_at_point(start, n);
                lemma_id_in_range(HexPoint::origin(), start.num_rings as int);
                lemma_id_in_range(n, start.num_rings as int);
                if from == start.hub_id {
                    lemma_id_injective(n, HexPoint::origin(), start.num_rings as int);
                }
            }
            assert(false);
        }
    }
}

/// A system has at least as many neighbours left to connect to as it has
/// free neighbours that are still unjoined to it.
pub proof fn lemma_room_is_open(galaxy: Galaxy, start: Galaxy, id: usize, upto: int)
    requires
        start.well_formed(),
        galaxy.extends(start),
        start.systems.contains_key(id),
        galaxy.keeps_room(start, id),
        upto <= 6,
    ensures
        start.free_neighbors(start.systems[id].coords@, upto) <= galaxy.open_neighbors(
            galaxy.systems[id].coords@,
            upto,
        ).len(),
    decreases upto,
{
    if upto > 0 {
        lemma_room_is_open(galaxy, start, id, upto - 1);
        let p = start.systems[id].coords@;
        let n = p.neighbor(upto - 1);
        lemma_id_in_range(p, start.num_rings as int);
        assert(galaxy.id_of(p) == id);
        if start.is_free(p, n) {
            assert(galaxy.occupied(n));
            assert(!galaxy.joined(id, start.id_of(n)));
        }
    }
}

/// Once lanes join the hub to all its neighbours, a lane made from another
/// system to a neighbour that no lane joined to it does not end at the hub.
pub proof fn lemma_later_lane_misses_hub(new: Galaxy, before: Galaxy, k: int, id: usize)
    requires
        before.well_formed(),
        new.extends(before),
        before.systems.contains_key(before.hub_id),
        before.joined_all_round(before.hub_id),
        before.systems.contains_key(id),
        id != before.hub_id,
        0 <= k < new.lanes.len(),
        new.lane_leaves(k, id),
        !before.joined(id, new.lanes[k].destination),
    ensures
        !new.lanes[k].touches(before.hub_id),
{
    let hub = before.hub_id;
    let origin = HexPoint::origin();
    if new.lanes[k].destination == hub {
        let p = before.systems[id].coords@;
        assert(new.beside_among(p, hub, 6));
        let d = choose|d: int|
            0 <= d < 6 && new.occupied(#[trigger] p.neighbor(d)) && hub == new.id_of(p.neighbor(d));
        let n = p.neighbor(d);
        lemma_id_in_range(origin, before.num_rings as int);
        lemma_id_in_range(n, before.num_rings as int);
        lemma_id_in_range(p, before.num_rings as int);
        lemma_id_injective(n, origin, before.num_rings as int);
        lemma_id_injective(before.systems[hub].coords@, origin, before.num_rings as int);
        lemma_neighbor_and_back(p, d);
        assert(before.occupied(before.systems[hub].coords@.neighbor(opposite(d))));
        assert(before.joined(hub, id));
        lemma_joined_both_ways(before, hub, id);
    }
}

/// A lane that joins `a` and `b` joins `b` and `a`.
pub proof fn lemma_joined_both_ways(galaxy: Galaxy, a: usize, b: usize)
    requires
        galaxy.joined(a, b),
    ensures
        galaxy.joined(b, a),
{
    let k = choose|k: int| 0 <= k < galaxy.lanes.len() && (#[trigger] galaxy.lanes[k]).joins(a, b);
    assert(galaxy.lanes[k].joins(b, a));
}

/// A system that lanes join to all its occupied neighbours has no
/// neighbour left to connect to.
pub proof fn lemma_no_open_neighbors(galaxy: Galaxy, id: usize, upto: int)
    requires
        galaxy.well_formed(),
        galaxy.systems.contains_key(id),
        galaxy.joined_all_round(id),
        upto <= 6,
    ensures
        galaxy.open_neighbors(galaxy.systems[id].coords@, upto).len() == 0,
    decreases upto,
{
    if upto > 0 {
        lemma_no_open_neighbors(galaxy, id, upto - 1);
        let p = galaxy.systems[id].coords@;
        lemma_id_in_range(p, galaxy.num_rings as int);
        assert(galaxy.id_of(p) == id);
        if galaxy.occupied(p.neighbor(upto - 1)) {
            assert(galaxy.joined(id, galaxy.id_of(p.neighbor(upto - 1))));
        }
    }
}

/// The system at an occupied point of a well-formed map lies at that point
/// and carries the point's identifier.
pub proof fn lemma_system_at_point(galaxy: Galaxy, p: HexPoint)
    requires
        galaxy.well_formed(),
        galaxy.occupied(p),
    ensures
        galaxy.at(p).coords@ == p,
        galaxy.at(p).id == galaxy.id_of(p),
        galaxy.at(p).ring == p.ring(),
{
    lemma_id_in_range(p, galaxy.num_rings as int);
    lemma_id_injective(galaxy.at(p).coords@, p, galaxy.num_rings as int);
}

/// Where lanes join every system that is nobody's home to all its
/// neighbours, and no two homes lie side by side, lanes join every system
/// to all its neighbours: there is nothing left for lane generation to add.
pub proof fn lemma_saturated_apart_is_joined_everywhere(galaxy: Galaxy)
    requires
        galaxy.well_formed(),
        galaxy.saturated(),
        galaxy.homes_apart(),
    ensures
        galaxy.joined_everywhere(),
{
    assert forall|id: usize| galaxy.systems.contains_key(id) implies #[trigger] galaxy.joined_all_round(
        id,
    ) by {
        let home = galaxy.systems[id];
        let p = home.coords@;
        if home.player is Some {
            assert forall|direction: int|
                0 <= direction < 6 && galaxy.occupied(#[trigger] p.neighbor(direction)) implies galaxy.joined(
                id,
                galaxy.id_of(p.neighbor(direction)),
            ) by {
                let n = p.neighbor(direction);
                let other = galaxy.id_of(n);
                lemma_system_at_point(galaxy, n);
                lemma_id_in_range(p, galaxy.num_rings as int);
                lemma_neighbor_and_back(p, direction);
                assert(galaxy.systems[other].player is None);
                assert(galaxy.joined_all_round(other));
                assert(galaxy.occupied(galaxy.systems[other].coords@.neighbor(opposite(direction))));
                lemma_joined_both_ways(galaxy, other, id);
            }
        }
    }
}

/// Whether `ids` lists `id`.
fn lists_id(ids: &Vec<usize>, id: usize) -> (found: bool)
    ensures
        found == ids@.contains(id),
{
    let mut i: usize = 0;
    while i < ids.len()
        invariant
            i <= ids.len(),
            forall|j: int| 0 <= j < i ==> ids[j] != id,
        decreases ids.len() - i,
    {
        if ids[i] == id {
            return true;
        }
        i += 1;
    }
    false
}

impl StarMap {
    /// The identifiers of all systems, in rising order.
    pub fn system_ids(&self) -> (ids: Vec<usize>)
        requires
            self.wf(),
        ensures
            forall|i: int, j: int| 0 <= i < j < ids.len() ==> ids[i] < ids[j],
            forall|id: usize| ids@.contains(id) <==> self@.systems.contains_key(id),
            ids.len() == self@.systems.len(),
    {
        let rings = self.num_rings();
        proof {
            lemma_rings_fit(rings as int);
        }
        let side: usize = 2 * (rings as usize) + 1;
        let limit: usize = side * side;
        let mut ids: Vec<usize> = Vec::new();
        let mut id: usize = 0;
        while id < limit
            invariant
                self.wf(),
                limit == id_space(self@.num_rings as int),
                id <= limit,
                forall|i: int, j: int| 0 <= i < j < ids.len() ==> ids[i] < ids[j],
                forall|i: int| 0 <= i < ids.len() ==> ids[i] < id,
                forall|other: usize|
                    ids@.contains(other) <==> other < id && self@.systems.contains_key(other),
            decreases limit - id,
        {
            let ghost before = ids@;
            if self.system(id).is_some() {
                ids.push(id);
                assert(ids@[before.len() as int] == id);
            }
            proof {
                assert forall|other: usize| ids@.contains(other) <==> other < id + 1
                    && self@.systems.contains_key(other) by {
                    if ids@.contains(other) {
                        let i = choose|i: int| 0 <= i < ids@.len() && ids@[i] == other;
                        if i < before.len() {
                            assert(before.contains(other));
                        }
                    }
                    if other < id && self@.systems.contains_key(other) {
                        assert(before.contains(other));
                        let i = choose|i: int| 0 <= i < before.len() && before[i] == other;
                        assert(ids@[i] == other);
                    }
                }
            }
            id += 1;
        }
        proof {
            assert forall|other: usize| self@.systems.contains_key(other) implies other
                < limit by {
                lemma_id_in_range(self@.systems[other].coords@, self@.num_rings as int);
            }
            assert(ids@.no_duplicates());
            ids@.unique_seq_to_set();
            assert(ids@.to_set() =~= self@.systems.dom());
        }
        ids
    }

    /// The neighbours of system `id` that hold a system which no lane joins
    /// to `id` yet, in the order of the directions.
    pub fn open_neighbor_ids(&self, id: usize) -> (open: Vec<usize>)
        requires
            self.wf(),
            self@.systems.contains_key(id),
        ensures
            open@ == self@.open_neighbors(self@.systems[id].coords@, 6),
            open.len() <= 6,
            forall|i: int, j: int| 0 <= i < j < open.len() ==> open[i] != open[j],
            forall|i: int|
                0 <= i < open.len() ==> {
                    &&& self@.systems.contains_key(#[trigger] open[i])
                    &&& !self@.joined(id, open[i])
                    &&& self@.beside(self@.systems[id].coords@, open[i])
                },
    {
        let system = self.system(id).unwrap();
        let ghost p = system.coords@;
        let existing = self.connected_ids(id);
        let mut open: Vec<usize> = Vec::new();
        let mut direction: usize = 0;
        while direction < 6
            invariant
                self.wf(),
                self@.systems.contains_key(id),
                system == self@.systems[id],
                p == system.coords@,
                self@.id_of(p) == id,
                forall|other: usize| existing@.contains(other) <==> self@.joined(id, other),
                direction <= 6,
                open@ == self@.open_neighbors(p, direction as int),
                open.len() <= direction,
                forall|i: int|
                    0 <= i < open.len() ==> self@.beside_among(
                        p,
                        #[trigger] open[i],
                        direction as int,
                    ),
                forall|i: int|
                    0 <= i < open.len() ==> {
                        &&& self@.systems.contains_key(#[trigger] open[i])
                        &&& !self@.joined(id, open[i])
                    },
                forall|i: int, j: int| 0 <= i < j < open.len() ==> open[i] != open[j],
            decreases 6 - direction,
        {
            let ghost n = p.neighbor(direction as int);
            let ghost before = open@;
            match self.neighbor_system(&system.coords, direction) {
                Some(neighbor) => {
                    if !lists_id(&existing, neighbor.id) {
                        proof {
                            assert forall|i: int| 0 <= i < before.len() implies before[i]
                                != neighbor.id by {
                                assert(self@.beside_among(p, before[i], direction as int));
                                let d = choose|d: int|
                                    0 <= d < direction && self@.occupied(#[trigger] p.neighbor(d))
                                        && before[i] == self@.id_of(p.neighbor(d));
                                if before[i] == neighbor.id {
                                    lemma_id_in_range(p.neighbor(d), self@.num_rings as int);
                                    lemma_id_in_range(n, self@.num_rings as int);
                                    lemma_id_injective(p.neighbor(d), n, self@.num_rings as int);
                                }
                            }
                        }
                        open.push(neighbor.id);
                    }
                },
                None => {},
            }
            proof {
                assert forall|i: int| 0 <= i < open.len() implies self@.beside_among(
                    p,
                    #[trigger] open[i],
                    direction + 1,
                ) by {
                    if i < before.len() {
                        assert(self@.beside_among(p, before[i], direction as int));
                        let d = choose|d: int|
                            0 <= d < direction && self@.occupied(#[trigger] p.neighbor(d))
                                && before[i] == self@.id_of(p.neighbor(d));
                        assert(self@.occupied(p.neighbor(d)));
                    } else {
                        assert(self@.occupied(p.neighbor(direction as int)));
                    }
                }
            }
            direction += 1;
        }
        proof {
            assert forall|i: int| 0 <= i < open.len() implies self@.beside(
                self@.systems[id].coords@,
                #[trigger] open[i],
            ) by {
                assert(self@.beside_among(p, open[i], 6));
            }
        }
        open
    }

    /// Joins system `id` to the first systems of `targets`, one for each
    /// lane class of `types`, in that order.
    fn connect_listed(&mut self, id: usize, targets: &Vec<usize>, types: &Vec<LaneType>)
        requires
            old(self).wf(),
            old(self)@.systems.contains_key(id),
            types.len() <= targets.len(),
            old(self)@.lanes.len() + types.len() <= u32::MAX,
            forall|i: int, j: int| 0 <= i < j < targets.len() ==> targets[i] != targets[j],
            forall|i: int|
                0 <= i < targets.len() ==> {
                    &&& old(self)@.systems.contains_key(#[trigger] targets[i])
                    &&& !old(self)@.joined(id, targets[i])
                },
        ensures
            final(self).wf(),
            final(self)@.extends(old(self)@),
            final(self)@.lanes.len() == old(self)@.lanes.len() + types.len(),
            forall|i: int|
                0 <= i < types.len() ==> #[trigger] final(self)@.lanes[old(self)@.lanes.len() + i]
                    == (JumpLane { source: id, destination: targets[i], lane_type: types[i] }),
    {
        let ghost start = self@;
        let mut i: usize = 0;
        while i < types.len()
            invariant
                self.wf(),
                self@.extends(start),
                start == old(self)@,
                start.systems.contains_key(id),
                types.len() <= targets.len(),
                start.lanes.len() + types.len() <= u32::MAX,
                forall|a: int, b: int| 0 <= a < b < targets.len() ==> targets[a] != targets[b],
                forall|j: int|
                    0 <= j < targets.len() ==> {
                        &&& start.systems.contains_key(#[trigger] targets[j])
                        &&& !start.joined(id, targets[j])
                    },
                i <= types.len(),
                self@.lanes.len() == start.lanes.len() + i,
                forall|j: int|
                    0 <= j < i ==> #[trigger] self@.lanes[start.lanes.len() + j] == (JumpLane {
                        source: id,
                        destination: targets[j],
                        lane_type: types[j],
                    }),
            decreases types.len() - i,
        {
            let ghost before = self@;
            proof {
                if before.joined(id, targets[i as int]) {
                    let k = choose|k: int|
                        0 <= k < before.lanes.len() && (#[trigger] before.lanes[k]).joins(
                            id,
                            targets[i as int],
                        );
                    if k < start.lanes.len() {
                        assert(start.lanes[k].joins(id, targets[i as int]));
                    } else {
                        let j = k - start.lanes.len();
                        assert(before.lanes[start.lanes.len() + j].destination == targets[j]);
                    }
                    assert(false);
                }
            }
            self.add_lane(id, targets[i], types[i]);
            proof {
                assert forall|k: int| 0 <= k < start.lanes.len() implies #[trigger] self@.lanes[k]
                    == start.lanes[k] by {
                    assert(before.lanes[k] == start.lanes[k]);
                }
                assert forall|j: int| 0 <= j < i + 1 implies #[trigger] self@.lanes[start.lanes.len()
                    + j] == (JumpLane {
                    source: id,
                    destination: targets[j],
                    lane_type: types[j],
                }) by {
                    if j < i {
                        assert(self@.lanes[start.lanes.len() + j] == before.lanes[start.lanes.len()
                            + j]);
                    }
                }
            }
            i += 1;
        }
    }

    /// Joins system `id` to every neighbour that no lane joins to it yet:
    /// to the `i`-th of them, which `open` lists, by a lane of class
    /// `types[i]`.
    fn connect_round(&mut self, id: usize, open: &Vec<usize>, types: &Vec<LaneType>)
        requires
            old(self).wf(),
            old(self)@.systems.contains_key(id),
            old(self)@.lanes.len() + 6 <= u32::MAX,
            open@ == old(self)@.open_neighbors(old(self)@.systems[id].coords@, 6),
            open.len() <= 6,
            types.len() == open.len(),
            forall|i: int, j: int| 0 <= i < j < open.len() ==> open[i] != open[j],
            forall|i: int|
                0 <= i < open.len() ==> {
                    &&& old(self)@.systems.contains_key(#[trigger] open[i])
                    &&& !old(self)@.joined(id, open[i])
                    &&& old(self)@.beside(old(self)@.systems[id].coords@, open[i])
                },
        ensures
            final(self).wf(),
            final(self)@.extends(old(self)@),
            final(self)@.lanes.len() == old(self)@.lanes.len() + open.len(),
            final(self)@.joined_all_round(id),
            forall|k: int|
                #![trigger final(self)@.lane_leaves(k, id)]
                old(self)@.lanes.len() <= k < final(self)@.lanes.len() ==> final(self)@.lane_leaves(
                    k,
                    id,
                ),
            forall|k: int|
                old(self)@.lanes.len() <= k < final(self)@.lanes.len() ==> !old(self)@.joined(
                    id,
                    (#[trigger] final(self)@.lanes[k]).destination,
                ),
            forall|i: int|
                0 <= i < types.len() ==> (#[trigger] final(self)@.lanes[old(self)@.lanes.len()
                    + i]).lane_type == types[i],
    {
        let ghost start = self@;
        self.connect_listed(id, open, types);
        proof {
            let p = start.systems[id].coords@;
            assert forall|k: int| start.lanes.len() <= k < self@.lanes.len() implies !start.joined(
                id,
                (#[trigger] self@.lanes[k]).destination,
            ) by {
                let i = k - start.lanes.len();
                assert(self@.lanes[start.lanes.len() + i].destination == open[i]);
            }
            assert forall|k: int|
                #![trigger self@.lane_leaves(k, id)]
                start.lanes.len() <= k < self@.lanes.len() implies self@.lane_leaves(k, id) by {
                let i = k - start.lanes.len();
                assert(self@.lanes[start.lanes.len() + i].destination == open[i]);
                assert(start.beside_among(p, open[i], 6));
                let d = choose|d: int|
                    0 <= d < 6 && start.occupied(#[trigger] p.neighbor(d)) && open[i]
                        == start.id_of(p.neighbor(d));
                assert(self@.occupied(p.neighbor(d)));
                assert(self@.beside_among(p, open[i], 6));
            }
            assert forall|direction: int|
                0 <= direction < 6 && self@.occupied(
                    #[trigger] self@.systems[id].coords@.neighbor(direction),
                ) implies self@.joined(
                id,
                self@.id_of(self@.systems[id].coords@.neighbor(direction)),
            ) by {
                let n = p.neighbor(direction);
                let other = start.id_of(n);
                assert(start.occupied(n));
                if start.joined(id, other) {
                    lemma_extends_keeps_joined(self@, start, id, other);
                } else {
                    lemma_open_neighbors_complete(start, p, 6, direction);
                    let i = choose|i: int| 0 <= i < open@.len() && open@[i] == other;
                    assert(self@.lanes[start.lanes.len() + i].joins(id, other));
                }
            }
        }
    }

    /// Joins the hub by a major lane to each of its six neighbours that no
    /// lane joins to it yet.
    pub fn connect_hub(&mut self) -> (outcome: Result<(), GenerationError>)
        requires
            old(self).wf(),
            old(self)@.lanes.len() + 6 <= u32::MAX,
        ensures
            final(self).wf(),
            final(self)@.extends(old(self)@),
            outcome == old(self)@.hub_outcome(),
            outcome is Err ==> final(self)@ == old(self)@,
            outcome is Ok ==> final(self)@.joined_all_round(old(self)@.hub_id),
            outcome is Ok ==> final(self)@.lanes.len() == old(self)@.lanes.len()
                + old(self)@.open_neighbors(HexPoint::origin(), 6).len(),
            final(self)@.lanes.len() <= old(self)@.lanes.len() + 6,
            forall|k: int|
                #![trigger final(self)@.lane_leaves(k, old(self)@.hub_id)]
                old(self)@.lanes.len() <= k < final(self)@.lanes.len() ==> final(self)@.lane_leaves(
                    k,
                    old(self)@.hub_id,
                ),
            forall|k: int|
                old(self)@.lanes.len() <= k < final(self)@.lanes.len() ==> (
                #[trigger] final(self)@.lanes[k]).lane_type == LaneType::Major,
    {
        let hub_id = self.hub_id();
        proof {
            lemma_id_in_range(HexPoint::origin(), self@.num_rings as int);
        }
        let hub = match self.system(hub_id) {
            Some(hub) => hub,
            None => {
                return Err(GenerationError::HubNeighbors { found: 0 });
            },
        };
        proof {
            lemma_id_injective(hub.coords@, HexPoint::origin(), self@.num_rings as int);
        }
        let found = self.count_adjacent(&hub.coords);
        if found != 6 {
            return Err(GenerationError::HubNeighbors { found });
        }
        let open = self.open_neighbor_ids(hub_id);
        let types = major_lanes(open.len());
        let ghost start = self@;
        self.connect_round(hub_id, &open, &types);
        proof {
            assert forall|k: int| start.lanes.len() <= k < self@.lanes.len() implies (
            #[trigger] self@.lanes[k]).lane_type == LaneType::Major by {
                let i = k - start.lanes.len();
                assert(self@.lanes[start.lanes.len() + i].lane_type == types[i]);
            }
        }
        Ok(())
    }

    /// Joins home system `id` by major lanes to three of its neighbours
    /// that no lane joins to it yet, picked at random.
    pub fn connect_player_system(&mut self, id: usize, rng: &mut StdRng) -> (outcome: Result<
        (),
        GenerationError,
    >)
        requires
            old(self).wf(),
            old(self)@.systems.contains_key(id),
            old(self)@.lanes.len() + 3 <= u32::MAX,
        ensures
            final(self).wf(),
            final(self)@.extends(old(self)@),
            outcome == old(self)@.home_outcome(id),
            outcome is Err ==> final(self)@ == old(self)@,
            outcome is Ok ==> final(self)@.lanes.len() == old(self)@.lanes.len() + 3,
            outcome is Ok ==> forall|i: int, j: int|
                0 <= i < j < 3 ==> (#[trigger] final(self)@.lanes[old(self)@.lanes.len()
                    + i]).destination != (#[trigger] final(self)@.lanes[old(self)@.lanes.len()
                    + j]).destination,
            forall|k: int|
                #![trigger final(self)@.lane_leaves(k, id)]
                old(self)@.lanes.len() <= k < final(self)@.lanes.len() ==> final(self)@.lane_leaves(
                    k,
                    id,
                ),
            forall|k: int|
                old(self)@.lanes.len() <= k < final(self)@.lanes.len() ==> (
                #[trigger] final(self)@.lanes[k]).lane_type == LaneType::Major,
            forall|k: int|
                old(self)@.lanes.len() <= k < final(self)@.lanes.len() ==> !old(self)@.joined(
                    id,
                    (#[trigger] final(self)@.lanes[k]).destination,
                ),
    {
        let mut open = self.open_neighbor_ids(id);
        let ghost listed = open@;
        shuffle_ids(&mut open, rng);
        proof {
            listed.to_multiset_ensures();
            open@.to_multiset_ensures();
            listed.lemma_multiset_has_no_duplicates();
            open@.lemma_multiset_has_no_duplicates_conv();
            assert forall|i: int| 0 <= i < open.len() implies listed.contains(#[trigger] open[i])
                && !self@.joined(id, open[i]) && self@.systems.contains_key(open[i]) by {
                assert(open@.contains(open[i]));
                assert(open@.to_multiset().count(open[i]) > 0);
                assert(listed.to_multiset().count(open[i]) > 0);
                let j = choose|j: int| 0 <= j < listed.len() && listed[j] == open[i];
                assert(self@.systems.contains_key(listed[j]));
            }
        }
        if open.len() < 3 {
            return Err(GenerationError::HomeNeighbors { system: id, available: open.len() });
        }
        let types = major_lanes(3);
        let ghost start = self@;
        self.connect_listed(id, &open, &types);
        proof {
            let p = start.systems[id].coords@;
            assert forall|i: int, j: int| 0 <= i < j < 3 implies (#[trigger] self@.lanes[start.lanes.len()
                + i]).destination != (#[trigger] self@.lanes[start.lanes.len() + j]).destination by {
                assert(self@.lanes[start.lanes.len() + i].destination == open[i]);
                assert(self@.lanes[start.lanes.len() + j].destination == open[j]);
            }
            assert forall|k: int| start.lanes.len() <= k < self@.lanes.len() implies (
            #[trigger] self@.lanes[k]).lane_type == LaneType::Major by {
                let i = k - start.lanes.len();
                assert(self@.lanes[start.lanes.len() + i].lane_type == types[i]);
            }
            assert forall|k: int| start.lanes.len() <= k < self@.lanes.len() implies !start.joined(
                id,
                (#[trigger] self@.lanes[k]).destination,
            ) by {
                let i = k - start.lanes.len();
                assert(self@.lanes[start.lanes.len() + i].destination == open[i]);
            }
            assert forall|k: int|
                #![trigger self@.lane_leaves(k, id)]
                start.lanes.len() <= k < self@.lanes.len() implies self@.lane_leaves(k, id) by {
                let i = k - start.lanes.len();
                assert(self@.lanes[start.lanes.len() + i].destination == open[i]);
                assert(listed.contains(open[i]));
                let j = choose|j: int| 0 <= j < listed.len() && listed[j] == open[i];
                assert(start.beside(p, listed[j]));
                assert(start.beside_among(p, open[i], 6));
                let d = choose|d: int|
                    0 <= d < 6 && start.occupied(#[trigger] p.neighbor(d)) && open[i]
                        == start.id_of(p.neighbor(d));
                assert(self@.occupied(p.neighbor(d)));
                assert(self@.beside_among(p, open[i], 6));
            }
        }
        Ok(())
    }

    /// Joins a system of the outer ring to every neighbour that no lane
    /// joins to it yet, by a lane of a class drawn for it.
    pub fn connect_outer_system(&mut self, id: usize, rng: &mut StdRng)
        requires
            old(self).wf(),
            old(self)@.systems.contains_key(id),
            old(self)@.lanes.len() + 6 <= u32::MAX,
        ensures
            final(self).wf(),
            final(self)@.extends(old(self)@),
            final(self)@.lanes.len() == old(self)@.lanes.len() + old(self)@.open_neighbors(
                old(self)@.systems[id].coords@,
                6,
            ).len(),
            final(self)@.lanes.len() <= old(self)@.lanes.len() + 6,
            final(self)@.joined_all_round(id),
            forall|k: int|
                #![trigger final(self)@.lane_leaves(k, id)]
                old(self)@.lanes.len() <= k < final(self)@.lanes.len() ==> final(self)@.lane_leaves(
                    k,
                    id,
                ),
            forall|k: int|
                old(self)@.lanes.len() <= k < final(self)@.lanes.len() ==> !old(self)@.joined(
                    id,
                    (#[trigger] final(self)@.lanes[k]).destination,
                ),
    {
        let open = self.open_neighbor_ids(id);
        let types = draw_lane_types(open.len(), rng);
        self.connect_round(id, &open, &types);
    }

    /// Joins a system inside the outer ring to every neighbour that no lane
    /// joins to it yet, by a lane of a class drawn for it.
    pub fn connect_inner_system(&mut self, id: usize, rng: &mut StdRng)
        requires
            old(self).wf(),
            old(self)@.systems.contains_key(id),
            old(self)@.lanes.len() + 6 <= u32::MAX,
        ensures
            final(self).wf(),
            final(self)@.extends(old(self)@),
            final(self)@.lanes.len() == old(self)@.lanes.len() + old(self)@.open_neighbors(
                old(self)@.systems[id].coords@,
                6,
            ).len(),
            final(self)@.lanes.len() <= old(self)@.lanes.len() + 6,
            final(self)@.joined_all_round(id),
            forall|k: int|
                #![trigger final(self)@.lane_leaves(k, id)]
                old(self)@.lanes.len() <= k < final(self)@.lanes.len() ==> final(self)@.lane_leaves(
                    k,
                    id,
                ),
            forall|k: int|
                old(self)@.lanes.len() <= k < final(self)@.lanes.len() ==> !old(self)@.joined(
                    id,
                    (#[trigger] final(self)@.lanes[k]).destination,
                ),
    {
        let open = self.open_neighbor_ids(id);
        let types = draw_lane_types(open.len(), rng);
        self.connect_round(id, &open, &types);
    }

    /// Generates the lanes of the galaxy in four passes: the hub, the home
    /// systems, the other systems of the outer ring, and the systems inside
    /// it. No pass makes a lane between two systems that a lane joins
    /// already, and every lane that the map had stays.
    ///
    /// Where the hub lacks its six neighbours, nothing is changed. Where a
    /// home system lacks three neighbours to connect to, the lanes made up
    /// to then stay.
    pub fn generate_lanes(&mut self, rng: &mut StdRng) -> (outcome: Result<(), GenerationError>)
        requires
            old(self).wf(),
            old(self)@.lanes.len() + 18 * old(self)@.systems.len() + 6 <= u32::MAX,
        ensures
            final(self).wf(),
            final(self)@.extends(old(self)@),
            forall|k: int|
                old(self)@.lanes.len() <= k < final(self)@.lanes.len() ==> #[trigger] final(
                self)@.lane_is_short(k),
            old(self)@.hub_outcome() is Err ==> outcome == old(self)@.hub_outcome() && final(self)@
                == old(self)@,
            old(self)@.hub_outcome() is Ok ==> (outcome is Ok || final(self)@.home_fault(outcome)),
            outcome is Ok ==> final(self)@.saturated(),
            old(self)@.joined_everywhere() ==> final(self)@ == old(self)@,
            old(self)@.hub_outcome() is Ok && old(self)@.homes_have_room() ==> outcome is Ok,
            final(self)@.hub_lanes_major(old(self)@.lanes.len() as int),
    {
        let ghost start = self@;
        match self.connect_hub() {
            Ok(()) => {},
            Err(fault) => {
                return Err(fault);
            },
        }
        let hub_id = self.hub_id();
        let rings = self.num_rings();
        proof {
            lemma_id_in_range(HexPoint::origin(), start.num_rings as int);
            assert(self@.hub_lanes_major(start.lanes.len() as int)) by {
                assert forall|k: int|
                    start.lanes.len() <= k < self@.lanes.len() && (#[trigger] self@.lanes[k]).touches(
                        self@.hub_id,
                    ) implies self@.lanes[k].source == self@.hub_id && self@.lanes[k].lane_type
                    == LaneType::Major by {
                    assert(self@.lane_leaves(k, hub_id));
                }
            }
            if start.joined_everywhere() {
                lemma_system_at_point(start, HexPoint::origin());
                assert(start.joined_all_round(hub_id));
                lemma_no_open_neighbors(start, hub_id, 6);
            }
            assert forall|k: int| start.lanes.len() <= k < self@.lanes.len() implies #[trigger] self@.lane_is_short(
                k,
            ) by {
                assert(self@.lane_leaves(k, hub_id));
                lemma_leaving_lane_is_short(self@, k, hub_id);
            }
        }
        let ids = self.system_ids();
        proof {
            if start.homes_have_room() {
                lemma_system_at_point(start, HexPoint::origin());
                assert forall|j: int|
                    0 <= j < ids.len() && start.systems[ids[j]].player
                        is Some implies #[trigger] self@.keeps_room(start, ids[j]) by {
                    assert(ids@.contains(ids[j]));
                    assert(start.keeps_room(start, ids[j])) by {
                        lemma_id_in_range(
                            start.systems[ids[j]].coords@,
                            start.num_rings as int,
                        );
                    }
                    assert forall|k: int|
                        start.lanes.len() <= k < self@.lanes.len() implies (
                    #[trigger] self@.lanes[k]).source == hub_id by {
                        assert(self@.lane_leaves(k, hub_id));
                    }
                    lemma_new_lanes_keep_room(self@, start, start, hub_id, ids[j]);
                }
            }
        }
        let mut i: usize = 0;
        while i < ids.len()
            invariant
                forall|a: int, b: int| 0 <= a < b < ids.len() ==> ids[a] < ids[b],
                start.homes_have_room() ==> forall|j: int|
                    i <= j < ids.len() && start.systems[ids[j]].player
                        is Some ==> #[trigger] self@.keeps_room(start, ids[j]),
                self.wf(),
                self@.extends(start),
                start == old(self)@,
                start.well_formed(),
                start.hub_outcome() is Ok,
                hub_id == start.hub_id,
                self@.joined_all_round(hub_id),
                forall|id: usize| ids@.contains(id) <==> start.systems.contains_key(id),
                ids.len() == start.systems.len(),
                start.lanes.len() + 18 * ids.len() + 6 <= u32::MAX,
                start.joined_everywhere() ==> self@.lanes.len() == start.lanes.len(),
                self@.hub_lanes_major(start.lanes.len() as int),
                i <= ids.len(),
                self@.lanes.len() <= start.lanes.len() + 6 + 6 * i,
                forall|k: int|
                    start.lanes.len() <= k < self@.lanes.len() ==> #[trigger] self@.lane_is_short(k),
            decreases ids.len() - i,
        {
            let id = ids[i];
            assert(ids@.contains(id));
            let system = self.system(id).unwrap();
            if system.player.is_some() {
                let ghost before = self@;
                proof {
                    if start.joined_everywhere() {
                        assert(self@.lanes =~= start.lanes);
                        assert(start.joined_all_round(id));
                        lemma_no_open_neighbors(start, id, 6);
                    }
                    if start.homes_have_room() {
                        assert(self@.keeps_room(start, ids[i as int]));
                        lemma_room_is_open(self@, start, id, 6);
                    }
                }
                match self.connect_player_system(id, rng) {
                    Ok(()) => {},
                    Err(fault) => {
                        return Err(fault);
                    },
                }
                proof {
                    lemma_extends_twice(self@, before, start);
                    if start.homes_have_room() {
                        assert forall|j: int|
                            i + 1 <= j < ids.len() && start.systems[ids[j]].player
                                is Some implies #[trigger] self@.keeps_room(start, ids[j]) by {
                            assert(ids@.contains(ids[j]));
                            assert(before.keeps_room(start, ids[j]));
                            assert forall|k: int|
                                before.lanes.len() <= k < self@.lanes.len() implies (
                            #[trigger] self@.lanes[k]).source == id by {
                                assert(self@.lane_leaves(k, id));
                            }
                            lemma_new_lanes_keep_room(self@, before, start, id, ids[j]);
                        }
                    }
                    lemma_joined_all_round_kept(self@, before, hub_id);
                    assert(self@.hub_lanes_major(start.lanes.len() as int)) by {
                        if id == hub_id {
                            lemma_no_open_neighbors(before, hub_id, 6);
                        }
                        assert forall|k: int|
                            start.lanes.len() <= k < self@.lanes.len() && (
                            #[trigger] self@.lanes[k]).touches(
                                self@.hub_id,
                            ) implies self@.lanes[k].source == self@.hub_id
                            && self@.lanes[k].lane_type == LaneType::Major by {
                            if k < before.lanes.len() {
                                assert(self@.lanes[k] == before.lanes[k]);
                            } else {
                                assert(self@.lane_leaves(k, id));
                                lemma_later_lane_misses_hub(self@, before, k, id);
                            }
                        }
                    }
                    assert forall|k: int|
                        start.lanes.len() <= k < self@.lanes.len() implies #[trigger] self@.lane_is_short(
                        k,
                    ) by {
                        if k < before.lanes.len() {
                            assert(before.lane_is_short(k));
                            assert(self@.lanes[k] == before.lanes[k]);
                        } else {
                            assert(self@.lane_leaves(k, id));
                            lemma_leaving_lane_is_short(self@, k, id);
                        }
                    }
                }
            }
            i += 1;
        }
        let ghost homes_done = self@.lanes.len();
        let mut i: usize = 0;
        while i < ids.len()
            invariant
                self.wf(),
                self@.extends(start),
                start == old(self)@,
                start.well_formed(),
                start.hub_outcome() is Ok,
                hub_id == start.hub_id,
                rings == start.num_rings,
                self@.joined_all_round(hub_id),
                forall|id: usize| ids@.contains(id) <==> start.systems.contains_key(id),
                ids.len() == start.systems.len(),
                start.lanes.len() + 18 * ids.len() + 6 <= u32::MAX,
                start.joined_everywhere() ==> self@.lanes.len() == start.lanes.len(),
                self@.hub_lanes_major(start.lanes.len() as int),
                i <= ids.len(),
                self@.lanes.len() <= start.lanes.len() + 6 + 6 * ids.len() + 6 * i,
                forall|k: int|
                    start.lanes.len() <= k < self@.lanes.len() ==> #[trigger] self@.lane_is_short(k),
                forall|j: int|
                    0 <= j < i && start.systems[#[trigger] ids[j]].player is None
                        && start.systems[ids[j]].ring == rings ==> self@.joined_all_round(ids[j]),
            decreases ids.len() - i,
        {
            let id = ids[i];
            assert(ids@.contains(id));
            let system = self.system(id).unwrap();
            let ghost before = self@;
            if system.ring == rings && system.player.is_none() {
                proof {
                    if start.joined_everywhere() {
                        assert(self@.lanes =~= start.lanes);
                        assert(start.joined_all_round(id));
                        lemma_no_open_neighbors(start, id, 6);
                    }
                }
                self.connect_outer_system(id, rng);
                proof {
                    lemma_extends_twice(self@, before, start);
                    lemma_joined_all_round_kept(self@, before, hub_id);
                    assert(self@.hub_lanes_major(start.lanes.len() as int)) by {
                        if id == hub_id {
                            lemma_no_open_neighbors(before, hub_id, 6);
                        }
                        assert forall|k: int|
                            start.lanes.len() <= k < self@.lanes.len() && (
                            #[trigger] self@.lanes[k]).touches(
                                self@.hub_id,
                            ) implies self@.lanes[k].source == self@.hub_id
                            && self@.lanes[k].lane_type == LaneType::Major by {
                            if k < before.lanes.len() {
                                assert(self@.lanes[k] == before.lanes[k]);
                            } else {
                                assert(self@.lane_leaves(k, id));
                                lemma_later_lane_misses_hub(self@, before, k, id);
                            }
                        }
                    }
                    assert forall|k: int|
                        start.lanes.len() <= k < self@.lanes.len() implies #[trigger] self@.lane_is_short(
                        k,
                    ) by {
                        if k < before.lanes.len() {
                            assert(before.lane_is_short(k));
                            assert(self@.lanes[k] == before.lanes[k]);
                        } else {
                            assert(self@.lane_leaves(k, id));
                            lemma_leaving_lane_is_short(self@, k, id);
                        }
                    }
                }
            }
            proof {
                assert forall|j: int|
                    0 <= j < i + 1 && start.systems[#[trigger] ids[j]].player is None
                        && start.systems[ids[j]].ring == rings implies self@.joined_all_round(
                    ids[j],
                ) by {
                    if j < i {
                        assert(ids@.contains(ids[j]));
                        lemma_joined_all_round_kept(self@, before, ids[j]);
                    }
                }
            }
            i += 1;
        }
        let mut i: usize = 0;
        while i < ids.len()
            invariant
                self.wf(),
                self@.extends(start),
                start == old(self)@,
                start.well_formed(),
                start.hub_outcome() is Ok,
                hub_id == start.hub_id,
                rings == start.num_rings,
                self@.joined_all_round(hub_id),
                forall|id: usize| ids@.contains(id) <==> start.systems.contains_key(id),
                ids.len() == start.systems.len(),
                start.lanes.len() + 18 * ids.len() + 6 <= u32::MAX,
                start.joined_everywhere() ==> self@.lanes.len() == start.lanes.len(),
                self@.hub_lanes_major(start.lanes.len() as int),
                i <= ids.len(),
                self@.lanes.len() <= start.lanes.len() + 6 + 12 * ids.len() + 6 * i,
                forall|k: int|
                    start.lanes.len() <= k < self@.lanes.len() ==> #[trigger] self@.lane_is_short(k),
                forall|j: int|
                    0 <= j < ids.len() && start.systems[#[trigger] ids[j]].player is None
                        && start.systems[ids[j]].ring == rings ==> self@.joined_all_round(ids[j]),
                forall|j: int|
                    0 <= j < i && start.systems[#[trigger] ids[j]].player is None && 0
                        < start.systems[ids[j]].ring < rings ==> self@.joined_all_round(ids[j]),
            decreases ids.len() - i,
        {
            let id = ids[i];
            assert(ids@.contains(id));
            let system = self.system(id).unwrap();
            let ghost before = self@;
            if 0 < system.ring && system.ring < rings && system.player.is_none() {
                proof {
                    if start.joined_everywhere() {
                        assert(self@.lanes =~= start.lanes);
                        assert(start.joined_all_round(id));
                        lemma_no_open_neighbors(start, id, 6);
                    }
                }
                self.connect_inner_system(id, rng);
                proof {
                    lemma_extends_twice(self@, before, start);
                    lemma_joined_all_round_kept(self@, before, hub_id);
                    assert(self@.hub_lanes_major(start.lanes.len() as int)) by {
                        if id == hub_id {
                            lemma_no_open_neighbors(before, hub_id, 6);
                        }
                        assert forall|k: int|
                            start.lanes.len() <= k < self@.lanes.len() && (
                            #[trigger] self@.lanes[k]).touches(
                                self@.hub_id,
                            ) implies self@.lanes[k].source == self@.hub_id
                            && self@.lanes[k].lane_type == LaneType::Major by {
                            if k < before.lanes.len() {
                                assert(self@.lanes[k] == before.lanes[k]);
                            } else {
                                assert(self@.lane_leaves(k, id));
                                lemma_later_lane_misses_hub(self@, before, k, id);
                            }
                        }
                    }
                    assert forall|k: int|
                        start.lanes.len() <= k < self@.lanes.len() implies #[trigger] self@.lane_is_short(
                        k,
                    ) by {
                        if k < before.lanes.len() {
                            assert(before.lane_is_short(k));
                            assert(self@.lanes[k] == before.lanes[k]);
                        } else {
                            assert(self@.lane_leaves(k, id));
                            lemma_leaving_lane_is_short(self@, k, id);
                        }
                    }
                }
            }
            proof {
                assert forall|j: int|
                    0 <= j < ids.len() && start.systems[#[trigger] ids[j]].player is None
                        && start.systems[ids[j]].ring == rings implies self@.joined_all_round(
                    ids[j],
                ) by {
                    assert(ids@.contains(ids[j]));
                    lemma_joined_all_round_kept(self@, before, ids[j]);
                }
                assert forall|j: int|
                    0 <= j < i + 1 && start.systems[#[trigger] ids[j]].player is None && 0
                        < start.systems[ids[j]].ring < rings implies self@.joined_all_round(
                    ids[j],
                ) by {
                    if j < i {
                        assert(ids@.contains(ids[j]));
                        lemma_joined_all_round_kept(self@, before, ids[j]);
                    }
                }
            }
            i += 1;
        }
        proof {
            lemma_same_systems_same_hub(self@, start);
            if start.joined_everywhere() {
                assert(self@.lanes =~= start.lanes);
            }
            assert forall|id: usize|
                self@.systems.contains_key(id) && (#[trigger] self@.systems[id]).player
                    is None implies self@.joined_all_round(id) by {
                assert(ids@.contains(id));
                let j = choose|j: int| 0 <= j < ids@.len() && ids@[j] == id;
                let system = start.systems[id];
                if system.ring == 0 {
                    lemma_id_injective(system.coords@, HexPoint::origin(), start.num_rings as int);
                } else if system.ring == rings {
                    assert(self@.joined_all_round(ids[j]));
                } else {
                    assert(self@.joined_all_round(ids[j]));
                }
            }
        }
        Ok(())
    }

    /// A galaxy for `player_count` players, two at least: laid out in
    /// full, with a home for every player, and with its lanes generated.
    /// Neither step can fail on such a galaxy, and lanes lead from the hub
    /// to every system of it.
    pub fn generate(player_count: usize, rng: &mut StdRng) -> (map: StarMap)
        requires
            2 <= player_count,
            galaxy_fits(player_count as int),
        ensures
            map.wf(),
            map@.player_count == player_count,
            map@.num_rings == player_count,
            map@.systems.len() == disk_size(player_count as int),
            map@.full(),
            map@.homes_placed(),
            forall|i: int|
                0 <= i < player_count ==> map@.at(
                    #[trigger] home_point(player_count as int, i),
                ).player == Some(i as usize),
            forall|k: int| 0 <= k < map@.lanes.len() ==> #[trigger] map@.lane_is_short(k),
            map@.saturated(),
            map@.joined_everywhere(),
            map@.hub_lanes_major(0),
            map@.connected(),
    {
        proof {
            lemma_galaxy_fits(player_count as int);
            lemma_placement_succeeds(player_count as int);
        }
        let mut map = StarMap::new(player_count);
        assert(map@.systems.len() == 0);
        let placed = map.populate();
        assert(placed is Ok);
        let ghost bare = map@;
        proof {
            if bare.lanes.len() > 0 {
                assert(bare.systems.contains_key(bare.lanes[0].source));
            }
            lemma_fresh_galaxy_has_room(bare);
        }
        let joined = map.generate_lanes(rng);
        assert(joined is Ok);
        proof {
            assert forall|p: HexPoint| p.ring() <= map@.num_rings implies #[trigger] map@.occupied(
                p,
            ) by {
                assert(bare.occupied(p));
            }
            lemma_generated_galaxy_is_connected(map@);
            lemma_placed_homes_lie_apart(map@);
            lemma_saturated_apart_is_joined_everywhere(map@);
        }
        map
    }
}

} // verus!
