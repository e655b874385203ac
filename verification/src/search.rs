//! Searching a galaxy: whether every system can be reached from the hub, and
//! the cheapest route that a fleet can take between two systems.

use vstd::prelude::*;
use vstd::set_lib::{lemma_len_subset, lemma_subset_equality};
use crate::fleet::{fleet_traverses, Fleet};
use crate::frontier::{leaves_first, OpenSet};
use crate::generation::lemma_system_at_point;
use crate::hex::{
    id_space, lemma_distance_symmetric, lemma_distance_triangle, lemma_distance_zero,
    lemma_id_in_range, lemma_neighbor_and_back, lemma_neighbor_further_in, lemma_rings_fit,
    opposite, HexPoint,
};
use crate::lane::LaneType;
use crate::ship::Ship;
use crate::starmap::{Galaxy, StarMap};
use crate::system::System;

verus! {

impl Galaxy {
    /// Whether `walk` names systems of the map, each joined to the next by
    /// a lane.
    pub open spec fn is_walk(self, walk: Seq<usize>) -> bool {
        &&& walk.len() >= 1
        &&& forall|i: int| 0 <= i < walk.len() ==> self.systems.contains_key(#[trigger] walk[i])
        &&& forall|i: int| 0 <= i < walk.len() - 1 ==> #[trigger] self.hop(walk, i)
    }

    /// Whether a lane joins the `i`-th system of `walk` to the next.
    pub open spec fn hop(self, walk: Seq<usize>, i: int) -> bool {
        self.joined(walk[i], walk[i + 1])
    }

    /// Whether a lane that `ships` can use joins the `i`-th system of
    /// `route` to the next.
    pub open spec fn leg(self, route: Seq<usize>, i: int, ships: Seq<Ship>) -> bool {
        self.passable(route[i], route[i + 1], ships)
    }

    /// Whether lanes lead from system `from` to system `to`, whatever
    /// their class.
    pub open spec fn reaches(self, from: usize, to: usize) -> bool {
        exists|walk: Seq<usize>| #[trigger]
            self.is_walk(walk) && walk.first() == from && walk.last() == to
    }

    /// Whether lanes lead from the hub to every system.
    pub open spec fn connected(self) -> bool {
        forall|id: usize| self.systems.contains_key(id) ==> #[trigger] self.reaches(self.hub_id, id)
    }

    /// Whether `seen` holds every system that a lane joins to one of its own.
    pub open spec fn closed_under_lanes(self, seen: Set<usize>) -> bool {
        forall|a: usize, b: usize| seen.contains(a) && #[trigger] self.joined(a, b) ==> seen.contains(b)
    }
}

/// A set of systems that holds the first system of a walk, and every
/// system that a lane joins to one of its own, holds the last one too.
pub proof fn lemma_closed_set_holds_walk(galaxy: Galaxy, seen: Set<usize>, walk: Seq<usize>)
    requires
        galaxy.is_walk(walk),
        seen.contains(walk.first()),
        galaxy.closed_under_lanes(seen),
    ensures
        seen.contains(walk.last()),
    decreases walk.len(),
{
    if walk.len() > 1 {
        let shorter = walk.drop_last();
        assert(galaxy.is_walk(shorter)) by {
            assert forall|i: int| 0 <= i < shorter.len() - 1 implies #[trigger] galaxy.hop(
                shorter,
                i,
            ) by {
                assert(galaxy.hop(walk, i));
            }
        }
        lemma_closed_set_holds_walk(galaxy, seen, shorter);
        assert(galaxy.hop(walk, walk.len() - 2));
    }
}

/// A walk that goes on over one more lane is a walk.
pub proof fn lemma_walk_goes_on(galaxy: Galaxy, walk: Seq<usize>, next: usize)
    requires
        galaxy.is_walk(walk),
        galaxy.systems.contains_key(next),
        galaxy.joined(walk.last(), next),
    ensures
        galaxy.is_walk(walk.push(next)),
        walk.push(next).first() == walk.first(),
        walk.push(next).last() == next,
{
    let longer = walk.push(next);
    assert forall|i: int| 0 <= i < longer.len() - 1 implies #[trigger] galaxy.hop(longer, i) by {
        if i < walk.len() - 1 {
            assert(galaxy.hop(walk, i));
        }
    }
}

/// The identifiers of `systems`, in their order.
pub open spec fn ids_of(systems: Seq<System>) -> Seq<usize> {
    systems.map_values(|system: System| system.id)
}

/// The sum of `scores`.
pub open spec fn total_score(scores: Seq<u32>) -> int
    decreases scores.len(),
{
    if scores.len() == 0 {
        0
    } else {
        total_score(scores.drop_last()) + scores.last()
    }
}

/// Changing one score changes the sum by as much.
pub proof fn lemma_total_score_update(scores: Seq<u32>, i: int, score: u32)
    requires
        0 <= i < scores.len(),
    ensures
        total_score(scores.update(i, score)) == total_score(scores) - scores[i] + score,
    decreases scores.len(),
{
    let changed = scores.update(i, score);
    if i == scores.len() - 1 {
        assert(changed.drop_last() =~= scores.drop_last());
    } else {
        assert(changed.drop_last() =~= scores.drop_last().update(i, score));
        lemma_total_score_update(scores.drop_last(), i, score);
    }
}

impl Galaxy {
    /// The class of the lane that joins systems `a` and `b`.
    pub open spec fn lane_between(self, a: usize, b: usize) -> LaneType {
        self.lanes[choose|k: int|
            0 <= k < self.lanes.len() && (#[trigger] self.lanes[k]).joins(a, b)].lane_type
    }

    /// Whether a lane that `ships` can use joins systems `a` and `b`.
    pub open spec fn passable(self, a: usize, b: usize, ships: Seq<Ship>) -> bool {
        self.joined(a, b) && fleet_traverses(ships, self.lane_between(a, b))
    }

    /// Whether `route` names systems of the map, each joined to the next
    /// by a lane that `ships` can use.
    pub open spec fn is_route(self, route: Seq<usize>, ships: Seq<Ship>) -> bool {
        &&& route.len() >= 1
        &&& forall|i: int| 0 <= i < route.len() ==> self.systems.contains_key(#[trigger] route[i])
        &&& forall|i: int| 0 <= i < route.len() - 1 ==> #[trigger] self.leg(route, i, ships)
    }

    /// Whether `route` is a route for `ships` from system `from` to system `to`.
    pub open spec fn route_from_to(
        self,
        route: Seq<usize>,
        from: usize,
        to: usize,
        ships: Seq<Ship>,
    ) -> bool {
        self.is_route(route, ships) && route.first() == from && route.last() == to
    }

    /// Whether `ships` can travel from system `from` to system `to`.
    pub open spec fn fleet_reaches(self, from: usize, to: usize, ships: Seq<Ship>) -> bool {
        exists|route: Seq<usize>| #[trigger] self.route_from_to(route, from, to, ships)
    }

    /// The cost of a route: the sum of the costs of its lanes.
    pub open spec fn route_cost(self, route: Seq<usize>) -> nat
        decreases route.len(),
    {
        if route.len() <= 1 {
            0
        } else {
            self.lane_between(route[0], route[1]).cost() + self.route_cost(route.drop_first())
        }
    }

    /// The search's estimate of the cost from system `from` to system
    /// `goal`: the distance between their hexes.
    #[verifier::opaque]
    pub open spec fn estimate(self, from: usize, goal: usize) -> int {
        self.systems[from].coords@.distance(self.systems[goal].coords@)
    }

    /// Whether no lane costs less than the distance between the hexes
    /// that it joins. It holds of lanes between neighbours, and where it
    /// holds the search's estimate never exceeds the cost of a route.
    pub open spec fn lanes_span_their_cost(self) -> bool {
        forall|k: int|
            0 <= k < self.lanes.len() ==> self.systems[(#[trigger] self.lanes[k]).source].coords@.distance(
                self.systems[self.lanes[k].destination].coords@,
            ) <= self.lanes[k].lane_type.cost()
    }

    /// What the search knows of the systems it has found: each has a cost
    /// below the sentinel, bounded by the number of systems found, and each
    /// but the start was reached from a found system over a lane that the
    /// fleet can use, at no less than that system's cost and the lane's.
    pub open spec fn labels_ok(
        self,
        ships: Seq<Ship>,
        start: usize,
        cost: Seq<u32>,
        via: Seq<usize>,
        found: Set<usize>,
    ) -> bool {
        &&& cost.len() == id_space(self.num_rings as int)
        &&& via.len() == cost.len()
        &&& found.finite()
        &&& found.contains(start)
        &&& cost[start as int] == 0
        &&& forall|v: usize| #[trigger]
            found.contains(v) ==> {
                &&& self.systems.contains_key(v)
                &&& v < cost.len()
                &&& cost[v as int] != u32::MAX
                &&& cost[v as int] <= 3 * (found.len() - 1)
            }
        &&& forall|v: usize|
            v < cost.len() && !(#[trigger] found.contains(v)) ==> cost[v as int] == u32::MAX
        &&& forall|v: usize|
            found.contains(v) && v != start ==> #[trigger] self.came_over(
                ships,
                cost,
                via,
                found,
                v,
            )
    }

    /// Whether system `v` was reached from a found system over a lane that
    /// `ships` can use, at no less than that system's cost and the lane's.
    pub open spec fn came_over(
        self,
        ships: Seq<Ship>,
        cost: Seq<u32>,
        via: Seq<usize>,
        found: Set<usize>,
        v: usize,
    ) -> bool {
        &&& found.contains(via[v as int])
        &&& self.passable(via[v as int], v, ships)
        &&& cost[via[v as int] as int] + self.lane_between(via[v as int], v).cost()
            <= cost[v as int]
    }

    /// What holds of the open set: every entry names a found system and
    /// scores it no lower than its cost and estimate, and once the goal is
    /// found some entry names it.
    pub open spec fn frontier_ok(
        self,
        goal: usize,
        cost: Seq<u32>,
        found: Set<usize>,
        open: Seq<(u32, usize)>,
    ) -> bool {
        &&& forall|i: int|
            0 <= i < open.len() ==> found.contains((#[trigger] open[i]).1) && open[i].0
                >= cost[open[i].1 as int] + self.estimate(open[i].1, goal)
        &&& found.contains(goal) ==> exists|i: int|
            0 <= i < open.len() && (#[trigger] open[i]).1 == goal
    }

    /// Whether every system that `ships` can reach from `u` over one lane
    /// is found, at no more than the cost of `u` and the lane's.
    pub open spec fn relaxed(
        self,
        ships: Seq<Ship>,
        cost: Seq<u32>,
        found: Set<usize>,
        u: usize,
    ) -> bool {
        forall|v: usize| #[trigger]
            self.passable(u, v, ships) ==> found.contains(v) && cost[v as int] <= cost[u as int]
                + self.lane_between(u, v).cost()
    }

    /// Whether the open set holds system `u` with its cost and estimate.
    pub open spec fn pending(
        self,
        goal: usize,
        cost: Seq<u32>,
        open: Seq<(u32, usize)>,
        u: usize,
    ) -> bool {
        exists|i: int|
            0 <= i < open.len() && #[trigger] open[i] == ((cost[u as int] + self.estimate(
                u,
                goal,
            )) as u32, u)
    }

    /// Whether every found system but `skip` waits in the open set with its
    /// cost or has handed its cost on over all its lanes.
    pub open spec fn settled(
        self,
        ships: Seq<Ship>,
        goal: usize,
        cost: Seq<u32>,
        found: Set<usize>,
        open: Seq<(u32, usize)>,
        skip: Option<usize>,
    ) -> bool {
        forall|u: usize| #[trigger]
            found.contains(u) && skip != Some(u) ==> self.pending(goal, cost, open, u)
                || self.relaxed(ships, cost, found, u)
    }
}

/// On a well-formed map one lane at most joins two systems, so a lane of
/// some class between them is the lane between them.
pub proof fn lemma_one_lane_between(galaxy: Galaxy, a: usize, b: usize, lane_type: LaneType)
    requires
        galaxy.well_formed(),
        galaxy.joined_as(a, b, lane_type),
    ensures
        galaxy.joined(a, b),
        galaxy.lane_between(a, b) == lane_type,
        galaxy.lane_between(b, a) == lane_type,
{
    let k = choose|k: int|
        0 <= k < galaxy.lanes.len() && (#[trigger] galaxy.lanes[k]).joins(a, b)
            && galaxy.lanes[k].lane_type == lane_type;
    let ab = choose|j: int| 0 <= j < galaxy.lanes.len() && (#[trigger] galaxy.lanes[j]).joins(a, b);
    assert(galaxy.lanes[k].joins(b, a));
    let ba = choose|j: int| 0 <= j < galaxy.lanes.len() && (#[trigger] galaxy.lanes[j]).joins(b, a);
    if ab < k {
        assert(galaxy.lanes[k].joins(galaxy.lanes[ab].source, galaxy.lanes[ab].destination));
    } else if k < ab {
        assert(galaxy.lanes[ab].joins(galaxy.lanes[k].source, galaxy.lanes[k].destination));
    }
    if ba < k {
        assert(galaxy.lanes[k].joins(galaxy.lanes[ba].source, galaxy.lanes[ba].destination));
    } else if k < ba {
        assert(galaxy.lanes[ba].joins(galaxy.lanes[k].source, galaxy.lanes[k].destination));
    }
}

/// Two systems that a lane joins are joined by a lane of the class of the
/// lane between them.
pub proof fn lemma_joined_as_lane_between(galaxy: Galaxy, a: usize, b: usize)
    requires
        galaxy.joined(a, b),
    ensures
        galaxy.joined_as(a, b, galaxy.lane_between(a, b)),
{
    let k = choose|k: int| 0 <= k < galaxy.lanes.len() && (#[trigger] galaxy.lanes[k]).joins(a, b);
    assert(galaxy.lanes[k].joins(a, b) && galaxy.lanes[k].lane_type == galaxy.lane_between(a, b));
}

/// The estimate is never negative, is zero at the goal, and is at most
/// twice the ring radius.
pub proof fn lemma_estimate_bounds(galaxy: Galaxy, from: usize, goal: usize)
    requires
        galaxy.well_formed(),
        galaxy.systems.contains_key(from),
        galaxy.systems.contains_key(goal),
    ensures
        0 <= galaxy.estimate(from, goal) <= 2 * galaxy.num_rings,
        galaxy.estimate(goal, goal) == 0,
{
    reveal(Galaxy::estimate);
    let a = galaxy.systems[from].coords@;
    let b = galaxy.systems[goal].coords@;
    lemma_distance_triangle(a, HexPoint::origin(), b);
    lemma_distance_symmetric(HexPoint::origin(), b);
    lemma_distance_zero(a, b);
    lemma_distance_zero(b, b);
}

/// Where no lane costs less than the distance it spans, the estimate at
/// one end of a lane is at most the lane's cost and the estimate at its
/// other end.
pub proof fn lemma_estimate_consistent(galaxy: Galaxy, u: usize, v: usize, goal: usize)
    requires
        galaxy.well_formed(),
        galaxy.lanes_span_their_cost(),
        galaxy.joined(u, v),
    ensures
        galaxy.estimate(u, goal) <= galaxy.lane_between(u, v).cost() + galaxy.estimate(v, goal),
{
    reveal(Galaxy::estimate);
    let k = choose|k: int| 0 <= k < galaxy.lanes.len() && (#[trigger] galaxy.lanes[k]).joins(u, v);
    let lane = galaxy.lanes[k];
    let a = galaxy.systems[u].coords@;
    let b = galaxy.systems[v].coords@;
    let c = galaxy.systems[goal].coords@;
    lemma_distance_symmetric(a, b);
    lemma_distance_triangle(a, b, c);
}

/// Where no lane costs less than the distance it spans, the estimate at a
/// system of a route to the goal is at most the cost of the rest of the route.
pub proof fn lemma_estimate_admits(
    galaxy: Galaxy,
    ships: Seq<Ship>,
    goal: usize,
    route: Seq<usize>,
    j: int,
)
    requires
        galaxy.well_formed(),
        galaxy.lanes_span_their_cost(),
        galaxy.is_route(route, ships),
        route.last() == goal,
        0 <= j < route.len(),
    ensures
        galaxy.estimate(route[j], goal) <= galaxy.route_cost(route.skip(j)),
    decreases route.len() - j,
{
    let rest = route.skip(j);
    if j == route.len() - 1 {
        lemma_estimate_bounds(galaxy, goal, goal);
    } else {
        lemma_estimate_admits(galaxy, ships, goal, route, j + 1);
        assert(rest.drop_first() =~= route.skip(j + 1));
        assert(galaxy.leg(route, j, ships));
        lemma_estimate_consistent(galaxy, route[j], route[j + 1], goal);
    }
}

/// When the entry that leaves the open set first names the goal, the
/// goal's cost is at most the cost and estimate of any system that waits
/// in the open set.
pub proof fn lemma_pending_bounds_goal(
    galaxy: Galaxy,
    goal: usize,
    cost: Seq<u32>,
    found: Set<usize>,
    open: Seq<(u32, usize)>,
    least: (u32, usize),
    u: usize,
)
    requires
        galaxy.frontier_ok(goal, cost, found, open),
        galaxy.pending(goal, cost, open, u),
        galaxy.estimate(goal, goal) == 0,
        galaxy.estimate(u, goal) >= 0,
        least.1 == goal,
        open.contains(least),
        forall|i: int| 0 <= i < open.len() ==> leaves_first(least, #[trigger] open[i]),
    ensures
        cost[goal as int] <= cost[u as int] + galaxy.estimate(u, goal),
{
    let i = choose|i: int|
        0 <= i < open.len() && #[trigger] open[i] == ((cost[u as int] + galaxy.estimate(
            u,
            goal,
        )) as u32, u);
    assert(leaves_first(least, open[i]));
    assert(found.contains(open[i].1));
    let at = choose|at: int| 0 <= at < open.len() && open[at] == least;
    assert(found.contains(open[at].1));
    let wanted = cost[u as int] + galaxy.estimate(u, goal);
    assert(open[i].0 >= wanted);
    assert(0 <= wanted <= u32::MAX);
    assert(open[i].0 == wanted);
    assert(least.0 <= open[i].0);
    assert(open[at].0 >= cost[goal as int] + galaxy.estimate(goal, goal));
}

/// When the entry that leaves the open set first names the goal, the
/// goal's cost is at most the cost of any route, provided that no lane
/// costs less than the distance it spans. Stated for the part of a route
/// up to its `j`-th system: that system is found at a cost that, with the
/// rest of the route, stays within the route's cost, or the claim for the
/// goal holds already.
pub proof fn lemma_goal_cost_is_least(
    galaxy: Galaxy,
    ships: Seq<Ship>,
    start: usize,
    goal: usize,
    cost: Seq<u32>,
    via: Seq<usize>,
    found: Set<usize>,
    open: Seq<(u32, usize)>,
    least: (u32, usize),
    route: Seq<usize>,
    j: int,
)
    requires
        galaxy.well_formed(),
        galaxy.lanes_span_their_cost(),
        found.contains(start),
        cost[start as int] == 0,
        galaxy.frontier_ok(goal, cost, found, open),
        galaxy.settled(ships, goal, cost, found, open, None),
        galaxy.systems.contains_key(goal),
        least.1 == goal,
        open.contains(least),
        forall|i: int| 0 <= i < open.len() ==> leaves_first(least, #[trigger] open[i]),
        galaxy.route_from_to(route, start, goal, ships),
        0 <= j < route.len(),
    ensures
        cost[goal as int] <= galaxy.route_cost(route) || (found.contains(route[j])
            && cost[route[j] as int] + galaxy.route_cost(route.skip(j)) <= galaxy.route_cost(
            route,
        )),
    decreases j,
{
    if j == 0 {
        assert(route.skip(0) =~= route);
    } else {
        lemma_goal_cost_is_least(
            galaxy,
            ships,
            start,
            goal,
            cost,
            via,
            found,
            open,
            least,
            route,
            j - 1,
        );
        if !(cost[goal as int] <= galaxy.route_cost(route)) {
            let u = route[j - 1];
            let v = route[j];
            let rest = route.skip(j - 1);
            assert(galaxy.leg(route, j - 1, ships));
            assert(rest.drop_first() =~= route.skip(j));
            assert(rest[0] == u && rest[1] == v);
            assert(galaxy.route_cost(rest) == galaxy.lane_between(u, v).cost() + galaxy.route_cost(
                route.skip(j),
            ));
            assert(found.contains(u));
            if !galaxy.relaxed(ships, cost, found, u) {
                assert(galaxy.pending(goal, cost, open, u));
                lemma_estimate_bounds(galaxy, goal, goal);
                lemma_estimate_bounds(galaxy, u, goal);
                lemma_pending_bounds_goal(galaxy, goal, cost, found, open, least, u);
                lemma_estimate_admits(galaxy, ships, goal, route, j - 1);
            }
        }
    }
}

/// A set of systems that holds the first system of a route, and every
/// system that the fleet can reach over one lane from one of its own,
/// holds the last one too.
pub proof fn lemma_relaxed_set_holds_route(
    galaxy: Galaxy,
    ships: Seq<Ship>,
    cost: Seq<u32>,
    found: Set<usize>,
    route: Seq<usize>,
    j: int,
)
    requires
        galaxy.is_route(route, ships),
        found.contains(route.first()),
        forall|u: usize| #[trigger] found.contains(u) ==> galaxy.relaxed(ships, cost, found, u),
        0 <= j < route.len(),
    ensures
        found.contains(route[j]),
    decreases j,
{
    if j > 0 {
        lemma_relaxed_set_holds_route(galaxy, ships, cost, found, route, j - 1);
        assert(galaxy.leg(route, j - 1, ships));
    }
}

/// The systems that a search has found: those whose cost is below the
/// sentinel.
pub open spec fn found_of(cost: Seq<u32>) -> Set<usize> {
    Set::new(|v: usize| v < cost.len() && cost[v as int] != u32::MAX)
}

/// A sum of scores is never negative.
pub proof fn lemma_total_score_nonnegative(scores: Seq<u32>)
    ensures
        total_score(scores) >= 0,
    decreases scores.len(),
{
    if scores.len() > 0 {
        lemma_total_score_nonnegative(scores.drop_last());
    }
}

/// What a search knows stays true when it finds a cheaper way to system
/// `next`, over a usable lane from the found system `current`.
pub proof fn lemma_cheaper_way_keeps_labels(
    galaxy: Galaxy,
    ships: Seq<Ship>,
    start: usize,
    cost: Seq<u32>,
    via: Seq<usize>,
    current: usize,
    next: usize,
    price: u32,
)
    requires
        galaxy.well_formed(),
        galaxy.labels_ok(ships, start, cost, via, found_of(cost)),
        found_of(cost).contains(current),
        galaxy.systems.contains_key(next),
        galaxy.passable(current, next, ships),
        next < cost.len(),
        price == cost[current as int] + galaxy.lane_between(current, next).cost(),
        price < cost[next as int],
    ensures
        galaxy.labels_ok(
            ships,
            start,
            cost.update(next as int, price),
            via.update(next as int, current),
            found_of(cost.update(next as int, price)),
        ),
        found_of(cost.update(next as int, price)) == found_of(cost).insert(next),
        next != current,
        next != start,
{
    let found = found_of(cost);
    let cost2 = cost.update(next as int, price);
    let via2 = via.update(next as int, current);
    let found2 = found_of(cost2);
    assert(found2 =~= found.insert(next));
    assert(cost[current as int] <= 3 * (found.len() - 1));
    assert forall|v: usize| #[trigger] found2.contains(v) implies {
        &&& galaxy.systems.contains_key(v)
        &&& v < cost2.len()
        &&& cost2[v as int] != u32::MAX
        &&& cost2[v as int] <= 3 * (found2.len() - 1)
    } by {
        if v != next {
            assert(found.contains(v));
        } else if found.contains(next) {
            assert(cost[next as int] <= 3 * (found.len() - 1));
        }
    }
    assert forall|v: usize| found2.contains(v) && v != start implies #[trigger] galaxy.came_over(
        ships,
        cost2,
        via2,
        found2,
        v,
    ) by {
        if v != next {
            assert(found.contains(v));
            assert(galaxy.came_over(ships, cost, via, found, v));
        }
    }
}

/// The open set stays in order when a search finds a cheaper way to
/// system `next` and adds it with its new cost and estimate.
pub proof fn lemma_cheaper_way_keeps_frontier(
    galaxy: Galaxy,
    goal: usize,
    cost: Seq<u32>,
    open: Seq<(u32, usize)>,
    next: usize,
    price: u32,
    score: u32,
)
    requires
        galaxy.frontier_ok(goal, cost, found_of(cost), open),
        next < cost.len(),
        price < cost[next as int],
        score == price + galaxy.estimate(next, goal),
    ensures
        galaxy.frontier_ok(
            goal,
            cost.update(next as int, price),
            found_of(cost.update(next as int, price)),
            open.push((score, next)),
        ),
{
    let found = found_of(cost);
    let cost2 = cost.update(next as int, price);
    let found2 = found_of(cost2);
    let open2 = open.push((score, next));
    assert(found2 =~= found.insert(next));
    assert forall|i: int| 0 <= i < open2.len() implies found2.contains((#[trigger] open2[i]).1)
        && open2[i].0 >= cost2[open2[i].1 as int] + galaxy.estimate(open2[i].1, goal) by {
        if i < open.len() {
            assert(found.contains(open[i].1));
        }
    }
    if found2.contains(goal) {
        if found.contains(goal) {
            let i = choose|i: int| 0 <= i < open.len() && (#[trigger] open[i]).1 == goal;
            assert(open2[i].1 == goal);
        } else {
            assert(open2[open.len() as int].1 == goal);
        }
    }
}

/// Every found system but `skip` still waits in the open set or has handed
/// on its cost when a search finds a cheaper way to system `next` and adds
/// it to the open set.
pub proof fn lemma_cheaper_way_keeps_settled(
    galaxy: Galaxy,
    ships: Seq<Ship>,
    goal: usize,
    cost: Seq<u32>,
    open: Seq<(u32, usize)>,
    skip: usize,
    next: usize,
    price: u32,
    score: u32,
)
    requires
        galaxy.settled(ships, goal, cost, found_of(cost), open, Some(skip)),
        next < cost.len(),
        price < cost[next as int],
        score == price + galaxy.estimate(next, goal),
    ensures
        galaxy.settled(
            ships,
            goal,
            cost.update(next as int, price),
            found_of(cost.update(next as int, price)),
            open.push((score, next)),
            Some(skip),
        ),
{
    let found = found_of(cost);
    let cost2 = cost.update(next as int, price);
    let found2 = found_of(cost2);
    let open2 = open.push((score, next));
    assert(found2 =~= found.insert(next));
    assert forall|u: usize| #[trigger] found2.contains(u) && Some(skip) != Some(u) implies galaxy.pending(
        goal,
        cost2,
        open2,
        u,
    ) || galaxy.relaxed(ships, cost2, found2, u) by {
        if u == next {
            assert(open2[open.len() as int] == ((cost2[u as int] + galaxy.estimate(u, goal)) as u32, u));
        } else {
            assert(found.contains(u));
            if galaxy.pending(goal, cost, open, u) {
                let i = choose|i: int|
                    0 <= i < open.len() && #[trigger] open[i] == ((cost[u as int]
                        + galaxy.estimate(u, goal)) as u32, u);
                assert(open2[i] == ((cost2[u as int] + galaxy.estimate(u, goal)) as u32, u));
            } else {
                assert(galaxy.relaxed(ships, cost, found, u));
                assert forall|v: usize| #[trigger] galaxy.passable(u, v, ships) implies found2.contains(
                    v,
                ) && cost2[v as int] <= cost2[u as int] + galaxy.lane_between(u, v).cost() by {
                    assert(found.contains(v));
                }
            }
        }
    }
}

/// Taking an entry out of the open set leaves every found system but the
/// one it names waiting or done, and the set in order, unless the entry
/// names the goal.
pub proof fn lemma_taking_keeps_order(
    galaxy: Galaxy,
    ships: Seq<Ship>,
    goal: usize,
    cost: Seq<u32>,
    open: Seq<(u32, usize)>,
    at: int,
)
    requires
        galaxy.frontier_ok(goal, cost, found_of(cost), open),
        galaxy.settled(ships, goal, cost, found_of(cost), open, None),
        0 <= at < open.len(),
        open[at].1 != goal,
    ensures
        galaxy.frontier_ok(goal, cost, found_of(cost), open.remove(at)),
        galaxy.settled(ships, goal, cost, found_of(cost), open.remove(at), Some(open[at].1)),
{
    let found = found_of(cost);
    let rest = open.remove(at);
    assert forall|i: int| 0 <= i < rest.len() implies found.contains((#[trigger] rest[i]).1)
        && rest[i].0 >= cost[rest[i].1 as int] + galaxy.estimate(rest[i].1, goal) by {
        if i < at {
            assert(rest[i] == open[i]);
        } else {
            assert(rest[i] == open[i + 1]);
        }
    }
    if found.contains(goal) {
        let i = choose|i: int| 0 <= i < open.len() && (#[trigger] open[i]).1 == goal;
        if i < at {
            assert(rest[i].1 == goal);
        } else {
            assert(rest[i - 1] == open[i]);
            assert(rest[i - 1].1 == goal);
        }
    }
    assert forall|u: usize| #[trigger] found.contains(u) && Some(open[at].1) != Some(u) implies galaxy.pending(
        goal,
        cost,
        rest,
        u,
    ) || galaxy.relaxed(ships, cost, found, u) by {
        if galaxy.pending(goal, cost, open, u) {
            let i = choose|i: int|
                0 <= i < open.len() && #[trigger] open[i] == ((cost[u as int] + galaxy.estimate(
                    u,
                    goal,
                )) as u32, u);
            if i < at {
                assert(rest[i] == open[i]);
            } else {
                assert(rest[i - 1] == open[i]);
            }
        }
    }
}

/// `count` scores, each the largest there is.
fn blank_scores(count: usize) -> (scores: Vec<u32>)
    ensures
        scores.len() == count,
        forall|i: int| 0 <= i < count ==> scores[i] == u32::MAX,
{
    let mut scores: Vec<u32> = Vec::new();
    while scores.len() < count
        invariant
            scores.len() <= count,
            forall|i: int| 0 <= i < scores.len() ==> scores[i] == u32::MAX,
        decreases count - scores.len(),
    {
        scores.push(u32::MAX);
    }
    scores
}

/// `count` identifiers, each zero.
fn blank_ids(count: usize) -> (ids: Vec<usize>)
    ensures
        ids.len() == count,
{
    let mut ids: Vec<usize> = Vec::new();
    while ids.len() < count
        invariant
            ids.len() <= count,
        decreases count - ids.len(),
    {
        ids.push(0);
    }
    ids
}

/// On a map with a system on every hex of its grid and homes on the outer
/// ring only, whose lanes join the hub and every system that is nobody's
/// home to all their neighbours, lanes lead from the hub to the system at
/// every point of the grid.
pub proof fn lemma_saturated_grid_reaches(galaxy: Galaxy, p: HexPoint)
    requires
        galaxy.well_formed(),
        galaxy.full(),
        galaxy.homes_on_rim(),
        galaxy.saturated(),
        p.ring() <= galaxy.num_rings,
    ensures
        galaxy.reaches(galaxy.hub_id, galaxy.id_of(p)),
    decreases p.ring(),
{
    lemma_distance_zero(p, HexPoint::origin());
    lemma_id_in_range(p, galaxy.num_rings as int);
    assert(galaxy.occupied(p));
    if p.ring() == 0 {
        let alone = seq![galaxy.hub_id];
        assert(galaxy.is_walk(alone));
        assert(alone.first() == galaxy.hub_id && alone.last() == galaxy.id_of(p));
    } else {
        let direction = lemma_neighbor_further_in(p);
        let n = p.neighbor(direction);
        let inner = galaxy.id_of(n);
        lemma_saturated_grid_reaches(galaxy, n);
        assert(galaxy.occupied(n));
        lemma_system_at_point(galaxy, n);
        lemma_neighbor_and_back(p, direction);
        assert(galaxy.systems[inner].player is None);
        assert(galaxy.joined_all_round(inner));
        assert(galaxy.occupied(galaxy.systems[inner].coords@.neighbor(opposite(direction))));
        assert(galaxy.joined(inner, galaxy.id_of(p)));
        let walk = choose|walk: Seq<usize>| #[trigger]
            galaxy.is_walk(walk) && walk.first() == galaxy.hub_id && walk.last() == inner;
        lemma_walk_goes_on(galaxy, walk, galaxy.id_of(p));
        assert(galaxy.is_walk(walk.push(galaxy.id_of(p))));
    }
}

/// A galaxy that was laid out in full, with homes on the outer ring only,
/// and whose lanes were generated with success is connected.
pub proof fn lemma_generated_galaxy_is_connected(galaxy: Galaxy)
    requires
        galaxy.well_formed(),
        galaxy.full(),
        galaxy.homes_on_rim(),
        galaxy.saturated(),
    ensures
        galaxy.connected(),
{
    assert forall|id: usize| galaxy.systems.contains_key(id) implies #[trigger] galaxy.reaches(
        galaxy.hub_id,
        id,
    ) by {
        let p = galaxy.systems[id].coords@;
        lemma_id_in_range(p, galaxy.num_rings as int);
        lemma_saturated_grid_reaches(galaxy, p);
    }
}

/// `count` flags, none of them set.
fn blank_flags(count: usize) -> (flags: Vec<bool>)
    ensures
        flags.len() == count,
        forall|i: int| 0 <= i < count ==> !flags[i],
{
    let mut flags: Vec<bool> = Vec::new();
    while flags.len() < count
        invariant
            flags.len() <= count,
            forall|i: int| 0 <= i < flags.len() ==> !flags[i],
        decreases count - flags.len(),
    {
        flags.push(false);
    }
    flags
}

impl StarMap {
    /// One more than the largest identifier that a system of the map can have.
    pub fn id_limit(&self) -> (limit: usize)
        requires
            self.wf(),
        ensures
            limit == id_space(self@.num_rings as int),
            forall|id: usize| self@.systems.contains_key(id) ==> id < limit,
    {
        let rings = self.num_rings();
        proof {
            lemma_rings_fit(rings as int);
            assert forall|id: usize| self@.systems.contains_key(id) implies id < id_space(
                rings as int,
            ) by {
                lemma_id_in_range(self@.systems[id].coords@, rings as int);
            }
        }
        let side: usize = 2 * (rings as usize) + 1;
        side * side
    }

    /// Whether lanes lead from the hub to every system, whatever their class.
    pub fn is_connected(&self) -> (connected: bool)
        requires
            self.wf(),
            self@.systems.contains_key(self@.hub_id),
        ensures
            connected == self@.connected(),
    {
        let limit = self.id_limit();
        let hub = self.hub_id();
        let total = self.system_count();
        let mut visited = blank_flags(limit);
        let mut stack: Vec<usize> = Vec::new();
        visited.set(hub, true);
        stack.push(hub);
        let mut count: usize = 1;
        let ghost mut seen: Set<usize> = Set::empty().insert(hub);
        proof {
            let alone = seq![hub];
            assert(self@.is_walk(alone));
            assert(alone.first() == hub && alone.last() == hub);
            assert(seen.subset_of(self@.systems.dom()));
            lemma_len_subset(seen, self@.systems.dom());
        }
        while stack.len() > 0
            invariant
                self.wf(),
                hub == self@.hub_id,
                total == self@.systems.len(),
                visited.len() == limit,
                forall|id: usize| self@.systems.contains_key(id) ==> id < limit,
                seen.finite(),
                seen.len() == count,
                count <= total,
                seen.contains(hub),
                forall|id: usize| #[trigger] seen.contains(id) ==> self@.systems.contains_key(id),
                forall|id: usize| id < limit ==> (visited[id as int] <==> seen.contains(id)),
                forall|id: usize| seen.contains(id) ==> #[trigger] self@.reaches(hub, id),
                forall|s: int| 0 <= s < stack.len() ==> seen.contains(#[trigger] stack[s]),
                forall|a: usize, b: usize|
                    seen.contains(a) && #[trigger] self@.joined(a, b) ==> stack@.contains(a)
                        || seen.contains(b),
            decreases (total - count) + stack.len(),
        {
            let ghost full = stack@;
            let current = stack.pop().unwrap();
            let neighbors = self.connected_ids(current);
            let ghost budget = (total - count) + stack.len();
            proof {
                assert(seen.contains(full[full.len() - 1]));
                assert forall|a: usize, b: usize|
                    seen.contains(a) && #[trigger] self@.joined(a, b) implies a == current
                    || stack@.contains(a) || seen.contains(b) by {
                    if full.contains(a) && a != current {
                        let s = choose|s: int| 0 <= s < full.len() && full[s] == a;
                        assert(stack@[s] == a);
                    }
                }
            }
            let mut j: usize = 0;
            while j < neighbors.len()
                invariant
                    self.wf(),
                    hub == self@.hub_id,
                    total == self@.systems.len(),
                    visited.len() == limit,
                    forall|id: usize| self@.systems.contains_key(id) ==> id < limit,
                    seen.finite(),
                    seen.len() == count,
                    count <= total,
                    seen.contains(hub),
                    seen.contains(current),
                    forall|id: usize|
                        #[trigger] seen.contains(id) ==> self@.systems.contains_key(id),
                    forall|id: usize| id < limit ==> (visited[id as int] <==> seen.contains(id)),
                    forall|id: usize| seen.contains(id) ==> #[trigger] self@.reaches(hub, id),
                    forall|s: int| 0 <= s < stack.len() ==> seen.contains(#[trigger] stack[s]),
                    forall|a: usize, b: usize|
                        seen.contains(a) && #[trigger] self@.joined(a, b) ==> a == current
                            || stack@.contains(a) || seen.contains(b),
                    forall|i: int|
                        0 <= i < neighbors.len() ==> self@.joined(current, #[trigger] neighbors[i])
                            && self@.systems.contains_key(neighbors[i]),
                    forall|other: usize| self@.joined(current, other) ==> neighbors@.contains(other),
                    j <= neighbors.len(),
                    forall|i: int| 0 <= i < j ==> seen.contains(#[trigger] neighbors[i]),
                    (total - count) + stack.len() == budget,
                decreases neighbors.len() - j,
            {
                let next = neighbors[j];
                if !visited[next] {
                    let ghost before = stack@;
                    visited.set(next, true);
                    stack.push(next);
                    proof {
                        assert(self@.reaches(hub, current));
                        let walk = choose|walk: Seq<usize>| #[trigger]
                            self@.is_walk(walk) && walk.first() == hub && walk.last() == current;
                        lemma_walk_goes_on(self@, walk, next);
                        assert(self@.reaches(hub, next));
                        seen = seen.insert(next);
                        assert(seen.subset_of(self@.systems.dom()));
                        lemma_len_subset(seen, self@.systems.dom());
                        assert forall|a: usize, b: usize|
                            seen.contains(a) && #[trigger] self@.joined(a, b) implies a == current
                            || stack@.contains(a) || seen.contains(b) by {
                            if a == next {
                                assert(stack@[before.len() as int] == next);
                            } else if before.contains(a) {
                                let s = choose|s: int| 0 <= s < before.len() && before[s] == a;
                                assert(stack@[s] == a);
                            }
                        }
                    }
                    count += 1;
                }
                j += 1;
            }
            proof {
                assert forall|a: usize, b: usize|
                    seen.contains(a) && #[trigger] self@.joined(a, b) implies stack@.contains(a)
                    || seen.contains(b) by {
                    if a == current {
                        assert(neighbors@.contains(b));
                        let i = choose|i: int| 0 <= i < neighbors@.len() && neighbors@[i] == b;
                        assert(seen.contains(neighbors[i]));
                    }
                }
            }
        }
        proof {
            assert(self@.closed_under_lanes(seen)) by {
                assert forall|a: usize, b: usize|
                    seen.contains(a) && #[trigger] self@.joined(a, b) implies seen.contains(b) by {
                    assert(!stack@.contains(a));
                }
            }
            assert(seen.subset_of(self@.systems.dom()));
            if count == total {
                lemma_subset_equality(seen, self@.systems.dom());
                assert forall|id: usize| self@.systems.contains_key(id) implies #[trigger] self@.reaches(
                    hub,
                    id,
                ) by {
                    assert(seen.contains(id));
                }
            } else {
                if self@.connected() {
                    assert forall|id: usize| self@.systems.dom().contains(id) implies seen.contains(
                        id,
                    ) by {
                        assert(self@.reaches(hub, id));
                        let walk = choose|walk: Seq<usize>| #[trigger]
                            self@.is_walk(walk) && walk.first() == hub && walk.last() == id;
                        lemma_closed_set_holds_walk(self@, seen, walk);
                    }
                    assert(self@.systems.dom().subset_of(seen));
                    lemma_len_subset(self@.systems.dom(), seen);
                    assert(false);
                }
            }
        }
        count == total
    }

    /// The search's estimate of the cost from system `from` to system `goal`.
    fn estimate_to(&self, from: usize, goal: usize) -> (estimate: u32)
        requires
            self.wf(),
            self@.systems.contains_key(from),
            self@.systems.contains_key(goal),
        ensures
            estimate == self@.estimate(from, goal),
            estimate <= 2 * self@.num_rings,
    {
        let here = self.system(from).unwrap().coords;
        let there = self.system(goal).unwrap().coords;
        proof {
            lemma_estimate_bounds(self@, from, goal);
            lemma_rings_fit(self@.num_rings as int);
            reveal(Galaxy::estimate);
        }
        here.distance(&there)
    }

    /// The systems from `start` to `goal`, found by following from the
    /// goal the record of where each system was reached from.
    fn trace_back(
        &self,
        fleet: &Fleet,
        start: usize,
        goal: usize,
        g_score: &Vec<u32>,
        came_from: &Vec<usize>,
    ) -> (path: Vec<System>)
        requires
            self.wf(),
            self@.labels_ok(fleet@, start, g_score@, came_from@, found_of(g_score@)),
            found_of(g_score@).contains(goal),
        ensures
            self@.route_from_to(ids_of(path@), start, goal, fleet@),
            forall|i: int|
                0 <= i < path.len() ==> (#[trigger] path[i]) == self@.systems[path[i].id],
            self@.route_cost(ids_of(path@)) <= g_score[goal as int],
    {
        let ghost found = found_of(g_score@);
        let mut backwards: Vec<System> = Vec::new();
        let mut at = goal;
        backwards.push(self.system(at).unwrap());
        let ghost mut route: Seq<usize> = seq![goal];
        proof {
            assert(self@.is_route(route, fleet@));
        }
        while at != start
            invariant
                self.wf(),
                found == found_of(g_score@),
                self@.labels_ok(fleet@, start, g_score@, came_from@, found),
                found.contains(goal),
                found.contains(at),
                self@.is_route(route, fleet@),
                route.first() == at,
                route.last() == goal,
                backwards.len() == route.len(),
                forall|i: int|
                    0 <= i < backwards.len() ==> (#[trigger] backwards[i]) == self@.systems[route[route.len()
                        - 1 - i]],
                g_score[at as int] + self@.route_cost(route) <= g_score[goal as int],
            decreases g_score[at as int],
        {
            proof {
                assert(self@.came_over(fleet@, g_score@, came_from@, found, at));
            }
            let prev = came_from[at];
            let ghost shorter = route;
            proof {
                route = seq![prev] + shorter;
                assert(route.drop_first() =~= shorter);
                assert forall|i: int| 0 <= i < route.len() - 1 implies #[trigger] self@.leg(
                    route,
                    i,
                    fleet@,
                ) by {
                    if i > 0 {
                        assert(self@.leg(shorter, i - 1, fleet@));
                    }
                }
            }
            backwards.push(self.system(prev).unwrap());
            at = prev;
        }
        let mut path: Vec<System> = Vec::new();
        let mut i: usize = backwards.len();
        while i > 0
            invariant
                self.wf(),
                self@.is_route(route, fleet@),
                backwards.len() == route.len(),
                forall|k: int|
                    0 <= k < backwards.len() ==> (#[trigger] backwards[k]) == self@.systems[route[route.len()
                        - 1 - k]],
                i <= backwards.len(),
                path.len() == backwards.len() - i,
                forall|k: int| 0 <= k < path.len() ==> (#[trigger] path[k]) == self@.systems[route[k]],
            decreases i,
        {
            i -= 1;
            path.push(backwards[i]);
        }
        proof {
            assert(ids_of(path@) =~= route);
        }
        path
    }

    /// Hands the cost of system `current` on over every lane at it that
    /// the fleet can use: a system that is cheaper to reach this way gets
    /// the new cost, is recorded as reached from `current`, and enters the
    /// open set.
    fn relax(
        &self,
        fleet: &Fleet,
        start: usize,
        goal: usize,
        current: usize,
        g_score: &mut Vec<u32>,
        came_from: &mut Vec<usize>,
        open_set: &mut OpenSet,
    )
        requires
            self.wf(),
            self@.systems.contains_key(goal),
            3 * self@.systems.len() + 2 * self@.num_rings < u32::MAX,
            found_of(old(g_score)@).contains(current),
            self@.labels_ok(fleet@, start, old(g_score)@, old(came_from)@, found_of(old(g_score)@)),
            self@.frontier_ok(goal, old(g_score)@, found_of(old(g_score)@), old(open_set)@),
            self@.settled(
                fleet@,
                goal,
                old(g_score)@,
                found_of(old(g_score)@),
                old(open_set)@,
                Some(current),
            ),
        ensures
            self@.labels_ok(
                fleet@,
                start,
                final(g_score)@,
                final(came_from)@,
                found_of(final(g_score)@),
            ),
            self@.frontier_ok(goal, final(g_score)@, found_of(final(g_score)@), final(open_set)@),
            self@.settled(
                fleet@,
                goal,
                final(g_score)@,
                found_of(final(g_score)@),
                final(open_set)@,
                None,
            ),
            total_score(final(g_score)@) + final(open_set)@.len() <= total_score(old(g_score)@)
                + old(open_set)@.len(),
    {
        let ways = self.lanes_from(current);
        let base = g_score[current];
        let ghost galaxy = self@;
        let ghost ships = fleet@;
        let mut j: usize = 0;
        while j < ways.len()
            invariant
                self.wf(),
                galaxy == self@,
                ships == fleet@,
                galaxy.systems.contains_key(goal),
                3 * galaxy.systems.len() + 2 * galaxy.num_rings < u32::MAX,
                found_of(g_score@).contains(current),
                base == g_score[current as int],
                galaxy.labels_ok(ships, start, g_score@, came_from@, found_of(g_score@)),
                galaxy.frontier_ok(goal, g_score@, found_of(g_score@), open_set@),
                galaxy.settled(ships, goal, g_score@, found_of(g_score@), open_set@, Some(current)),
                total_score(g_score@) + open_set@.len() <= total_score(old(g_score)@) + old(
                    open_set,
                )@.len(),
                forall|i: int|
                    0 <= i < ways.len() ==> galaxy.joined_as(
                        current,
                        (#[trigger] ways[i]).0,
                        ways[i].1,
                    ) && galaxy.systems.contains_key(ways[i].0),
                forall|other: usize, lane_type: LaneType|
                    galaxy.joined_as(current, other, lane_type) ==> ways@.contains(
                        (other, lane_type),
                    ),
                j <= ways.len(),
                forall|i: int|
                    0 <= i < j && fleet_traverses(ships, (#[trigger] ways[i]).1) ==> found_of(
                        g_score@,
                    ).contains(ways[i].0) && g_score[ways[i].0 as int] <= base + ways[i].1.cost(),
            decreases ways.len() - j,
        {
            let (next, lane_type) = ways[j];
            let ghost cost = g_score@;
            let ghost via = came_from@;
            let ghost open = open_set@;
            let ghost found = found_of(cost);
            proof {
                assert(galaxy.joined_as(current, ways[j as int].0, ways[j as int].1));
                lemma_one_lane_between(galaxy, current, next, lane_type);
                lemma_id_in_range(galaxy.systems[next].coords@, galaxy.num_rings as int);
                assert(found.subset_of(galaxy.systems.dom()));
                lemma_len_subset(found, galaxy.systems.dom());
                assert(cost[current as int] <= 3 * (found.len() - 1));
            }
            if fleet.can_traverse(lane_type) {
                let tentative = base + lane_type.weight();
                if tentative < g_score[next] {
                    let score = tentative + self.estimate_to(next, goal);
                    came_from.set(next, current);
                    g_score.set(next, tentative);
                    open_set.push(score, next);
                    proof {
                        lemma_cheaper_way_keeps_labels(
                            galaxy,
                            ships,
                            start,
                            cost,
                            via,
                            current,
                            next,
                            tentative,
                        );
                        lemma_cheaper_way_keeps_frontier(
                            galaxy,
                            goal,
                            cost,
                            open,
                            next,
                            tentative,
                            score,
                        );
                        lemma_cheaper_way_keeps_settled(
                            galaxy,
                            ships,
                            goal,
                            cost,
                            open,
                            current,
                            next,
                            tentative,
                            score,
                        );
                        lemma_total_score_update(cost, next as int, tentative);
                        assert forall|i: int|
                            0 <= i < j + 1 && fleet_traverses(
                                ships,
                                (#[trigger] ways[i]).1,
                            ) implies found_of(g_score@).contains(ways[i].0)
                            && g_score[ways[i].0 as int] <= base + ways[i].1.cost() by {
                            if i < j {
                                assert(found.contains(ways[i].0));
                            }
                        }
                    }
                }
            }
            j += 1;
        }
        proof {
            let cost = g_score@;
            let found = found_of(cost);
            assert(galaxy.relaxed(ships, cost, found, current)) by {
                assert forall|v: usize| #[trigger] galaxy.passable(current, v, ships) implies found.contains(
                    v,
                ) && cost[v as int] <= cost[current as int] + galaxy.lane_between(
                    current,
                    v,
                ).cost() by {
                    lemma_joined_as_lane_between(galaxy, current, v);
                    let lane_type = galaxy.lane_between(current, v);
                    assert(ways@.contains((v, lane_type)));
                    let i = choose|i: int| 0 <= i < ways@.len() && ways@[i] == (v, lane_type);
                    assert(fleet_traverses(ships, ways[i].1));
                }
            }
            assert forall|u: usize| #[trigger] found.contains(u) && None::<usize> != Some(
                u,
            ) implies galaxy.pending(goal, cost, open_set@, u) || galaxy.relaxed(
                ships,
                cost,
                found,
                u,
            ) by {
                if u != current {
                    assert(found.contains(u) && Some(current) != Some(u));
                }
            }
        }
    }

    /// The cheapest route from `start` to `goal` that `fleet` can take, as
    /// the systems along it, or `None` where the fleet cannot get there.
    ///
    /// The search expands systems in the order of their cost so far plus
    /// the distance of their hex from the goal's, the lower identifier
    /// first among equals. The route is the cheapest there is on every map
    /// whose lanes cost no less than the distance they span, as all lanes
    /// between neighbours do; on other maps it is still a route for the fleet.
    pub fn astar(&self, start: &System, goal: &System, fleet: &Fleet) -> (path: Option<Vec<System>>)
        requires
            self.wf(),
            self@.systems.contains_key(start.id),
            self@.systems.contains_key(goal.id),
            3 * self@.systems.len() + 2 * self@.num_rings < u32::MAX,
        ensures
            path is Some == self@.fleet_reaches(start.id, goal.id, fleet@),
            path is Some ==> self@.route_from_to(ids_of(path->0@), start.id, goal.id, fleet@),
            path is Some ==> forall|i: int|
                0 <= i < path->0.len() ==> (#[trigger] path->0[i]) == self@.systems[path->0[i].id],
            path is Some && self@.lanes_span_their_cost() ==> forall|other: Seq<usize>| #[trigger]
                self@.route_from_to(other, start.id, goal.id, fleet@) ==> self@.route_cost(
                    ids_of(path->0@),
                ) <= self@.route_cost(other),
    {
        let limit = self.id_limit();
        let start_id = start.id;
        let goal_id = goal.id;
        let ghost galaxy = self@;
        let ghost ships = fleet@;
        let mut g_score = blank_scores(limit);
        let mut came_from = blank_ids(limit);
        let mut open_set = OpenSet::new();
        g_score.set(start_id, 0);
        let first = self.estimate_to(start_id, goal_id);
        open_set.push(first, start_id);
        proof {
            let cost = g_score@;
            let found = found_of(cost);
            assert(found =~= Set::<usize>::empty().insert(start_id));
            assert(open_set@[0] == (first, start_id));
            assert(galaxy.pending(goal_id, cost, open_set@, start_id));
        }
        while open_set.len() > 0
            invariant
                self.wf(),
                galaxy == self@,
                ships == fleet@,
                start_id == start.id,
                goal_id == goal.id,
                galaxy.systems.contains_key(start_id),
                galaxy.systems.contains_key(goal_id),
                3 * galaxy.systems.len() + 2 * galaxy.num_rings < u32::MAX,
                galaxy.labels_ok(ships, start_id, g_score@, came_from@, found_of(g_score@)),
                galaxy.frontier_ok(goal_id, g_score@, found_of(g_score@), open_set@),
                galaxy.settled(ships, goal_id, g_score@, found_of(g_score@), open_set@, None),
            decreases total_score(g_score@) + open_set@.len(),
        {
            let ghost open = open_set@;
            let ghost cost = g_score@;
            let ghost found = found_of(cost);
            let least = open_set.pop_least().unwrap();
            let current = least.1;
            let ghost at = choose|at: int|
                0 <= at < open.len() && #[trigger] open[at] == least && open_set@ == open.remove(at);
            proof {
                assert(found.contains(open[at].1));
                lemma_total_score_nonnegative(cost);
            }
            if current == goal_id {
                let path = self.trace_back(fleet, start_id, goal_id, &g_score, &came_from);
                proof {
                    assert(galaxy.route_from_to(ids_of(path@), start_id, goal_id, ships));
                    if galaxy.lanes_span_their_cost() {
                        assert forall|other: Seq<usize>| #[trigger]
                            galaxy.route_from_to(
                                other,
                                start_id,
                                goal_id,
                                ships,
                            ) implies galaxy.route_cost(ids_of(path@)) <= galaxy.route_cost(
                            other,
                        ) by {
                            lemma_goal_cost_is_least(
                                galaxy,
                                ships,
                                start_id,
                                goal_id,
                                cost,
                                came_from@,
                                found,
                                open,
                                least,
                                other,
                                other.len() - 1,
                            );
                            assert(other.skip(other.len() - 1).len() == 1);
                        }
                    }
                }
                return Some(path);
            }
            proof {
                lemma_taking_keeps_order(galaxy, ships, goal_id, cost, open, at);
                assert(open_set@.len() == open.len() - 1);
            }
            self.relax(
                fleet,
                start_id,
                goal_id,
                current,
                &mut g_score,
                &mut came_from,
                &mut open_set,
            );
            proof {
                lemma_total_score_nonnegative(g_score@);
                assert(total_score(g_score@) + open_set@.len() < total_score(cost) + open.len());
            }
        }
        proof {
            let cost = g_score@;
            let found = found_of(cost);
            if galaxy.fleet_reaches(start_id, goal_id, ships) {
                let route = choose|route: Seq<usize>| #[trigger]
                    galaxy.route_from_to(route, start_id, goal_id, ships);
                assert forall|u: usize| #[trigger] found.contains(u) implies galaxy.relaxed(
                    ships,
                    cost,
                    found,
                    u,
                ) by {
                    assert(found.contains(u) && None::<usize> != Some(u));
                    assert(!galaxy.pending(goal_id, cost, open_set@, u));
                }
                lemma_relaxed_set_holds_route(galaxy, ships, cost, found, route, route.len() - 1);
                assert(false);
            }
        }
        None
    }
}

} // verus!
