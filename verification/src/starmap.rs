//! The galaxy map: systems, the lanes between them, and the graph that
//! holds both.

use vstd::prelude::*;
use std::collections::HashMap;
use petgraph::graph::Graph;
use petgraph::Undirected;
use crate::graph::{
    edge_joins, edge_other_end, edge_touches, edges_join, edges_join_as, graph_add_edge,
    graph_add_node, graph_contains_edge, graph_edges, graph_edges_at, graph_neighbors, graph_new,
    graph_node_count, lists_edges, lists_neighbors,
};
use crate::hex::{disk_size, id_space, lemma_id_injective, Hex, HexPoint};
use crate::lane::{JumpLane, LaneType};
use crate::system::System;

verus! {

broadcast use vstd::std_specs::hash::group_hash_axioms;

/// What a [`StarMap`] stands for: its systems by identifier, its lanes in the
/// order in which they were made, and the numbers it was set up with.
pub struct Galaxy {
    pub systems: Map<usize, System>,
    pub lanes: Seq<JumpLane>,
    pub player_count: nat,
    pub num_rings: nat,
    pub hub_id: usize,
}

impl Galaxy {
    /// Whether some lane joins systems `a` and `b`.
    pub open spec fn joined(self, a: usize, b: usize) -> bool {
        exists|k: int| 0 <= k < self.lanes.len() && (#[trigger] self.lanes[k]).joins(a, b)
    }

    /// Whether a lane of class `lane_type` joins systems `a` and `b`.
    pub open spec fn joined_as(self, a: usize, b: usize, lane_type: LaneType) -> bool {
        exists|k: int|
            0 <= k < self.lanes.len() && (#[trigger] self.lanes[k]).joins(a, b)
                && self.lanes[k].lane_type == lane_type
    }

    /// The identifier that point `p` has in the map's grid.
    pub open spec fn id_of(self, p: HexPoint) -> usize {
        p.id(self.num_rings as int) as usize
    }

    /// The occupied neighbours of `p`, among its first `upto`, that no lane
    /// joins to `p` yet: their identifiers, in the order of the directions.
    pub open spec fn open_neighbors(self, p: HexPoint, upto: int) -> Seq<usize>
        decreases upto,
    {
        if upto <= 0 {
            Seq::empty()
        } else {
            let before = self.open_neighbors(p, upto - 1);
            let n = p.neighbor(upto - 1);
            if self.occupied(n) && !self.joined(self.id_of(p), self.id_of(n)) {
                before.push(self.id_of(n))
            } else {
                before
            }
        }
    }

    /// Whether this map is `old` with lanes added behind those of `old`,
    /// and nothing else changed.
    pub open spec fn extends(self, old: Galaxy) -> bool {
        &&& self == (Galaxy { lanes: self.lanes, ..old })
        &&& old.lanes.len() <= self.lanes.len()
        &&& forall|k: int| 0 <= k < old.lanes.len() ==> #[trigger] self.lanes[k] == old.lanes[k]
    }

    /// Whether lane `k` joins two systems that lie side by side.
    pub open spec fn lane_is_short(self, k: int) -> bool {
        self.systems[self.lanes[k].source].coords@.distance(
            self.systems[self.lanes[k].destination].coords@,
        ) == 1
    }

    /// Whether the map holds a system at point `p` of its grid.
    pub open spec fn occupied(self, p: HexPoint) -> bool {
        p.ring() <= self.num_rings && self.systems.contains_key(self.id_of(p))
    }

    /// The system at point `p`, where the map holds one.
    pub open spec fn at(self, p: HexPoint) -> System {
        self.systems[self.id_of(p)]
    }

    /// Whether the map holds a system at every point of its grid.
    pub open spec fn full(self) -> bool {
        forall|p: HexPoint| p.ring() <= self.num_rings ==> #[trigger] self.occupied(p)
    }

    /// What holds of every map: the ring radius is the player count and its
    /// identifiers fit the machine; every system lies in the grid under the
    /// identifier of its hex; every lane joins two systems of the map; and no
    /// two lanes join the same pair.
    pub open spec fn well_formed(self) -> bool {
        &&& self.num_rings == self.player_count
        &&& id_space(self.num_rings as int) <= usize::MAX
        &&& self.hub_id == HexPoint::origin().id(self.num_rings as int)
        &&& self.systems.dom().finite()
        &&& forall|id: usize|
            #![trigger self.systems.contains_key(id)]
            #![trigger self.systems[id]]
            self.systems.contains_key(id) ==> self.systems[id].id == id && self.systems[id].placed(
                self.num_rings as int,
            )
        &&& forall|k: int|
            0 <= k < self.lanes.len() ==> self.systems.contains_key(
                (#[trigger] self.lanes[k]).source,
            ) && self.systems.contains_key(self.lanes[k].destination)
        &&& forall|j: int, k: int|
            0 <= j < k < self.lanes.len() ==> !(#[trigger] self.lanes[k]).joins(
                (#[trigger] self.lanes[j]).source,
                self.lanes[j].destination,
            )
    }
}

/// Whether a galaxy for `players` players fits the machine: its lanes, at
/// most eighteen to a system and six more, can be numbered in 32 bits, which
/// also leaves room for its systems, its identifiers and the cost of any route.
pub open spec fn galaxy_fits(players: int) -> bool {
    0 <= players && 18 * disk_size(players) + 6 <= u32::MAX
}

/// What a galaxy that fits the machine has room for.
pub proof fn lemma_galaxy_fits(players: int)
    requires
        galaxy_fits(players),
    ensures
        players <= 8917,
        id_space(players) <= u32::MAX,
        disk_size(players) <= u32::MAX,
        3 * disk_size(players) + 2 * players < u32::MAX,
{
    assert(players <= 8917) by (nonlinear_arith)
        requires
            0 <= players,
            18 * (3 * players * players + 3 * players + 1) + 6 <= 0xFFFF_FFFF,
    ;
    assert(id_space(players) <= 4 * (3 * players * players + 3 * players + 1)) by (nonlinear_arith)
        requires
            0 <= players,
            id_space(players) == (2 * players + 1) * (2 * players + 1),
    ;
    assert(2 * players <= 3 * players * players + 3 * players + 1) by (nonlinear_arith)
        requires
            0 <= players,
    ;
}

/// A galaxy: star systems on a hex grid and the jump lanes between them.
#[derive(Debug)]
pub struct StarMap {
    pub systems: HashMap<usize, System>,
    pub lanes: Vec<JumpLane>,
    pub graph: Graph<(), LaneType, Undirected>,
    system_id_to_node: HashMap<usize, usize>,
    node_to_system_id: Vec<usize>,
    player_count: usize,
    num_rings: u32,
    hub_id: usize,
}

impl View for StarMap {
    type V = Galaxy;

    closed spec fn view(&self) -> Galaxy {
        Galaxy {
            systems: self.systems@,
            lanes: self.lanes@,
            player_count: self.player_count as nat,
            num_rings: self.num_rings as nat,
            hub_id: self.hub_id,
        }
    }
}

impl StarMap {
    /// The number of the graph node that stands for system `id`: systems are
    /// numbered in the order in which they were added.
    pub closed spec fn node_of(&self, id: usize) -> usize {
        self.system_id_to_node@[id]
    }

    /// The graph and the two indexes agree with the systems and lanes.
    pub closed spec fn inv(&self) -> bool {
        &&& self.node_to_system_id@.len() == graph_node_count(self.graph)
        &&& self.node_to_system_id@.len() == self.systems@.len()
        &&& self.node_to_system_id@.len() <= u32::MAX
        &&& self.system_id_to_node@.dom() =~= self.systems@.dom()
        &&& forall|id: usize| #[trigger]
            self.systems@.contains_key(id) ==> self.system_id_to_node@[id]
                < self.node_to_system_id@.len()
                && self.node_to_system_id@[self.system_id_to_node@[id] as int] == id
        &&& forall|p: int|
            0 <= p < self.node_to_system_id@.len() ==> self.systems@.contains_key(
                #[trigger] self.node_to_system_id@[p],
            ) && self.system_id_to_node@[self.node_to_system_id@[p]] == p
        &&& graph_edges(self.graph).len() == self.lanes@.len()
        &&& self.lanes@.len() <= u32::MAX
        &&& forall|k: int|
            0 <= k < self.lanes@.len() ==> (#[trigger] graph_edges(self.graph)[k]) == (
                self.system_id_to_node@[self.lanes@[k].source],
                self.system_id_to_node@[self.lanes@[k].destination],
                self.lanes@[k].lane_type,
            )
    }

    /// A map in a state that its operations accept and leave behind.
    pub open spec fn wf(&self) -> bool {
        self@.well_formed() && self.inv()
    }

    /// Whether a galaxy for `player_count` players fits the machine.
    pub fn fits(player_count: usize) -> (fits: bool)
        ensures
            fits == galaxy_fits(player_count as int),
    {
        if player_count > 8917 {
            proof {
                if galaxy_fits(player_count as int) {
                    lemma_galaxy_fits(player_count as int);
                }
            }
            return false;
        }
        let players: u64 = player_count as u64;
        assert(players * players <= 8917 * 8917) by (nonlinear_arith)
            requires
                0 <= players <= 8917,
        ;
        let square: u64 = players * players;
        let size: u64 = 3 * square + 3 * players + 1;
        assert(size == disk_size(player_count as int)) by (nonlinear_arith)
            requires
                size == 3 * square + 3 * players + 1,
                square == players * players,
                players == player_count,
                disk_size(player_count as int) == 3 * player_count * player_count + 3
                    * player_count + 1,
        ;
        18 * size + 6 <= 0xFFFF_FFFF
    }

    /// An empty map for `player_count` players, with as many rings.
    pub fn new(player_count: usize) -> (map: StarMap)
        requires
            id_space(player_count as int) <= usize::MAX,
        ensures
            map.wf(),
            map@.systems == Map::<usize, System>::empty(),
            map@.lanes == Seq::<JumpLane>::empty(),
            map@.player_count == player_count,
            map@.num_rings == player_count,
    {
        assert(player_count <= u32::MAX) by (nonlinear_arith)
            requires
                (2 * player_count + 1) * (2 * player_count + 1) <= usize::MAX,
                usize::MAX <= u64::MAX,
        ;
        let num_rings = player_count as u32;
        let hub_id = Hex::new(0, 0).to_id(num_rings);
        StarMap {
            systems: HashMap::new(),
            lanes: Vec::new(),
            graph: graph_new(),
            system_id_to_node: HashMap::new(),
            node_to_system_id: Vec::new(),
            player_count,
            num_rings,
            hub_id,
        }
    }

    pub fn player_count(&self) -> (count: usize)
        ensures
            count == self@.player_count,
    {
        self.player_count
    }

    pub fn num_rings(&self) -> (rings: u32)
        ensures
            rings == self@.num_rings,
    {
        self.num_rings
    }

    pub fn hub_id(&self) -> (id: usize)
        ensures
            id == self@.hub_id,
    {
        self.hub_id
    }

    /// Adds a system of this map's grid that the map does not hold yet.
    pub fn add_system(&mut self, system: System)
        requires
            old(self).wf(),
            system.placed(old(self)@.num_rings as int),
            !old(self)@.systems.contains_key(system.id),
            old(self)@.systems.len() < u32::MAX,
        ensures
            final(self).wf(),
            final(self)@ == (Galaxy {
                systems: old(self)@.systems.insert(system.id, system),
                ..old(self)@
            }),
            final(self).node_of(system.id) == old(self)@.systems.len(),
            forall|id: usize|
                old(self)@.systems.contains_key(id) ==> final(self).node_of(id) == old(
                    self,
                ).node_of(id),
    {
        let system_id = system.id;
        self.systems.insert(system_id, system);
        let node = graph_add_node(&mut self.graph);
        self.system_id_to_node.insert(system_id, node);
        self.node_to_system_id.push(system_id);
        proof {
            assert(self.system_id_to_node@.dom() =~= self.systems@.dom());
            assert forall|p: int| 0 <= p < self.node_to_system_id@.len() implies self.systems@.contains_key(
                #[trigger] self.node_to_system_id@[p],
            ) && self.system_id_to_node@[self.node_to_system_id@[p]] == p by {
                if p < old(self).node_to_system_id@.len() {
                    assert(old(self).systems@.contains_key(old(self).node_to_system_id@[p]));
                }
            }
        }
    }

    /// The system that graph node `node_index` stands for.
    pub fn get_system_id_by_node_index(&self, node_index: usize) -> (id: usize)
        requires
            self.wf(),
            node_index < self@.systems.len(),
        ensures
            self@.systems.contains_key(id),
            self.node_of(id) == node_index,
    {
        self.node_to_system_id[node_index]
    }

    /// Under the invariant, the graph joins two nodes exactly when a lane
    /// joins the systems they stand for.
    proof fn lemma_graph_mirrors_lanes(&self, a: usize, b: usize)
        requires
            self.wf(),
            self@.systems.contains_key(a),
            self@.systems.contains_key(b),
        ensures
            edges_join(graph_edges(self.graph), self.node_of(a), self.node_of(b)) == self@.joined(
                a,
                b,
            ),
            forall|lane_type: LaneType|
                edges_join_as(graph_edges(self.graph), self.node_of(a), self.node_of(b), lane_type)
                    == self@.joined_as(a, b, lane_type),
    {
        let edges = graph_edges(self.graph);
        let (na, nb) = (self.node_of(a), self.node_of(b));
        assert forall|k: int| 0 <= k < edges.len() implies edge_joins(#[trigger] edges[k], na, nb)
            == self.lanes@[k].joins(a, b) by {
            let lane = self.lanes@[k];
            assert(self@.lanes[k] == lane);
            assert(self.systems@.contains_key(lane.source));
            assert(self.systems@.contains_key(lane.destination));
        }
        if self@.joined(a, b) {
            let k = choose|k: int| 0 <= k < self.lanes@.len() && (#[trigger] self.lanes@[k]).joins(a, b);
            assert(edge_joins(edges[k], na, nb));
        }
        assert forall|lane_type: LaneType|
            edges_join_as(edges, na, nb, lane_type) == self@.joined_as(a, b, lane_type) by {
            if self@.joined_as(a, b, lane_type) {
                let k = choose|k: int|
                    0 <= k < self.lanes@.len() && (#[trigger] self.lanes@[k]).joins(a, b)
                        && self.lanes@[k].lane_type == lane_type;
                assert(edge_joins(edges[k], na, nb));
            }
            if edges_join_as(edges, na, nb, lane_type) {
                let k = choose|k: int|
                    0 <= k < edges.len() && edge_joins(#[trigger] edges[k], na, nb) && edges[k].2
                        == lane_type;
                assert(self.lanes@[k].joins(a, b));
            }
        }
    }

    /// The number of systems of the map.
    pub fn system_count(&self) -> (count: usize)
        ensures
            count == self@.systems.len(),
    {
        self.systems.len()
    }

    /// The system with identifier `id`, if the map holds one.
    pub fn system(&self, id: usize) -> (found: Option<System>)
        ensures
            found == (if self@.systems.contains_key(id) {
                Some(self@.systems[id])
            } else {
                None
            }),
    {
        match self.systems.get(&id) {
            Some(system) => Some(*system),
            None => None,
        }
    }

    /// The system at `hex`, if the map holds one there.
    pub fn system_at(&self, hex: &Hex) -> (found: Option<System>)
        requires
            self.wf(),
        ensures
            found == (if self@.occupied(hex@) {
                Some(self@.at(hex@))
            } else {
                None
            }),
            found is Some ==> found->0.coords == *hex,
    {
        if !hex.in_grid(self.num_rings) {
            return None;
        }
        let id = hex.to_id(self.num_rings);
        let found = self.system(id);
        proof {
            if found is Some {
                lemma_id_injective(found->0.coords@, hex@, self.num_rings as int);
            }
        }
        found
    }

    /// Makes system `id` the home of `player`, or of nobody.
    pub(crate) fn set_player(&mut self, id: usize, player: Option<usize>)
        requires
            old(self).wf(),
            old(self)@.systems.contains_key(id),
        ensures
            final(self).wf(),
            final(self)@ == (Galaxy {
                systems: old(self)@.systems.insert(
                    id,
                    System { player, ..old(self)@.systems[id] },
                ),
                ..old(self)@
            }),
            forall|other: usize| final(self).node_of(other) == old(self).node_of(other),
    {
        let system = *self.systems.get(&id).unwrap();
        self.systems.insert(id, System { player, ..system });
        proof {
            assert(self.systems@.dom() =~= old(self).systems@.dom());
        }
    }

    /// Under the invariant, an edge ends at the node of a system exactly when
    /// its lane ends at the system, and then leads to the node of the lane's
    /// other end.
    proof fn lemma_edge_mirrors_lane(&self, k: int, id: usize)
        requires
            self.wf(),
            self@.systems.contains_key(id),
            0 <= k < self@.lanes.len(),
        ensures
            edge_touches(graph_edges(self.graph)[k], self.node_of(id)) == self@.lanes[k].touches(
                id,
            ),
            self@.lanes[k].touches(id) ==> edge_other_end(
                graph_edges(self.graph)[k],
                self.node_of(id),
            ) == self.node_of(self@.lanes[k].other_end(id)),
            graph_edges(self.graph)[k].2 == self@.lanes[k].lane_type,
            self.node_of(self@.lanes[k].source) < self@.systems.len(),
            self.node_of(self@.lanes[k].destination) < self@.systems.len(),
    {
        let lane = self.lanes@[k];
        assert(self@.lanes[k] == lane);
        assert(self.systems@.contains_key(lane.source));
        assert(self.systems@.contains_key(lane.destination));
    }

    /// The systems that a lane joins to system `id`.
    pub fn connected_ids(&self, id: usize) -> (ids: Vec<usize>)
        requires
            self.wf(),
            self@.systems.contains_key(id),
        ensures
            forall|i: int|
                0 <= i < ids.len() ==> self@.joined(id, #[trigger] ids[i])
                    && self@.systems.contains_key(ids[i]),
            forall|other: usize| self@.joined(id, other) ==> ids@.contains(other),
    {
        let node = *self.system_id_to_node.get(&id).unwrap();
        let around = graph_neighbors(&self.graph, node);
        let ghost edges = graph_edges(self.graph);
        let mut ids: Vec<usize> = Vec::new();
        let mut i: usize = 0;
        while i < around.len()
            invariant
                self.wf(),
                self@.systems.contains_key(id),
                node == self.node_of(id),
                edges == graph_edges(self.graph),
                lists_neighbors(edges, node, around@),
                i <= around.len(),
                ids.len() == i,
                forall|j: int|
                    0 <= j < i ==> around[j] < self.node_to_system_id@.len() && #[trigger] ids[j]
                        == self.node_to_system_id@[around[j] as int],
                forall|j: int|
                    0 <= j < i ==> self@.joined(id, #[trigger] ids[j])
                        && self@.systems.contains_key(ids[j]),
            decreases around.len() - i,
        {
            proof {
                assert(edges_join(edges, node, around[i as int]));
                let k = choose|k: int|
                    0 <= k < edges.len() && edge_joins(#[trigger] edges[k], node, around[i as int]);
                self.lemma_edge_mirrors_lane(k, id);
                let lane = self@.lanes[k];
                assert(lane.joins(id, lane.other_end(id)));
            }
            ids.push(self.node_to_system_id[around[i]]);
            i += 1;
        }
        proof {
            assert forall|other: usize| self@.joined(id, other) implies ids@.contains(other) by {
                let k = choose|k: int|
                    0 <= k < self@.lanes.len() && (#[trigger] self@.lanes[k]).joins(id, other);
                self.lemma_edge_mirrors_lane(k, id);
                let far = edge_other_end(edges[k], node);
                assert(edge_touches(edges[k], node));
                assert(around@.contains(far));
                let j = choose|j: int| 0 <= j < around@.len() && around@[j] == far;
                assert(ids[j] == other);
            }
        }
        ids
    }

    /// The lanes at system `id`: for each, the system at its other end and
    /// its class.
    pub fn lanes_from(&self, id: usize) -> (ways: Vec<(usize, LaneType)>)
        requires
            self.wf(),
            self@.systems.contains_key(id),
        ensures
            forall|i: int|
                0 <= i < ways.len() ==> self@.joined_as(id, (#[trigger] ways[i]).0, ways[i].1)
                    && self@.systems.contains_key(ways[i].0),
            forall|other: usize, lane_type: LaneType|
                self@.joined_as(id, other, lane_type) ==> ways@.contains((other, lane_type)),
    {
        let node = *self.system_id_to_node.get(&id).unwrap();
        let around = graph_edges_at(&self.graph, node);
        let ghost edges = graph_edges(self.graph);
        let mut ways: Vec<(usize, LaneType)> = Vec::new();
        let mut i: usize = 0;
        while i < around.len()
            invariant
                self.wf(),
                self@.systems.contains_key(id),
                node == self.node_of(id),
                edges == graph_edges(self.graph),
                lists_edges(edges, node, around@),
                i <= around.len(),
                ways.len() == i,
                forall|j: int|
                    0 <= j < i ==> around[j].0 < self.node_to_system_id@.len() && #[trigger] ways[j]
                        == (self.node_to_system_id@[around[j].0 as int], around[j].1),
                forall|j: int|
                    0 <= j < i ==> self@.joined_as(id, (#[trigger] ways[j]).0, ways[j].1)
                        && self@.systems.contains_key(ways[j].0),
            decreases around.len() - i,
        {
            proof {
                assert(edges_join_as(edges, node, around[i as int].0, around[i as int].1));
                let k = choose|k: int|
                    0 <= k < edges.len() && edge_joins(
                        #[trigger] edges[k],
                        node,
                        around[i as int].0,
                    ) && edges[k].2 == around[i as int].1;
                self.lemma_edge_mirrors_lane(k, id);
                let lane = self@.lanes[k];
                assert(lane.joins(id, lane.other_end(id)));
            }
            let (far, lane_type) = around[i];
            ways.push((self.node_to_system_id[far], lane_type));
            i += 1;
        }
        proof {
            assert forall|other: usize, lane_type: LaneType|
                self@.joined_as(id, other, lane_type) implies ways@.contains(
                (other, lane_type),
            ) by {
                let k = choose|k: int|
                    0 <= k < self@.lanes.len() && (#[trigger] self@.lanes[k]).joins(id, other)
                        && self@.lanes[k].lane_type == lane_type;
                self.lemma_edge_mirrors_lane(k, id);
                let far = edge_other_end(edges[k], node);
                assert(edge_touches(edges[k], node));
                assert(around@.contains((far, edges[k].2)));
                let j = choose|j: int| 0 <= j < around@.len() && around@[j] == (far, edges[k].2);
                assert(ways[j] == (other, lane_type));
            }
        }
        ways
    }

    /// Whether a lane joins systems `a` and `b`.
    pub fn has_lane(&self, a: usize, b: usize) -> (found: bool)
        requires
            self.wf(),
            self@.systems.contains_key(a),
            self@.systems.contains_key(b),
        ensures
            found == self@.joined(a, b),
    {
        let node_a = *self.system_id_to_node.get(&a).unwrap();
        let node_b = *self.system_id_to_node.get(&b).unwrap();
        proof {
            self.lemma_graph_mirrors_lanes(a, b);
        }
        graph_contains_edge(&self.graph, node_a, node_b)
    }

    /// Joins two systems by a lane of class `lane_type`, unless a lane joins
    /// them already.
    pub fn add_lane(&mut self, source: usize, destination: usize, lane_type: LaneType)
        requires
            old(self).wf(),
            old(self)@.systems.contains_key(source),
            old(self)@.systems.contains_key(destination),
            old(self)@.lanes.len() < u32::MAX,
        ensures
            final(self).wf(),
            old(self)@.joined(source, destination) ==> final(self)@ == old(self)@,
            !old(self)@.joined(source, destination) ==> final(self)@ == (Galaxy {
                lanes: old(self)@.lanes.push(JumpLane { source, destination, lane_type }),
                ..old(self)@
            }),
            forall|id: usize| final(self).node_of(id) == old(self).node_of(id),
    {
        let source_node = *self.system_id_to_node.get(&source).unwrap();
        let dest_node = *self.system_id_to_node.get(&destination).unwrap();
        proof {
            self.lemma_graph_mirrors_lanes(source, destination);
        }
        if !graph_contains_edge(&self.graph, source_node, dest_node) {
            graph_add_edge(&mut self.graph, source_node, dest_node, lane_type);
            self.lanes.push(JumpLane { source, destination, lane_type });
            proof {
                let added = self.lanes@.len() - 1;
                assert forall|j: int, k: int| 0 <= j < k < self@.lanes.len() implies !(
                #[trigger] self@.lanes[k]).joins(
                    (#[trigger] self@.lanes[j]).source,
                    self@.lanes[j].destination,
                ) by {
                    if k == added {
                        assert(old(self)@.lanes[j] == self@.lanes[j]);
                        if self@.lanes[k].joins(self@.lanes[j].source, self@.lanes[j].destination) {
                            assert(old(self)@.lanes[j].joins(source, destination));
                        }
                    } else {
                        assert(old(self)@.lanes[j] == self@.lanes[j]);
                        assert(old(self)@.lanes[k] == self@.lanes[k]);
                    }
                }
                assert forall|k: int| 0 <= k < self@.lanes.len() implies self@.systems.contains_key(
                    (#[trigger] self@.lanes[k]).source,
                ) && self@.systems.contains_key(self@.lanes[k].destination) by {
                    if k < added {
                        assert(old(self)@.lanes[k] == self@.lanes[k]);
                    }
                }
            }
        }
    }
}

} // verus!
