//! The weighted engine: an undirected graph of roads, and the bridge
//! between the node identifiers that callers choose and the dense indices
//! under which the graph stores its nodes.
//!
//! The first identifier seen gets index 0, the next new one index 1, and so
//! on. An identifier keeps its index for good. Every road is kept, in the
//! order in which it was added: roads between the same two nodes stand side
//! by side, none replaces another. A road runs in both directions.
//!
//! The nodes and roads live in an undirected `petgraph` graph. Distances
//! are stored there as the 32-bit pattern of the number, which this module
//! never interprets.

use std::collections::HashMap;
use petgraph::graph::{EdgeIndex, NodeIndex, UnGraph};
use petgraph::graph::Graph as PetGraph;
use vstd::prelude::*;

verus! {

broadcast use vstd::std_specs::hash::group_hash_axioms;

/// How to read the weighted graph's source file again.
#[derive(Debug)]
pub struct Config {
    /// The byte that separates the fields of a record.
    pub delimiter: u8,
    /// Where the records are kept.
    pub data_path: String,
}

/// One record of the source file: a road between two nodes.
#[derive(Debug, Clone, Copy, PartialEq, Eq, Structural)]
pub struct Road {
    /// The identifier of one end.
    pub source: usize,
    /// The identifier of the other end.
    pub target: usize,
    /// The bit pattern of the distance.
    pub distance_bits: u32,
}

/// `petgraph`'s graph type: nodes and edges in two vectors, each node and
/// edge known by its position. Nothing is known of a value but what the
/// functions below say.
#[verifier::external_type_specification]
#[verifier::external_body]
#[verifier::reject_recursive_types(N)]
#[verifier::reject_recursive_types(E)]
#[verifier::reject_recursive_types(Ty)]
#[verifier::reject_recursive_types(Ix)]
pub struct ExPetGraph<N, E, Ty, Ix>(PetGraph<N, E, Ty, Ix>);

/// `petgraph::Undirected`, the marker of graphs whose edges run both ways.
#[verifier::external_type_specification]
#[verifier::external_body]
pub struct ExUndirected(petgraph::Undirected);

/// The most nodes, and the most edges, that the graph can index.
pub const GRAPH_LIMIT: usize = 0xffff_ffff;

/// The weights of the graph's nodes, each at its node index.
pub uninterp spec fn graph_nodes(g: UnGraph<usize, u32>) -> Seq<usize>;

/// The graph's edges in the order in which they were added: the node
/// indices of the two ends, and the weight.
pub uninterp spec fn graph_edges(g: UnGraph<usize, u32>) -> Seq<(usize, usize, u32)>;

/// Calls `Graph::new_undirected`, which makes a graph without nodes or
/// edges.
#[verifier::external_body]
fn graph_new() -> (g: UnGraph<usize, u32>)
    ensures
        graph_nodes(g) == Seq::<usize>::empty(),
        graph_edges(g) == Seq::<(usize, usize, u32)>::empty(),
{
    UnGraph::new_undirected()
}

/// Calls `Graph::node_count`, the length of the node vector.
#[verifier::external_body]
fn graph_node_count(g: &UnGraph<usize, u32>) -> (count: usize)
    ensures
        count == graph_nodes(*g).len(),
{
    g.node_count()
}

/// Calls `Graph::edge_count`, the length of the edge vector.
#[verifier::external_body]
fn graph_edge_count(g: &UnGraph<usize, u32>) -> (count: usize)
    ensures
        count == graph_edges(*g).len(),
{
    g.edge_count()
}

/// Calls `Graph::add_node`, which appends a node with the given weight and
/// returns its index, the number of nodes before the call. It panics when
/// the index would be the largest 32-bit number, which `requires` excludes.
#[verifier::external_body]
fn graph_add_node(g: &mut UnGraph<usize, u32>, id: usize) -> (index: usize)
    requires
        graph_nodes(*old(g)).len() < GRAPH_LIMIT,
    ensures
        graph_nodes(*final(g)) == graph_nodes(*old(g)).push(id),
        graph_edges(*final(g)) == graph_edges(*old(g)),
        index == graph_nodes(*old(g)).len(),
{
    g.add_node(id).index()
}

/// Calls `Graph::add_edge`, which appends an edge between two nodes and
/// keeps the edges that are there, parallel ones too. It panics when an end
/// is no node of the graph or the edge's index would be the largest 32-bit
/// number, which `requires` excludes.
#[verifier::external_body]
fn graph_add_edge(g: &mut UnGraph<usize, u32>, a: usize, b: usize, weight: u32)
    requires
        a < graph_nodes(*old(g)).len(),
        b < graph_nodes(*old(g)).len(),
        graph_edges(*old(g)).len() < GRAPH_LIMIT,
    ensures
        graph_nodes(*final(g)) == graph_nodes(*old(g)),
        graph_edges(*final(g)) == graph_edges(*old(g)).push((a, b, weight)),
{
    g.add_edge(NodeIndex::new(a), NodeIndex::new(b), weight);
}

/// Calls `Graph::node_weight`, which gives the weight of the node at an
/// index that is in use.
#[verifier::external_body]
fn graph_node_weight(g: &UnGraph<usize, u32>, index: usize) -> (id: Option<usize>)
    requires
        index < graph_nodes(*g).len(),
    ensures
        id == Some(graph_nodes(*g)[index as int]),
{
    g.node_weight(NodeIndex::new(index)).copied()
}

/// Calls `Graph::edge_endpoints`, which gives the node indices of the two
/// ends of the edge at an index that is in use, as they were given when
/// the edge was added.
#[verifier::external_body]
fn graph_edge_endpoints(g: &UnGraph<usize, u32>, n: usize) -> (ends: Option<(usize, usize)>)
    requires
        n < graph_edges(*g).len(),
    ensures
        ends == Some((graph_edges(*g)[n as int].0, graph_edges(*g)[n as int].1)),
{
    g.edge_endpoints(EdgeIndex::new(n)).map(|(a, b)| (a.index(), b.index()))
}

/// Calls `Graph::edge_weight`, which gives the weight of the edge at an
/// index that is in use.
#[verifier::external_body]
fn graph_edge_weight(g: &UnGraph<usize, u32>, n: usize) -> (weight: Option<u32>)
    requires
        n < graph_edges(*g).len(),
    ensures
        weight == Some(graph_edges(*g)[n as int].2),
{
    g.edge_weight(EdgeIndex::new(n)).copied()
}

/// `ids` with `id` appended unless it is there already.
pub open spec fn with_id(ids: Seq<usize>, id: usize) -> Seq<usize> {
    if ids.contains(id) {
        ids
    } else {
        ids.push(id)
    }
}

/// The identifiers after the records were added one by one to a network
/// that held `ids`.
pub open spec fn ids_with(ids: Seq<usize>, records: Seq<Road>) -> Seq<usize>
    decreases records.len(),
{
    if records.len() == 0 {
        ids
    } else {
        let last = records[records.len() - 1];
        with_id(with_id(ids_with(ids, records.drop_last()), last.source), last.target)
    }
}

/// The roads after the records were added one by one to a network that
/// held `ids` and `roads`: each record adds one road, between the indices
/// that its ends have by then.
pub open spec fn roads_with(
    ids: Seq<usize>,
    roads: Seq<(usize, usize, u32)>,
    records: Seq<Road>,
) -> Seq<(usize, usize, u32)>
    decreases records.len(),
{
    if records.len() == 0 {
        roads
    } else {
        let last = records[records.len() - 1];
        let now = ids_with(ids, records);
        roads_with(ids, roads, records.drop_last()).push(
            (now.index_of(last.source) as usize, now.index_of(last.target) as usize, last.distance_bits),
        )
    }
}

/// No identifier occurs twice.
pub open spec fn distinct(ids: Seq<usize>) -> bool {
    forall|i: int, j: int| 0 <= i < ids.len() && 0 <= j < ids.len() && ids[i] == ids[j] ==> i == j
}

/// The lookup table is the inverse of `ids`, and every road runs between
/// two indices that are in use.
pub open spec fn table_matches(
    ids: Seq<usize>,
    roads: Seq<(usize, usize, u32)>,
    table: Map<usize, usize>,
) -> bool {
    &&& forall|r: int|
        0 <= r < roads.len() ==> (#[trigger] roads[r]).0 < ids.len() && roads[r].1 < ids.len()
    &&& forall|i: int| 0 <= i < ids.len() ==> table.contains_key(#[trigger] ids[i]) && table[ids[i]] == i
    &&& forall|k: usize| #[trigger]
        table.contains_key(k) ==> table[k] < ids.len() && ids[table[k] as int] == k
}

/// Looks up the node of `id`, adding one if there is none.
fn resolve(graph: &mut UnGraph<usize, u32>, index_map: &mut HashMap<usize, usize>, id: usize) -> (index:
    usize)
    requires
        table_matches(graph_nodes(*old(graph)), graph_edges(*old(graph)), old(index_map)@),
        with_id(graph_nodes(*old(graph)), id).len() <= GRAPH_LIMIT,
    ensures
        table_matches(graph_nodes(*final(graph)), graph_edges(*final(graph)), final(index_map)@),
        graph_nodes(*final(graph)) == with_id(graph_nodes(*old(graph)), id),
        graph_edges(*final(graph)) == graph_edges(*old(graph)),
        index < graph_nodes(*final(graph)).len(),
        graph_nodes(*final(graph))[index as int] == id,
{
    let ghost before = graph_nodes(*graph);
    match index_map.get(&id) {
        Some(i) => {
            let found: usize = *i;
            assert(before.contains(id)) by {
                assert(before[found as int] == id);
            }
            found
        },
        None => {
            assert(!before.contains(id)) by {
                if before.contains(id) {
                    let i = choose|i: int| 0 <= i < before.len() && before[i] == id;
                    assert(index_map@.contains_key(before[i]));
                }
            }
            let fresh: usize = graph_add_node(graph, id);
            index_map.insert(id, fresh);
            proof {
                let now = graph_nodes(*graph);
                assert(now == before.push(id));
                assert forall|i: int| 0 <= i < now.len() implies index_map@.contains_key(
                    #[trigger] now[i],
                ) && index_map@[now[i]] == i by {
                    if i < before.len() {
                        assert(now[i] == before[i]);
                        assert(old(index_map)@.contains_key(before[i]));
                    }
                }
                assert forall|k: usize| #[trigger] index_map@.contains_key(k) implies index_map@[k]
                    < now.len() && now[index_map@[k] as int] == k by {
                    if k != id {
                        assert(old(index_map)@.contains_key(k));
                    }
                }
            }
            fresh
        },
    }
}

/// A road network: the graph, and the table from identifiers to the
/// indices of its nodes.
pub struct RoadNetwork {
    graph: UnGraph<usize, u32>,
    index_map: HashMap<usize, usize>,
}

impl RoadNetwork {
    /// The identifiers seen so far, each at its dense index.
    pub closed spec fn ids(&self) -> Seq<usize> {
        graph_nodes(self.graph)
    }

    /// The roads added so far, each as the dense indices of its two ends
    /// and the bit pattern of its distance.
    pub closed spec fn roads(&self) -> Seq<(usize, usize, u32)> {
        graph_edges(self.graph)
    }

    /// Holds of every network: the table and the graph agree.
    #[verifier::type_invariant]
    closed spec fn wf(self) -> bool {
        table_matches(graph_nodes(self.graph), graph_edges(self.graph), self.index_map@)
    }

    /// An empty network.
    pub fn new() -> (network: RoadNetwork)
        ensures
            network.ids() == Seq::<usize>::empty(),
            network.roads() == Seq::<(usize, usize, u32)>::empty(),
    {
        RoadNetwork { graph: graph_new(), index_map: HashMap::new() }
    }

    /// The graph: its node weights are the identifiers, its edge weights
    /// the bit patterns of the distances.
    pub fn graph(&self) -> (g: &UnGraph<usize, u32>)
        ensures
            graph_nodes(*g) == self.ids(),
            graph_edges(*g) == self.roads(),
    {
        &self.graph
    }

    /// The identifier that was given the dense index `index`.
    pub fn external_id(&self, index: usize) -> (id: Option<usize>)
        ensures
            id == if index < self.ids().len() {
                Some(self.ids()[index as int])
            } else {
                None
            },
    {
        if index < graph_node_count(&self.graph) {
            graph_node_weight(&self.graph, index)
        } else {
            None
        }
    }

    /// The road that was added as number `n`, counting from 0. Its ends
    /// are indices in use.
    pub fn road(&self, n: usize) -> (link: Option<(usize, usize, u32)>)
        ensures
            link == if n < self.roads().len() {
                Some(self.roads()[n as int])
            } else {
                None
            },
            link matches Some(l) ==> l.0 < self.ids().len() && l.1 < self.ids().len(),
    {
        proof {
            use_type_invariant(&*self);
        }
        if n < graph_edge_count(&self.graph) {
            match (graph_edge_endpoints(&self.graph, n), graph_edge_weight(&self.graph, n)) {
                (Some(ends), Some(weight)) => Some((ends.0, ends.1, weight)),
                _ => None,
            }
        } else {
            None
        }
    }

    /// How many identifiers have an index. No identifier has two.
    pub fn node_count(&self) -> (count: usize)
        ensures
            count == self.ids().len(),
            distinct(self.ids()),
    {
        proof {
            use_type_invariant(&*self);
        }
        graph_node_count(&self.graph)
    }

    /// How many roads were added.
    pub fn road_count(&self) -> (count: usize)
        ensures
            count == self.roads().len(),
    {
        graph_edge_count(&self.graph)
    }

    /// The dense index of `id`, or `None` if `id` was never seen.
    pub fn index_of(&self, id: usize) -> (index: Option<usize>)
        ensures
            match index {
                Some(i) => i < self.ids().len() && self.ids()[i as int] == id,
                None => !self.ids().contains(id),
            },
            distinct(self.ids()),
    {
        proof {
            use_type_invariant(&*self);
        }
        match self.index_map.get(&id) {
            Some(i) => Some(*i),
            None => {
                assert(!self.ids().contains(id)) by {
                    if self.ids().contains(id) {
                        let i = choose|i: int| 0 <= i < self.ids().len() && self.ids()[i] == id;
                        assert(self.index_map@.contains_key(self.ids()[i]));
                    }
                }
                None
            },
        }
    }

    /// There is room for the road: for one more edge, and for a node for
    /// each of its ends that has none yet.
    pub open spec fn has_room(&self, road: Road) -> bool {
        &&& with_id(with_id(self.ids(), road.source), road.target).len() <= GRAPH_LIMIT
        &&& self.roads().len() < GRAPH_LIMIT
    }

    /// Adds a road. Each end gets its dense index: an end seen before keeps
    /// its index, a new one gets the next free index, the source before the
    /// target. The road is appended to the roads, whatever roads are there
    /// already. Returns the indices of the source and the target.
    pub fn add_road(&mut self, road: Road) -> (ends: (usize, usize))
        requires
            old(self).has_room(road),
        ensures
            final(self).ids() == with_id(with_id(old(self).ids(), road.source), road.target),
            old(self).ids().is_prefix_of(final(self).ids()),
            distinct(final(self).ids()),
            ends.0 < final(self).ids().len() && final(self).ids()[ends.0 as int] == road.source,
            ends.1 < final(self).ids().len() && final(self).ids()[ends.1 as int] == road.target,
            final(self).roads() == old(self).roads().push((ends.0, ends.1, road.distance_bits)),
    {
        proof {
            use_type_invariant(&*self);
        }
        let mut taken = RoadNetwork::new();
        std::mem::swap(self, &mut taken);
        let mut graph = taken.graph;
        let mut index_map = taken.index_map;
        let ghost before = graph_nodes(graph);
        let source_index = resolve(&mut graph, &mut index_map, road.source);
        let target_index = resolve(&mut graph, &mut index_map, road.target);
        graph_add_edge(&mut graph, source_index, target_index, road.distance_bits);
        proof {
            let now = graph_nodes(graph);
            let roads = graph_edges(graph);
            assert forall|r: int| 0 <= r < roads.len() implies (#[trigger] roads[r]).0 < now.len()
                && roads[r].1 < now.len() by {}
        }
        *self = RoadNetwork { graph, index_map };
        (source_index, target_index)
    }

    /// Adds a road if there is room for it, and says whether it did. A
    /// network without room stays as it is.
    pub fn try_add_road(&mut self, road: Road) -> (ends: Option<(usize, usize)>)
        ensures
            distinct(final(self).ids()),
            ends is Some <==> old(self).has_room(road),
            ends is None ==> final(self).ids() == old(self).ids() && final(self).roads() == old(
                self,
            ).roads(),
            ends matches Some(e) ==> {
                &&& final(self).ids() == with_id(with_id(old(self).ids(), road.source), road.target)
                &&& e.0 < final(self).ids().len() && final(self).ids()[e.0 as int] == road.source
                &&& e.1 < final(self).ids().len() && final(self).ids()[e.1 as int] == road.target
                &&& final(self).roads() == old(self).roads().push((e.0, e.1, road.distance_bits))
            },
    {
        proof {
            use_type_invariant(&*self);
        }
        let source_new: usize = if self.index_of(road.source).is_some() {
            0
        } else {
            1
        };
        let target_new: usize = if road.target == road.source || self.index_of(road.target).is_some() {
            0
        } else {
            1
        };
        proof {
            let ids = self.ids();
            let first = with_id(ids, road.source);
            if !ids.contains(road.source) {
                assert(first[ids.len() as int] == road.source);
                assert(first.contains(road.source));
                assert forall|i: int| 0 <= i < first.len() && first[i] == road.target implies ids.contains(
                    road.target,
                ) || road.target == road.source by {
                    if i < ids.len() {
                        assert(ids[i] == road.target);
                    }
                }
                if ids.contains(road.target) {
                    let i = choose|i: int| 0 <= i < ids.len() && ids[i] == road.target;
                    assert(first[i] == road.target);
                }
            }
            assert(first.contains(road.target) <==> ids.contains(road.target) || road.target
                == road.source);
            assert(with_id(first, road.target).len() == ids.len() + source_new + target_new);
        }
        if self.node_count() <= GRAPH_LIMIT - source_new - target_new && self.road_count()
            < GRAPH_LIMIT {
            Some(self.add_road(road))
        } else {
            None
        }
    }

    /// Adds the records one by one, in their order, as long as there is
    /// room. Returns how many were added: all of them, unless the network
    /// had no room for the record of that number.
    pub fn load_roads(&mut self, records: &Vec<Road>) -> (loaded: usize)
        ensures
            loaded <= records@.len(),
            final(self).ids() == ids_with(old(self).ids(), records@.take(loaded as int)),
            final(self).roads() == roads_with(
                old(self).ids(),
                old(self).roads(),
                records@.take(loaded as int),
            ),
            loaded < records@.len() ==> !final(self).has_room(records@[loaded as int]),
    {
        let mut i: usize = 0;
        assert(records@.take(0) =~= Seq::<Road>::empty());
        while i < records.len()
            invariant
                i <= records@.len(),
                self.ids() == ids_with(old(self).ids(), records@.take(i as int)),
                self.roads() == roads_with(old(self).ids(), old(self).roads(), records@.take(i as int)),
            decreases records@.len() - i,
        {
            let ghost before = records@.take(i as int);
            let ghost next = records@.take(i + 1);
            let record = records[i];
            match self.try_add_road(record) {
                Some(ends) => {
                    proof {
                        assert(next.drop_last() =~= before);
                        assert(next[next.len() - 1] == record);
                        let now = self.ids();
                        assert(now == ids_with(old(self).ids(), next));
                        let a = now.index_of(record.source);
                        let b = now.index_of(record.target);
                        assert(now[ends.0 as int] == record.source);
                        assert(now[ends.1 as int] == record.target);
                        assert(0 <= a < now.len() && now[a] == record.source);
                        assert(0 <= b < now.len() && now[b] == record.target);
                    }
                },
                None => {
                    return i;
                },
            }
            i += 1;
        }
        assert(records@.take(i as int) =~= records@);
        i
    }

    /// The dense indices between which a distance is asked for, or `None`
    /// if either identifier was never seen: then there is no distance.
    pub fn endpoints(&self, start: usize, end: usize) -> (ends: Option<(usize, usize)>)
        ensures
            ends is Some <==> self.ids().contains(start) && self.ids().contains(end),
            ends matches Some(e) ==> e.0 < self.ids().len() && self.ids()[e.0 as int] == start
                && e.1 < self.ids().len() && self.ids()[e.1 as int] == end,
    {
        match self.index_of(start) {
            Some(s) => match self.index_of(end) {
                Some(e) => Some((s, e)),
                None => None,
            },
            None => None,
        }
    }
}

} // verus!
