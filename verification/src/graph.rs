//! The unweighted engine: a directed adjacency map with breadth-first and
//! depth-first path queries.

use std::collections::HashMap;
use vstd::prelude::*;
use vstd::string::StringSliceAdditionalSpecFns;

use crate::walk::{has_edge, connects, reachable, preferred};
use crate::depth_first::{Outcome, frontier, dfs_start, push_new, dfs_from, dfs_outcome};
use crate::edge_list::{GraphError, edge_list_value, parse_edge_list};
use crate::snapshot::{SnapshotError, snapshot_value, read_snapshot, write_snapshot};
use crate::search::{tree_ok, expanded, prefix_closed, levels_sorted, ranked, listed_before,
    lemma_walk_not_shorter, lemma_walk_discovered, lemma_discovery_ranked, construct_path};

verus! {

broadcast use vstd::std_specs::hash::group_hash_axioms;

/// What an adjacency table says: each key with the sequence of its
/// successors, in the order in which they are stored.
pub open spec fn adjacency_of(table: Map<u32, Vec<u32>>) -> Map<u32, Seq<u32>> {
    Map::new(|k: u32| table.contains_key(k), |k: u32| table[k]@)
}

/// A directed graph. A node without an entry has no successors.
#[derive(Debug)]
pub struct Graph {
    adjacency_list: HashMap<u32, Vec<u32>>,
}

impl Graph {
    /// The adjacency map: node to ordered successors.
    pub closed spec fn view(&self) -> Map<u32, Seq<u32>> {
        adjacency_of(self.adjacency_list@)
    }

    /// Builds the graph that an edge list spells: all of it, or an error
    /// and no graph where a node id is malformed.
    pub fn new(contents: &str) -> (result: Result<Graph, GraphError>)
        ensures
            match edge_list_value(contents.spec_bytes()) {
                Some(adj) => result matches Ok(graph) && graph@ == adj,
                None => result matches Err(e) && e == GraphError::InvalidNodeId,
            },
    {
        match parse_edge_list(contents.as_bytes()) {
            Ok(adjacency_list) => Ok(Graph { adjacency_list }),
            Err(e) => Err(e),
        }
    }

    /// The graph as a JSON document: every graph has one. Reading the
    /// document back gives the same adjacency map.
    pub fn export_snapshot(&self) -> (result: Result<String, SnapshotError>)
        ensures
            result is Ok,
            result matches Ok(text) ==> snapshot_value(text@) == Some(self@),
    {
        write_snapshot(&self.adjacency_list)
    }

    /// Replaces the graph by the one in a JSON document. A document that
    /// cannot be read leaves the graph as it was.
    pub fn import_snapshot(&mut self, text: &str) -> (result: Result<(), SnapshotError>)
        ensures
            match snapshot_value(text@) {
                Some(adj) => result is Ok && final(self)@ == adj,
                None => result == Err::<(), SnapshotError>(SnapshotError::Malformed) && final(self)@ == old(
                    self,
                )@,
            },
    {
        match read_snapshot(text) {
            Ok(table) => {
                self.adjacency_list = table;
                Ok(())
            },
            Err(e) => Err(e),
        }
    }

    /// Read access to the whole adjacency table.
    pub fn get_adjacency_list(&self) -> (table: &HashMap<u32, Vec<u32>>)
        ensures
            adjacency_of(table@) == self@,
    {
        &self.adjacency_list
    }

    /// Replaces the adjacency table wholesale.
    pub fn set_adjacency_list(&mut self, adjacency_list: HashMap<u32, Vec<u32>>)
        ensures
            final(self)@ == adjacency_of(adjacency_list@),
    {
        self.adjacency_list = adjacency_list;
    }

    /// A shortest path from `start` to `goal`, both ends included, or `None`
    /// where no walk leads from one to the other.
    ///
    /// Nodes are expanded in the order of their discovery and the search
    /// stops when `goal` is taken from the frontier, so no walk between the
    /// two nodes is shorter than the path returned. Among the shortest
    /// walks it is the one that, wherever it parts from another, goes on to
    /// the successor that is listed first.
    pub fn bfs_shortest_path(&self, start: u32, goal: u32) -> (result: Option<Vec<u32>>)
        ensures
            result is Some <==> reachable(self@, start, goal),
            result matches Some(p) ==> connects(self@, p@, start, goal) && p@.no_duplicates()
                && forall|w: Seq<u32>| connects(self@, w, start, goal) ==> p@.len() <= w.len(),
            result matches Some(p) ==> forall|w: Seq<u32>|
                connects(self@, w, start, goal) && w.len() == p@.len() ==> preferred(self@, p@, w),
            start == goal ==> (result matches Some(p) && p@ == seq![start]),
    {
        let ghost adj = self@;
        let mut order: Vec<u32> = Vec::new();
        let mut par: Vec<usize> = Vec::new();
        let mut pos: HashMap<u32, usize> = HashMap::new();
        let ghost mut level: Seq<nat> = seq![0nat];
        let ghost mut paths: Seq<Seq<u32>> = seq![seq![start]];
        order.push(start);
        par.push(0);
        pos.insert(start, 0);
        let mut head: usize = 0;
        proof {
            assert forall|i: int, w: Seq<u32>|
                0 <= i < order@.len() && #[trigger] connects(adj, w, start, order@[i]) && w.len()
                    == level[i] + 1 implies preferred(adj, paths[i], w) by {
                assert(w =~= seq![start]);
            }
        }
        while head < order.len()
            invariant
                adj == self@,
                tree_ok(adj, start, order@, par@, level, paths, pos@),
                levels_sorted(level),
                prefix_closed(adj, order@, level, pos@, head as int),
                ranked(adj, start, order@, level, paths),
                forall|i: int| 0 < i < order@.len() ==> (#[trigger] par@[i]) < head,
                head <= order.len(),
                forall|i: int| 0 <= i < order.len() && head < order.len() ==> level[i] <= level[head as int] + 1,
                forall|i: int| 0 <= i < head ==> order@[i] != goal,
            decreases usize::MAX - head,
        {
            let current: u32 = order[head];
            if current == goal {
                let path = construct_path(&order, &par, head, Ghost(adj), Ghost(level), Ghost(paths), Ghost(pos@));
                proof {
                    assert forall|w: Seq<u32>| connects(adj, w, start, goal) implies path@.len()
                        <= w.len() by {
                        lemma_walk_not_shorter(adj, start, order@, par@, level, paths, pos@, head as int, w, w.len() - 1);
                    }
                    assert forall|w: Seq<u32>|
                        connects(adj, w, start, goal) && w.len() == path@.len() implies preferred(
                        adj,
                        path@,
                        w,
                    ) by {
                        assert(connects(adj, w, start, order@[head as int]));
                    }
                    if start == goal {
                        assert(connects(adj, seq![start], start, goal));
                        assert(path@ =~= seq![start]);
                    }
                }
                return Some(path);
            }
            match self.adjacency_list.get(&current) {
                Some(neighbors) => {
                    let mut j: usize = 0;
                    while j < neighbors.len()
                        invariant
                            adj == self@,
                            adj.contains_key(current),
                            adj[current] == neighbors@,
                            current == order@[head as int],
                            tree_ok(adj, start, order@, par@, level, paths, pos@),
                            levels_sorted(level),
                            prefix_closed(adj, order@, level, pos@, head as int),
                            ranked(adj, start, order@, level, paths),
                            forall|i: int| 0 < i < order@.len() ==> (#[trigger] par@[i]) <= head,
                            forall|i: int|
                                0 < i < order@.len() && #[trigger] par@[i] == head ==> listed_before(
                                    neighbors@,
                                    j as int,
                                    order@[i],
                                ),
                            head < order.len(),
                            forall|i: int| 0 <= i < order.len() ==> level[i] <= level[head as int] + 1,
                            forall|i: int| 0 <= i <= head ==> order@[i] != goal,
                            0 <= j <= neighbors.len(),
                            forall|jj: int| 0 <= jj < j ==> pos@.contains_key(#[trigger] neighbors@[jj]),
                        decreases neighbors.len() - j,
                    {
                        let v: u32 = neighbors[j];
                        let ghost seen = order@;
                        if !pos.contains_key(&v) {
                            assert(has_edge(adj, current, v));
                            proof {
                                lemma_discovery_ranked(
                                    adj,
                                    start,
                                    order@,
                                    par@,
                                    level,
                                    paths,
                                    pos@,
                                    head as int,
                                    v,
                                    neighbors@,
                                    j as int,
                                );
                            }
                            pos.insert(v, order.len());
                            order.push(v);
                            par.push(head);
                            proof {
                                paths = paths.push(paths[head as int].push(v));
                                level = level.push(level[head as int] + 1);
                            }
                        }
                        proof {
                            assert forall|i: int|
                                0 < i < order@.len() && #[trigger] par@[i] == head implies listed_before(
                                neighbors@,
                                j + 1,
                                order@[i],
                            ) by {
                                if i < seen.len() {
                                    assert(listed_before(neighbors@, j as int, seen[i]));
                                    let jj = choose|jj: int| 0 <= jj < j && #[trigger] neighbors@[jj] == seen[i];
                                    assert(neighbors@[jj] == order@[i]);
                                } else {
                                    assert(neighbors@[j as int] == order@[i]);
                                }
                            }
                        }
                        j += 1;
                    }
                },
                None => {},
            }
            head += 1;
        }
        proof {
            assert forall|i: int| 0 <= i < order.len() implies expanded(adj, pos@, #[trigger] order@[i]) by {}
            assert forall|w: Seq<u32>| !connects(adj, w, start, goal) by {
                if connects(adj, w, start, goal) {
                    lemma_walk_discovered(adj, start, order@, par@, level, paths, pos@, w, w.len() - 1);
                    assert(order@[pos@[goal] as int] == goal);
                }
            }
            assert(start != goal) by {
                assert(order@[0] == start);
            }
        }
        None
    }
    /// Some path from `start` to `goal`, both ends included, or `None` where
    /// no walk leads from one to the other.
    ///
    /// The frontier is a stack: successors are pushed in adjacency order and
    /// the one pushed last is expanded first. The path visits no node twice
    /// but need not be a shortest one.
    pub fn dfs_path(&self, start: u32, goal: u32) -> (result: Option<Vec<u32>>)
        ensures
            result is Some <==> reachable(self@, start, goal),
            result matches Some(p) ==> connects(self@, p@, start, goal) && p@.no_duplicates(),
            start == goal ==> (result matches Some(p) && p@ == seq![start]),
            match result {
                Some(p) => exists|fuel: nat| dfs_outcome(self@, start, goal, fuel) == Outcome::Found(p@),
                None => exists|fuel: nat| dfs_outcome(self@, start, goal, fuel) == Outcome::Exhausted,
            },
    {
        let ghost adj = self@;
        let mut order: Vec<u32> = Vec::new();
        let mut par: Vec<usize> = Vec::new();
        let mut pos: HashMap<u32, usize> = HashMap::new();
        let mut stack: Vec<usize> = Vec::new();
        let ghost mut level: Seq<nat> = seq![0nat];
        let ghost mut paths: Seq<Seq<u32>> = seq![seq![start]];
        let ghost mut popped: int = 0;
        let ghost mut waiting: Seq<Seq<u32>> = seq![seq![start]];
        order.push(start);
        par.push(0);
        pos.insert(start, 0);
        stack.push(0);
        assert(stack@[0] == 0);
        proof {
            assert(pos@.dom() =~= set![start]);
            assert(frontier(pos@.dom(), waiting) == dfs_start(start));
        }
        while stack.len() > 0
            invariant
                adj == self@,
                tree_ok(adj, start, order@, par@, level, paths, pos@),
                0 <= popped,
                popped + stack@.len() == order@.len(),
                forall|s: int| 0 <= s < stack@.len() ==> #[trigger] stack@[s] < order@.len(),
                waiting.len() == stack@.len(),
                forall|s: int| 0 <= s < stack@.len() ==> #[trigger] waiting[s] == paths[stack@[s] as int],
                forall|fuel: nat|
                    dfs_outcome(adj, start, goal, (popped + fuel) as nat) == #[trigger] dfs_from(
                        adj,
                        goal,
                        frontier(pos@.dom(), waiting),
                        fuel,
                    ),
                forall|i: usize|
                    i < order@.len() ==> stack@.contains(i) || (expanded(
                        adj,
                        pos@,
                        #[trigger] order@[i as int],
                    ) && order@[i as int] != goal),
            decreases usize::MAX - popped,
        {
            let ghost before = stack@;
            let ghost held = frontier(pos@.dom(), waiting);
            let ghost walk = waiting[waiting.len() - 1];
            let idx: usize = stack.pop().unwrap();
            proof {
                assert(dfs_outcome(adj, start, goal, (popped + 1) as nat) == dfs_from(adj, goal, held, 1));
                popped = popped + 1;
                waiting = waiting.drop_last();
                assert(idx == before[before.len() - 1]);
                assert(walk == paths[idx as int]);
                assert(walk[walk.len() - 1] == order@[idx as int]) by {
                    if idx > 0 {
                        assert(paths[idx as int] == paths[par@[idx as int] as int].push(order@[idx as int]));
                    }
                }
                assert forall|i: usize| i < order@.len() && i != idx implies stack@.contains(i) || (expanded(adj, pos@, #[trigger] order@[i as int]) && order@[i as int] != goal) by {
                    if before.contains(i) {
                        let s = choose|s: int| 0 <= s < before.len() && before[s] == i;
                        assert(stack@[s] == i);
                    }
                }
            }
            let ghost taken = popped;
            let current: u32 = order[idx];
            if current == goal {
                let path = construct_path(&order, &par, idx, Ghost(adj), Ghost(level), Ghost(paths), Ghost(pos@));
                proof {
                    assert(connects(adj, path@, start, goal));
                    assert(dfs_from(adj, goal, held, 1) == Outcome::Found(walk));
                    assert(dfs_outcome(adj, start, goal, popped as nat) == Outcome::Found(path@));
                    if start == goal {
                        assert(pos@[goal] == idx);
                        assert(pos@[order@[0]] == 0);
                        assert(path@ =~= seq![start]);
                    }
                }
                return Some(path);
            }
            let ghost rest = frontier(pos@.dom(), waiting);
            let ghost target = if adj.contains_key(current) {
                push_new(rest, walk, adj[current], 0)
            } else {
                rest
            };
            proof {
                assert forall|fuel: nat|
                    dfs_outcome(adj, start, goal, (popped + fuel) as nat) == #[trigger] dfs_from(
                        adj,
                        goal,
                        target,
                        fuel,
                    ) by {
                    assert(dfs_from(adj, goal, held, (fuel + 1) as nat) == dfs_from(adj, goal, target, fuel));
                    assert(popped - 1 + (fuel + 1) == popped + fuel);
                }
            }
            match self.adjacency_list.get(&current) {
                Some(neighbors) => {
                    let mut j: usize = 0;
                    while j < neighbors.len()
                        invariant
                            adj == self@,
                            adj.contains_key(current),
                            adj[current] == neighbors@,
                            idx < order@.len(),
                            current == order@[idx as int],
                            current != goal,
                            tree_ok(adj, start, order@, par@, level, paths, pos@),
                            0 < popped,
                            popped == taken,
                            popped + stack@.len() == order@.len(),
                            forall|s: int| 0 <= s < stack@.len() ==> #[trigger] stack@[s] < order@.len(),
                            waiting.len() == stack@.len(),
                            forall|s: int|
                                0 <= s < stack@.len() ==> #[trigger] waiting[s] == paths[stack@[s] as int],
                            walk == paths[idx as int],
                            target == push_new(frontier(pos@.dom(), waiting), walk, neighbors@, j as int),
                            forall|fuel: nat|
                                dfs_outcome(adj, start, goal, (popped + fuel) as nat) == #[trigger] dfs_from(
                                    adj,
                                    goal,
                                    target,
                                    fuel,
                                ),
                            forall|i: usize|
                                i < order@.len() && i != idx ==> stack@.contains(i) || (
                                expanded(adj, pos@, #[trigger] order@[i as int]) && order@[i as int] != goal),
                            0 <= j <= neighbors.len(),
                            forall|jj: int| 0 <= jj < j ==> pos@.contains_key(#[trigger] neighbors@[jj]),
                        decreases neighbors.len() - j,
                    {
                        let v: u32 = neighbors[j];
                        if !pos.contains_key(&v) {
                            assert(has_edge(adj, current, v));
                            let ghost old_stack = stack@;
                            let ghost old_pos = pos@;
                            let ghost old_order = order@;
                            let fresh: usize = order.len();
                            pos.insert(v, fresh);
                            order.push(v);
                            par.push(idx);
                            stack.push(fresh);
                            proof {
                                let ghost old_paths = paths;
                                paths = paths.push(paths[idx as int].push(v));
                                level = level.push(level[idx as int] + 1);
                                waiting = waiting.push(walk.push(v));
                                assert(pos@.dom() =~= old_pos.dom().insert(v));
                                assert forall|s: int| 0 <= s < stack@.len() implies #[trigger] waiting[s]
                                    == paths[stack@[s] as int] by {
                                    if s < old_stack.len() {
                                        assert(stack@[s] == old_stack[s]);
                                        assert(old_stack[s] < old_order.len());
                                        assert(paths[old_stack[s] as int] == old_paths[old_stack[s] as int]);
                                    }
                                }
                                assert forall|i: usize| i < order@.len() && i != idx implies stack@.contains(i) || (expanded(adj, pos@, #[trigger] order@[i as int]) && order@[i as int] != goal) by {
                                    if i < old_order.len() {
                                        assert(order@[i as int] == old_order[i as int]);
                                        if old_stack.contains(i) {
                                            let s = choose|s: int|
                                                0 <= s < old_stack.len() && old_stack[s] == i;
                                            assert(stack@[s] == i);
                                        } else {
                                            assert(expanded(adj, old_pos, old_order[i as int]));
                                        }
                                    } else {
                                        assert(stack@[stack@.len() - 1] == i);
                                    }
                                }
                            }
                        }
                        j += 1;
                    }
                },
                None => {},
            }
            proof {
                assert(expanded(adj, pos@, order@[idx as int]));
                assert(order@.len() == order.len());
                assert(frontier(pos@.dom(), waiting) == target);
            }
        }
        proof {
            assert forall|i: int| 0 <= i < order@.len() implies expanded(adj, pos@, #[trigger] order@[i]) by {
                let u = pos@[order@[i]];
                assert(!stack@.contains(u));
                assert(expanded(adj, pos@, order@[u as int]));
            }
            assert forall|w: Seq<u32>| !connects(adj, w, start, goal) by {
                if connects(adj, w, start, goal) {
                    lemma_walk_discovered(adj, start, order@, par@, level, paths, pos@, w, w.len() - 1);
                    let g = pos@[goal];
                    assert(order@[g as int] == goal);
                    assert(!stack@.contains(g));
                }
            }
            assert(start != goal) by {
                assert(order@[0] == start);
                assert(!stack@.contains(0usize));
            }
            assert(dfs_from(adj, goal, frontier(pos@.dom(), waiting), 0) == Outcome::Exhausted);
            assert(dfs_outcome(adj, start, goal, popped as nat) == Outcome::Exhausted);
        }
        None
    }
}

} // verus!
