//! The discovery tree that a traversal grows, and what follows from its
//! invariants.
//!
//! A traversal records the nodes it has discovered in discovery order. Each
//! node but the first remembers the position of the node it was discovered
//! from, so that a walk back to the start can be read off the tree.

use vstd::prelude::*;
use crate::walk::{has_edge, is_walk, connects, first_at, comes_first, precedes, preferred,
    lemma_precedes_trans, lemma_precedes_push, lemma_precedes_last};

verus! {

/// The discovery tree is consistent: position 0 holds `start`, every later
/// node was discovered over an edge from an earlier one and lies one level
/// deeper than it, `paths` holds for each node the walk that the tree
/// leads to it by, and `pos` is the inverse of `order`.
pub open spec fn tree_ok(
    adj: Map<u32, Seq<u32>>,
    start: u32,
    order: Seq<u32>,
    par: Seq<usize>,
    level: Seq<nat>,
    paths: Seq<Seq<u32>>,
    pos: Map<u32, usize>,
) -> bool {
    &&& order.len() >= 1
    &&& par.len() == order.len()
    &&& level.len() == order.len()
    &&& paths.len() == order.len()
    &&& order[0] == start
    &&& level[0] == 0
    &&& paths[0] == seq![start]
    &&& forall|i: int| 0 <= i < order.len() ==> (#[trigger] paths[i]).len() == level[i] + 1
    &&& forall|i: int|
        0 < i < order.len() ==> #[trigger] paths[i] == paths[par[i] as int].push(order[i])
    &&& forall|i: int|
        0 < i < order.len() ==> (#[trigger] par[i]) < i && has_edge(adj, order[par[i] as int], order[i])
            && level[i] == level[par[i] as int] + 1
    &&& forall|i: int|
        0 <= i < order.len() ==> pos.contains_key(#[trigger] order[i]) && pos[order[i]] == i
    &&& forall|k: u32| #[trigger]
        pos.contains_key(k) ==> pos[k] < order.len() && order[pos[k] as int] == k
}

/// Every successor of `u` has been discovered.
pub open spec fn expanded(adj: Map<u32, Seq<u32>>, pos: Map<u32, usize>, u: u32) -> bool {
    forall|v: u32| #[trigger] has_edge(adj, u, v) ==> pos.contains_key(v)
}

/// The first `head` discovered nodes have been expanded, and none of their
/// successors lies more than one level below them.
pub open spec fn prefix_closed(
    adj: Map<u32, Seq<u32>>,
    order: Seq<u32>,
    level: Seq<nat>,
    pos: Map<u32, usize>,
    head: int,
) -> bool {
    forall|u: u32, v: u32|
        pos.contains_key(u) && pos[u] < head && #[trigger] has_edge(adj, u, v) ==> pos.contains_key(
            v,
        ) && level[pos[v] as int] <= level[pos[u] as int] + 1
}

/// Levels never decrease along the discovery order.
pub open spec fn levels_sorted(level: Seq<nat>) -> bool {
    forall|i: int, j: int| 0 <= i <= j < level.len() ==> level[i] <= level[j]
}

/// `x` stands among the first `j` entries of `list`.
pub open spec fn listed_before(list: Seq<u32>, j: int, x: u32) -> bool {
    exists|jj: int| 0 <= jj < j && #[trigger] list[jj] == x
}

/// The tree walks are the preferred ones: of two nodes on one level the one
/// discovered earlier has the preceding tree walk, and no walk from the
/// start that is as short as a node's tree walk precedes it.
pub open spec fn ranked(
    adj: Map<u32, Seq<u32>>,
    start: u32,
    order: Seq<u32>,
    level: Seq<nat>,
    paths: Seq<Seq<u32>>,
) -> bool {
    &&& forall|i: int, j: int|
        0 <= i < j < order.len() && level[i] == level[j] ==> precedes(
            adj,
            #[trigger] paths[i],
            #[trigger] paths[j],
        )
    &&& forall|i: int, w: Seq<u32>|
        0 <= i < order.len() && #[trigger] connects(adj, w, start, order[i]) && w.len() == level[i]
            + 1 ==> preferred(adj, paths[i], w)
}

/// While the node at `head` waits for expansion, no walk from the start
/// reaches its `k`-th node sooner than the tree does, unless the node at
/// `head` itself lies no deeper than `k`.
pub proof fn lemma_walk_not_shorter(
    adj: Map<u32, Seq<u32>>,
    start: u32,
    order: Seq<u32>,
    par: Seq<usize>,
    level: Seq<nat>,
    paths: Seq<Seq<u32>>,
    pos: Map<u32, usize>,
    head: int,
    w: Seq<u32>,
    k: int,
)
    requires
        tree_ok(adj, start, order, par, level, paths, pos),
        levels_sorted(level),
        prefix_closed(adj, order, level, pos, head),
        0 <= head < order.len(),
        is_walk(adj, w),
        w[0] == start,
        0 <= k < w.len(),
    ensures
        level[head] <= k || (pos.contains_key(w[k]) && level[pos[w[k]] as int] <= k),
    decreases k,
{
    if k > 0 {
        lemma_walk_not_shorter(adj, start, order, par, level, paths, pos, head, w, k - 1);
        if level[head] > k - 1 {
            let u = w[k - 1];
            assert(has_edge(adj, u, w[k - 1 + 1]));
            let p = pos[u] as int;
            if p >= head {
                assert(level[head] <= level[p]);
            }
        }
    }
}

/// While the node at `head` waits for expansion, every node that a walk
/// from the start reaches within as many steps as the level of that node
/// has been discovered, no deeper than the steps taken.
pub proof fn lemma_walk_within_levels(
    adj: Map<u32, Seq<u32>>,
    start: u32,
    order: Seq<u32>,
    par: Seq<usize>,
    level: Seq<nat>,
    paths: Seq<Seq<u32>>,
    pos: Map<u32, usize>,
    head: int,
    w: Seq<u32>,
    k: int,
)
    requires
        tree_ok(adj, start, order, par, level, paths, pos),
        levels_sorted(level),
        prefix_closed(adj, order, level, pos, head),
        0 <= head < order.len(),
        is_walk(adj, w),
        w[0] == start,
        0 <= k < w.len(),
        k <= level[head],
    ensures
        pos.contains_key(w[k]),
        level[pos[w[k]] as int] <= k,
    decreases k,
{
    if k > 0 {
        lemma_walk_within_levels(adj, start, order, par, level, paths, pos, head, w, k - 1);
        let u = w[k - 1];
        assert(has_edge(adj, u, w[k - 1 + 1]));
        let p = pos[u] as int;
        if p >= head {
            assert(level[head] <= level[p]);
        }
    }
}

/// Once every discovered node has been expanded, each node on a walk from
/// the start has been discovered.
pub proof fn lemma_walk_discovered(
    adj: Map<u32, Seq<u32>>,
    start: u32,
    order: Seq<u32>,
    par: Seq<usize>,
    level: Seq<nat>,
    paths: Seq<Seq<u32>>,
    pos: Map<u32, usize>,
    w: Seq<u32>,
    k: int,
)
    requires
        tree_ok(adj, start, order, par, level, paths, pos),
        forall|i: int| 0 <= i < order.len() ==> expanded(adj, pos, #[trigger] order[i]),
        is_walk(adj, w),
        w[0] == start,
        0 <= k < w.len(),
    ensures
        pos.contains_key(w[k]),
    decreases k,
{
    if k > 0 {
        lemma_walk_discovered(adj, start, order, par, level, paths, pos, w, k - 1);
        let u = w[k - 1];
        assert(has_edge(adj, u, w[k - 1 + 1]));
        assert(order[pos[u] as int] == u);
        assert(expanded(adj, pos, order[pos[u] as int]));
    }
}

/// Discovering `v` as the successor at position `j` of the node at `head`
/// keeps the tree walks the preferred ones.
pub proof fn lemma_discovery_ranked(
    adj: Map<u32, Seq<u32>>,
    start: u32,
    order: Seq<u32>,
    par: Seq<usize>,
    level: Seq<nat>,
    paths: Seq<Seq<u32>>,
    pos: Map<u32, usize>,
    head: int,
    v: u32,
    list: Seq<u32>,
    j: int,
)
    requires
        tree_ok(adj, start, order, par, level, paths, pos),
        levels_sorted(level),
        prefix_closed(adj, order, level, pos, head),
        ranked(adj, start, order, level, paths),
        0 <= head < order.len(),
        forall|i: int| 0 <= i < order.len() ==> level[i] <= level[head] + 1,
        forall|i: int| 0 < i < order.len() ==> (#[trigger] par[i]) <= head,
        forall|i: int|
            0 < i < order.len() && #[trigger] par[i] == head ==> listed_before(list, j, order[i]),
        adj.contains_key(order[head]),
        adj[order[head]] == list,
        0 <= j < list.len(),
        list[j] == v,
        !pos.contains_key(v),
        forall|jj: int| 0 <= jj < j ==> pos.contains_key(#[trigger] list[jj]),
    ensures
        ranked(
            adj,
            start,
            order.push(v),
            level.push(level[head] + 1),
            paths.push(paths[head].push(v)),
        ),
{
    let n = order.len() as int;
    let order2 = order.push(v);
    let level2 = level.push(level[head] + 1);
    let pv = paths[head].push(v);
    let paths2 = paths.push(pv);
    assert(paths[head][paths[head].len() - 1] == order[head]) by {
        if head > 0 {
            assert(paths[head] == paths[par[head] as int].push(order[head]));
        }
    }
    assert forall|i: int, k: int| 0 <= i < k < order2.len() && level2[i] == level2[k] implies precedes(
        adj,
        #[trigger] paths2[i],
        #[trigger] paths2[k],
    ) by {
        if k < n {
            assert(precedes(adj, paths[i], paths[k]));
        } else {
            assert(i > 0);
            let p = par[i] as int;
            assert(paths[i] == paths[p].push(order[i]));
            assert(level[p] == level[head]);
            if p < head {
                assert(precedes(adj, paths[p], paths[head]));
                lemma_precedes_push(adj, paths[p], paths[head], order[i], v);
            } else {
                assert(listed_before(list, j, order[i]));
                let jj = choose|jj: int| 0 <= jj < j && #[trigger] list[jj] == order[i];
                assert forall|q: int| 0 <= q <= jj implies #[trigger] list[q] != v by {
                    assert(pos.contains_key(list[q]));
                }
                assert(first_at(list, order[i], v, jj));
                assert(comes_first(list, order[i], v));
                lemma_precedes_last(adj, paths[head], order[i], v);
            }
        }
    }
    assert forall|i: int, w: Seq<u32>|
        0 <= i < order2.len() && #[trigger] connects(adj, w, start, order2[i]) && w.len() == level2[i]
            + 1 implies preferred(adj, paths2[i], w) by {
        if i < n {
            assert(connects(adj, w, start, order[i]));
            assert(preferred(adj, paths[i], w));
        } else {
            let m = w.len() - 1;
            let wp = w.drop_last();
            assert(is_walk(adj, wp)) by {
                assert forall|q: int| 0 <= q < wp.len() - 1 implies has_edge(
                    adj,
                    #[trigger] wp[q],
                    wp[q + 1],
                ) by {
                    assert(has_edge(adj, w[q], w[q + 1]));
                }
            }
            lemma_walk_within_levels(adj, start, order, par, level, paths, pos, head, wp, m - 1);
            let x = wp[m - 1];
            let ix = pos[x] as int;
            assert(has_edge(adj, w[m - 1], w[m - 1 + 1]));
            assert(has_edge(adj, x, v));
            assert(ix >= head);
            assert(level[head] <= level[ix]);
            assert(connects(adj, wp, start, order[ix]));
            assert(preferred(adj, paths[ix], wp));
            assert(w =~= wp.push(v));
            if ix == head {
                if paths[head] != wp {
                    lemma_precedes_push(adj, paths[head], wp, v, v);
                }
            } else {
                assert(precedes(adj, paths[head], paths[ix]));
                if paths[ix] != wp {
                    lemma_precedes_trans(adj, paths[head], paths[ix], wp);
                }
                lemma_precedes_push(adj, paths[head], wp, v, v);
            }
        }
    }
}

/// Reads the walk from the start to the node at position `idx` off the
/// discovery tree. Its length is one more than the node's level.
pub(crate) fn construct_path(
    order: &Vec<u32>,
    par: &Vec<usize>,
    idx: usize,
    Ghost(adj): Ghost<Map<u32, Seq<u32>>>,
    Ghost(level): Ghost<Seq<nat>>,
    Ghost(paths): Ghost<Seq<Seq<u32>>>,
    Ghost(pos): Ghost<Map<u32, usize>>,
) -> (path: Vec<u32>)
    requires
        tree_ok(adj, order@[0], order@, par@, level, paths, pos),
        idx < order.len(),
    ensures
        connects(adj, path@, order@[0], order@[idx as int]),
        path@.len() == level[idx as int] + 1,
        path@ == paths[idx as int],
        path@.no_duplicates(),
{
    let ghost whole = paths[idx as int];
    let mut rev: Vec<u32> = Vec::new();
    let mut cur: usize = idx;
    while cur != 0
        invariant
            tree_ok(adj, order@[0], order@, par@, level, paths, pos),
            cur < order.len(),
            idx < order.len(),
            whole == paths[idx as int],
            forall|j: int| 0 <= j < rev@.len() ==> pos.contains_key(#[trigger] rev@[j]) && pos[rev@[j]] > cur,
            forall|j: int, k: int| 0 <= j < k < rev@.len() ==> rev@[j] != rev@[k],
            forall|j: int| 0 <= j < rev@.len() ==> #[trigger] rev@[j] == whole[level[idx as int] - j],
            forall|j: int| 0 <= j <= level[cur as int] ==> #[trigger] whole[j] == paths[cur as int][j],
            rev@.len() + level[cur as int] == level[idx as int],
            rev@.len() == 0 ==> cur == idx,
            rev@.len() > 0 ==> rev@[0] == order@[idx as int] && has_edge(
                adj,
                order@[cur as int],
                rev@[rev@.len() - 1],
            ),
            forall|j: int| 0 <= j < rev@.len() - 1 ==> has_edge(adj, rev@[j + 1], #[trigger] rev@[j]),
        decreases cur,
    {
        proof {
            let up = par@[cur as int] as int;
            assert(paths[cur as int] == paths[up].push(order@[cur as int]));
            assert forall|j: int| 0 <= j <= level[up] implies #[trigger] whole[j] == paths[up][j] by {
                assert(whole[j] == paths[cur as int][j]);
            }
            assert(whole[level[cur as int] as int] == paths[cur as int][level[cur as int] as int]);
            assert(pos[order@[cur as int]] == cur);
        }
        rev.push(order[cur]);
        cur = par[cur];
    }
    proof {
        assert(whole[0] == paths[0][0]);
        assert(pos[order@[0]] == 0);
    }
    rev.push(order[0]);
    assert(forall|j: int, k: int| 0 <= j < k < rev@.len() ==> rev@[j] != rev@[k]);
    let n: usize = rev.len();
    let mut path: Vec<u32> = Vec::new();
    let mut i: usize = 0;
    while i < n
        invariant
            n == rev@.len(),
            n == level[idx as int] + 1,
            whole.len() == n,
            forall|j: int, k: int| 0 <= j < k < n ==> rev@[j] != rev@[k],
            forall|j: int| 0 <= j < n ==> #[trigger] rev@[j] == whole[n - 1 - j],
            0 <= i <= n,
            path@.len() == i,
            forall|j: int| 0 <= j < i ==> #[trigger] path@[j] == rev@[n - 1 - j],
        decreases n - i,
    {
        path.push(rev[n - 1 - i]);
        i += 1;
    }
    proof {
        assert forall|j: int| 0 <= j < path@.len() - 1 implies has_edge(
            adj,
            #[trigger] path@[j],
            path@[j + 1],
        ) by {
            let r = n - 1 - (j + 1);
            assert(has_edge(adj, rev@[r + 1], rev@[r]));
        }
        assert(path@ =~= whole);
        assert forall|a: int, b: int|
            0 <= a < path@.len() && 0 <= b < path@.len() && a != b implies path@[a] != path@[b] by {
            if a < b {
                assert(rev@[n - 1 - b] != rev@[n - 1 - a]);
            } else {
                assert(rev@[n - 1 - a] != rev@[n - 1 - b]);
            }
        }
    }
    path
}

} // verus!
