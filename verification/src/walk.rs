//! Walks in a directed graph given as an adjacency map.

use vstd::prelude::*;

verus! {

/// The graph has an edge from `u` to `v`: `v` occurs among the successors
/// listed for `u`.
pub open spec fn has_edge(adj: Map<u32, Seq<u32>>, u: u32, v: u32) -> bool {
    adj.contains_key(u) && adj[u].contains(v)
}

/// `w` is a non-empty sequence of nodes in which each node is followed by
/// one of its successors.
pub open spec fn is_walk(adj: Map<u32, Seq<u32>>, w: Seq<u32>) -> bool {
    &&& w.len() > 0
    &&& forall|i: int| 0 <= i < w.len() - 1 ==> has_edge(adj, #[trigger] w[i], w[i + 1])
}

/// `w` is a walk that begins at `start` and ends at `goal`.
pub open spec fn connects(adj: Map<u32, Seq<u32>>, w: Seq<u32>, start: u32, goal: u32) -> bool {
    &&& is_walk(adj, w)
    &&& w[0] == start
    &&& w[w.len() - 1] == goal
}

/// Some walk leads from `start` to `goal`.
pub open spec fn reachable(adj: Map<u32, Seq<u32>>, start: u32, goal: u32) -> bool {
    exists|w: Seq<u32>| connects(adj, w, start, goal)
}

/// In `s`, `a` stands at position `j`, and `b` occurs neither there nor
/// before.
pub open spec fn first_at(s: Seq<u32>, a: u32, b: u32, j: int) -> bool {
    &&& 0 <= j < s.len()
    &&& s[j] == a
    &&& forall|k: int| 0 <= k <= j ==> #[trigger] s[k] != b
}

/// In `s`, `a` occurs before the first occurrence of `b`, if `b` occurs at
/// all.
pub open spec fn comes_first(s: Seq<u32>, a: u32, b: u32) -> bool {
    exists|j: int| first_at(s, a, b, j)
}

/// The walks `a` and `b` agree before position `i`, and there `a` goes on
/// to a successor that is listed before the one `b` goes on to.
pub open spec fn parts_at(adj: Map<u32, Seq<u32>>, a: Seq<u32>, b: Seq<u32>, i: int) -> bool {
    &&& 1 <= i < a.len()
    &&& i < b.len()
    &&& forall|k: int| 0 <= k < i ==> #[trigger] a[k] == b[k]
    &&& adj.contains_key(a[i - 1])
    &&& comes_first(adj[a[i - 1]], a[i], b[i])
}

/// Where the walks `a` and `b` first differ, `a` takes the successor that
/// is listed first.
pub open spec fn precedes(adj: Map<u32, Seq<u32>>, a: Seq<u32>, b: Seq<u32>) -> bool {
    exists|i: int| parts_at(adj, a, b, i)
}

/// `a` is `b`, or precedes it.
pub open spec fn preferred(adj: Map<u32, Seq<u32>>, a: Seq<u32>, b: Seq<u32>) -> bool {
    a == b || precedes(adj, a, b)
}

/// Of two walks at most one precedes the other, and a walk that precedes
/// another differs from it: among walks of one length between two nodes
/// the preferred one is unique.
pub proof fn lemma_precedes_asymmetric(adj: Map<u32, Seq<u32>>, a: Seq<u32>, b: Seq<u32>)
    requires
        precedes(adj, a, b),
    ensures
        !precedes(adj, b, a),
        a != b,
{
    let d1 = choose|i: int| parts_at(adj, a, b, i);
    let s = adj[a[d1 - 1]];
    let j1 = choose|j: int| first_at(s, a[d1], b[d1], j);
    assert(s[j1] != b[d1]);
    assert(a[d1] != b[d1]);
    if precedes(adj, b, a) {
        let d2 = choose|i: int| parts_at(adj, b, a, i);
        let t = adj[b[d2 - 1]];
        let j2 = choose|j: int| first_at(t, b[d2], a[d2], j);
        assert(t[j2] != a[d2]);
        if d1 < d2 {
            assert(b[d1] == a[d1]);
        } else if d2 < d1 {
            assert(a[d2] == b[d2]);
        } else {
            assert(a[d1 - 1] == b[d1 - 1]);
            if j1 <= j2 {
                assert(t[j1] != a[d1]);
            } else {
                assert(s[j2] != b[d1]);
            }
        }
    }
}

/// Coming first in a successor list is transitive.
pub proof fn lemma_comes_first_trans(s: Seq<u32>, a: u32, b: u32, c: u32)
    requires
        comes_first(s, a, b),
        comes_first(s, b, c),
    ensures
        comes_first(s, a, c),
{
    let j1 = choose|j: int| first_at(s, a, b, j);
    let j2 = choose|j: int| first_at(s, b, c, j);
    assert(s[j2] == b);
    assert(j1 < j2) by {
        if j2 <= j1 {
            assert(s[j2] != b);
        }
    }
    assert(first_at(s, a, c, j1));
}

/// Preceding is transitive.
pub proof fn lemma_precedes_trans(adj: Map<u32, Seq<u32>>, a: Seq<u32>, b: Seq<u32>, c: Seq<u32>)
    requires
        precedes(adj, a, b),
        precedes(adj, b, c),
    ensures
        precedes(adj, a, c),
{
    let d1 = choose|i: int| parts_at(adj, a, b, i);
    let d2 = choose|i: int| parts_at(adj, b, c, i);
    if d1 < d2 {
        assert(b[d1] == c[d1]);
        assert(a[d1 - 1] == b[d1 - 1]);
        assert forall|k: int| 0 <= k < d1 implies #[trigger] a[k] == c[k] by {
            assert(a[k] == b[k]);
            assert(b[k] == c[k]);
        }
        assert(parts_at(adj, a, c, d1));
    } else if d2 < d1 {
        assert(a[d2] == b[d2]);
        assert(a[d2 - 1] == b[d2 - 1]);
        assert forall|k: int| 0 <= k < d2 implies #[trigger] a[k] == c[k] by {
            assert(a[k] == b[k]);
            assert(b[k] == c[k]);
        }
        assert(parts_at(adj, a, c, d2));
    } else {
        assert(a[d1 - 1] == b[d1 - 1]);
        lemma_comes_first_trans(adj[a[d1 - 1]], a[d1], b[d1], c[d1]);
        assert forall|k: int| 0 <= k < d1 implies #[trigger] a[k] == c[k] by {
            assert(a[k] == b[k]);
            assert(b[k] == c[k]);
        }
        assert(parts_at(adj, a, c, d1));
    }
}

/// Walks that part keep their order however they go on.
pub proof fn lemma_precedes_push(adj: Map<u32, Seq<u32>>, a: Seq<u32>, b: Seq<u32>, x: u32, y: u32)
    requires
        precedes(adj, a, b),
    ensures
        precedes(adj, a.push(x), b.push(y)),
{
    let d = choose|i: int| parts_at(adj, a, b, i);
    let a2 = a.push(x);
    let b2 = b.push(y);
    assert(a2[d] == a[d] && b2[d] == b[d] && a2[d - 1] == a[d - 1]);
    assert forall|k: int| 0 <= k < d implies #[trigger] a2[k] == b2[k] by {
        assert(a[k] == b[k]);
    }
    assert(parts_at(adj, a2, b2, d));
}

/// Two walks that part at their last step are ordered by that step.
pub proof fn lemma_precedes_last(adj: Map<u32, Seq<u32>>, c: Seq<u32>, x: u32, y: u32)
    requires
        c.len() >= 1,
        adj.contains_key(c[c.len() - 1]),
        comes_first(adj[c[c.len() - 1]], x, y),
    ensures
        precedes(adj, c.push(x), c.push(y)),
{
    let a = c.push(x);
    let b = c.push(y);
    let d = c.len() as int;
    assert(a[d - 1] == c[d - 1]);
    assert forall|k: int| 0 <= k < d implies #[trigger] a[k] == b[k] by {
        assert(a[k] == c[k]);
    }
    assert(parts_at(adj, a, b, d));
}

} // verus!
