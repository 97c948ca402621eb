//! What the depth-first traversal does, as a function of the graph.
//!
//! The frontier is a stack of walks from the start. A step takes the walk
//! that was pushed last. If it ends at the goal, it is the answer. Otherwise
//! the successors of its last node are gone through in the order in which
//! they are listed: each one not seen before is marked as seen, and the
//! walk extended by it is pushed. So of the new successors the one listed
//! last is taken next.

use vstd::prelude::*;

verus! {

/// The nodes seen so far, and the walks that wait, the next one last.
pub struct Frontier {
    pub seen: Set<u32>,
    pub stack: Seq<Seq<u32>>,
}

/// How a traversal stands after a number of steps.
pub enum Outcome {
    /// The walk that reached the goal.
    Found(Seq<u32>),
    /// No walk waits any more: the goal is out of reach.
    Exhausted,
    /// The steps allowed did not settle the matter.
    Unfinished,
}

/// The frontier with these nodes and these walks.
pub open spec fn frontier(seen: Set<u32>, stack: Seq<Seq<u32>>) -> Frontier {
    Frontier { seen, stack }
}

/// The frontier before the first step: the start is seen, and the walk that
/// stays there waits.
pub open spec fn dfs_start(start: u32) -> Frontier {
    frontier(set![start], seq![seq![start]])
}

/// The frontier after the successors `list[j..]` of the last node of `from`
/// were gone through.
pub open spec fn push_new(f: Frontier, from: Seq<u32>, list: Seq<u32>, j: int) -> Frontier
    decreases list.len() - j,
{
    if j < 0 || j >= list.len() {
        f
    } else if f.seen.contains(list[j]) {
        push_new(f, from, list, j + 1)
    } else {
        push_new(
            frontier(f.seen.insert(list[j]), f.stack.push(from.push(list[j]))),
            from,
            list,
            j + 1,
        )
    }
}

/// How the traversal from frontier `f` stands after at most `fuel` steps.
pub open spec fn dfs_from(adj: Map<u32, Seq<u32>>, goal: u32, f: Frontier, fuel: nat) -> Outcome
    decreases fuel,
{
    if f.stack.len() == 0 {
        Outcome::Exhausted
    } else if fuel == 0 {
        Outcome::Unfinished
    } else {
        let walk = f.stack[f.stack.len() - 1];
        let node = walk[walk.len() - 1];
        let rest = frontier(f.seen, f.stack.drop_last());
        if node == goal {
            Outcome::Found(walk)
        } else if adj.contains_key(node) {
            dfs_from(adj, goal, push_new(rest, walk, adj[node], 0), (fuel - 1) as nat)
        } else {
            dfs_from(adj, goal, rest, (fuel - 1) as nat)
        }
    }
}

/// How the traversal from `start` stands after at most `fuel` steps.
pub open spec fn dfs_outcome(adj: Map<u32, Seq<u32>>, start: u32, goal: u32, fuel: nat) -> Outcome {
    dfs_from(adj, goal, dfs_start(start), fuel)
}

/// A traversal that has found a walk, or has run out of walks, stands the
/// same after any further steps: the outcome does not depend on how many
/// steps were allowed, once they suffice.
pub proof fn lemma_dfs_settled(
    adj: Map<u32, Seq<u32>>,
    goal: u32,
    f: Frontier,
    fuel: nat,
    more: nat,
)
    requires
        !(dfs_from(adj, goal, f, fuel) is Unfinished),
        fuel <= more,
    ensures
        dfs_from(adj, goal, f, more) == dfs_from(adj, goal, f, fuel),
    decreases fuel,
{
    if f.stack.len() > 0 && fuel > 0 {
        let walk = f.stack[f.stack.len() - 1];
        let node = walk[walk.len() - 1];
        let rest = frontier(f.seen, f.stack.drop_last());
        if node != goal {
            if adj.contains_key(node) {
                lemma_dfs_settled(
                    adj,
                    goal,
                    push_new(rest, walk, adj[node], 0),
                    (fuel - 1) as nat,
                    (more - 1) as nat,
                );
            } else {
                lemma_dfs_settled(adj, goal, rest, (fuel - 1) as nat, (more - 1) as nat);
            }
        }
    }
}

/// Two counts of steps that both settle the traversal from `start` give
/// the same outcome: there is one answer.
pub proof fn lemma_dfs_outcome_unique(
    adj: Map<u32, Seq<u32>>,
    start: u32,
    goal: u32,
    fuel: nat,
    other: nat,
)
    requires
        !(dfs_outcome(adj, start, goal, fuel) is Unfinished),
        !(dfs_outcome(adj, start, goal, other) is Unfinished),
    ensures
        dfs_outcome(adj, start, goal, fuel) == dfs_outcome(adj, start, goal, other),
{
    if fuel <= other {
        lemma_dfs_settled(adj, goal, dfs_start(start), fuel, other);
    } else {
        lemma_dfs_settled(adj, goal, dfs_start(start), other, fuel);
    }
}

} // verus!
