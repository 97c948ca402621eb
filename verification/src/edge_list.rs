//! The text format of an unweighted edge list.
//!
//! One edge per line: two unsigned decimal node ids separated by a single
//! tab. A line that begins with `#` is a comment. A line that does not have
//! exactly two tab-separated fields is passed over. A field of a two-field
//! line that is not a node id makes the whole text invalid.

use std::collections::HashMap;
use vstd::prelude::*;
use crate::graph::adjacency_of;

verus! {

broadcast use vstd::std_specs::hash::group_hash_axioms;

/// Why an edge list was rejected.
#[derive(Debug, Clone, Copy, PartialEq, Eq, Structural)]
pub enum GraphError {
    /// A field of a two-field line is not an unsigned 32-bit decimal number.
    InvalidNodeId,
}

impl GraphError {
    /// The error in words.
    pub fn message(&self) -> (text: String)
        ensures
            text@ == "Invalid node id"@,
    {
        "Invalid node id".to_string()
    }
}

/// What one line of the text contributes.
pub enum LineEdge {
    /// Nothing: a comment, or a line without exactly two fields.
    Skip,
    /// An edge from the first node to the second.
    Edge(u32, u32),
    /// A two-field line with a malformed node id.
    Bad,
}

/// The first position in `lo..hi` that holds byte `b`, or `hi` if none does.
pub open spec fn find(s: Seq<u8>, lo: int, hi: int, b: u8) -> int
    decreases hi - lo,
{
    if lo >= hi {
        hi
    } else if s[lo] == b {
        lo
    } else {
        find(s, lo + 1, hi, b)
    }
}

/// The number that the decimal digits in `lo..hi` spell, if all of them are
/// digits and the number fits in 32 bits. The empty range spells 0.
pub open spec fn digits_value(s: Seq<u8>, lo: int, hi: int) -> Option<int>
    decreases hi - lo,
{
    if hi <= lo {
        Some(0)
    } else if !(48 <= s[hi - 1] <= 57) {
        None
    } else {
        match digits_value(s, lo, hi - 1) {
            Some(v) => if 10 * v + (s[hi - 1] - 48) <= u32::MAX {
                Some(10 * v + (s[hi - 1] - 48))
            } else {
                None
            },
            None => None,
        }
    }
}

/// The node id that the field in `lo..hi` holds: an optional `+`, then at
/// least one decimal digit, the value within 32 bits.
pub open spec fn token_value(s: Seq<u8>, lo: int, hi: int) -> Option<u32> {
    let from = if lo < hi && s[lo] == 43 {
        lo + 1
    } else {
        lo
    };
    if from >= hi {
        None
    } else {
        match digits_value(s, from, hi) {
            Some(v) => Some(v as u32),
            None => None,
        }
    }
}

/// What the line in `lo..hi` contributes.
pub open spec fn line_edge(s: Seq<u8>, lo: int, hi: int) -> LineEdge {
    let tab = find(s, lo, hi, 9);
    if lo < hi && s[lo] == 35 {
        LineEdge::Skip
    } else if tab >= hi || find(s, tab + 1, hi, 9) < hi {
        LineEdge::Skip
    } else {
        match (token_value(s, lo, tab), token_value(s, tab + 1, hi)) {
            (Some(u), Some(v)) => LineEdge::Edge(u, v),
            _ => LineEdge::Bad,
        }
    }
}

/// Where the content of the line that spans `lo..end` stops: a carriage
/// return directly before the line feed at `end` belongs to the line ending.
pub open spec fn content_end(s: Seq<u8>, lo: int, end: int) -> int {
    if end < s.len() && lo < end && s[end - 1] == 13 {
        end - 1
    } else {
        end
    }
}

/// The adjacency map with `v` appended to the successors of `u`.
pub open spec fn add_edge(adj: Map<u32, Seq<u32>>, u: u32, v: u32) -> Map<u32, Seq<u32>> {
    if adj.contains_key(u) {
        adj.insert(u, adj[u].push(v))
    } else {
        adj.insert(u, seq![v])
    }
}

/// The adjacency map that the lines from position `from` on add to `adj`,
/// or `None` if one of them is malformed. Lines end at a line feed; the last
/// line may go without one.
pub open spec fn load_from(s: Seq<u8>, from: int, adj: Map<u32, Seq<u32>>) -> Option<
    Map<u32, Seq<u32>>,
>
    decreases s.len() + 1 - from,
    via load_from_decreases
{
    if from < 0 || from >= s.len() {
        Some(adj)
    } else {
        let end = find(s, from, s.len() as int, 10);
        match line_edge(s, from, content_end(s, from, end)) {
            LineEdge::Skip => load_from(s, end + 1, adj),
            LineEdge::Edge(u, v) => load_from(s, end + 1, add_edge(adj, u, v)),
            LineEdge::Bad => None,
        }
    }
}

#[via_fn]
proof fn load_from_decreases(s: Seq<u8>, from: int, adj: Map<u32, Seq<u32>>) {
    if 0 <= from < s.len() {
        lemma_find_bounds(s, from, s.len() as int, 10);
    }
}

/// The adjacency map that an edge list spells, or `None` if it is malformed.
pub open spec fn edge_list_value(s: Seq<u8>) -> Option<Map<u32, Seq<u32>>> {
    load_from(s, 0, Map::empty())
}

/// `find` stays within its range.
pub proof fn lemma_find_bounds(s: Seq<u8>, lo: int, hi: int, b: u8)
    requires
        lo <= hi,
    ensures
        lo <= find(s, lo, hi, b) <= hi,
    decreases hi - lo,
{
    if lo < hi && s[lo] != b {
        lemma_find_bounds(s, lo + 1, hi, b);
    }
}

/// A range whose prefix is no number is no number.
pub proof fn lemma_digits_prefix(s: Seq<u8>, lo: int, mid: int, hi: int)
    requires
        lo <= mid <= hi,
        digits_value(s, lo, mid) is None,
    ensures
        digits_value(s, lo, hi) is None,
    decreases hi - mid,
{
    if mid < hi {
        lemma_digits_prefix(s, lo, mid, hi - 1);
    }
}

fn find_byte(s: &[u8], lo: usize, hi: usize, b: u8) -> (at: usize)
    requires
        lo <= hi <= s@.len(),
    ensures
        at == find(s@, lo as int, hi as int, b),
        lo <= at <= hi,
{
    let mut i: usize = lo;
    while i < hi && s[i] != b
        invariant
            lo <= i <= hi <= s@.len(),
            find(s@, lo as int, hi as int, b) == find(s@, i as int, hi as int, b),
        decreases hi - i,
    {
        i += 1;
    }
    i
}

fn parse_token(s: &[u8], lo: usize, hi: usize) -> (value: Option<u32>)
    requires
        lo <= hi <= s@.len(),
    ensures
        value == token_value(s@, lo as int, hi as int),
{
    let from: usize = if lo < hi && s[lo] == 43 {
        lo + 1
    } else {
        lo
    };
    if from >= hi {
        return None;
    }
    let mut acc: u32 = 0;
    let mut i: usize = from;
    while i < hi
        invariant
            lo <= hi,
            from == if lo < hi && s@[lo as int] == 43 {
                lo + 1
            } else {
                lo as int
            },
            from <= i <= hi <= s@.len(),
            from < hi,
            digits_value(s@, from as int, i as int) == Some(acc as int),
        decreases hi - i,
    {
        let c: u8 = s[i];
        if c < 48 || c > 57 {
            proof {
                assert(digits_value(s@, from as int, i + 1) is None);
                lemma_digits_prefix(s@, from as int, i + 1, hi as int);
            }
            return None;
        }
        let next: u64 = acc as u64 * 10 + (c - 48) as u64;
        if next > 0xffff_ffff {
            proof {
                assert(digits_value(s@, from as int, i + 1) is None);
                lemma_digits_prefix(s@, from as int, i + 1, hi as int);
            }
            return None;
        }
        acc = next as u32;
        i += 1;
    }
    Some(acc)
}

fn parse_line(s: &[u8], lo: usize, hi: usize) -> (edge: LineEdge)
    requires
        lo <= hi <= s@.len(),
    ensures
        edge == line_edge(s@, lo as int, hi as int),
{
    if lo < hi && s[lo] == 35 {
        return LineEdge::Skip;
    }
    let tab: usize = find_byte(s, lo, hi, 9);
    if tab >= hi {
        return LineEdge::Skip;
    }
    if find_byte(s, tab + 1, hi, 9) < hi {
        return LineEdge::Skip;
    }
    match parse_token(s, lo, tab) {
        Some(u) => match parse_token(s, tab + 1, hi) {
            Some(v) => LineEdge::Edge(u, v),
            None => LineEdge::Bad,
        },
        None => LineEdge::Bad,
    }
}

/// Appends `v` to the successors of `u`, creating the entry if there is none.
pub fn push_edge(table: &mut HashMap<u32, Vec<u32>>, u: u32, v: u32)
    ensures
        adjacency_of(final(table)@) == add_edge(adjacency_of(old(table)@), u, v),
{
    let mut successors: Vec<u32> = match table.remove(&u) {
        Some(list) => list,
        None => Vec::new(),
    };
    successors.push(v);
    table.insert(u, successors);
    assert(adjacency_of(table@) =~= add_edge(adjacency_of(old(table)@), u, v));
}

/// Reads an edge list into an adjacency table. All or nothing: one
/// malformed node id rejects the whole text.
pub fn parse_edge_list(s: &[u8]) -> (result: Result<HashMap<u32, Vec<u32>>, GraphError>)
    ensures
        match edge_list_value(s@) {
            Some(adj) => result matches Ok(table) && adjacency_of(table@) == adj,
            None => result == Err::<HashMap<u32, Vec<u32>>, GraphError>(GraphError::InvalidNodeId),
        },
{
    let mut table: HashMap<u32, Vec<u32>> = HashMap::new();
    let n: usize = s.len();
    let mut from: usize = 0;
    assert(adjacency_of(table@) =~= Map::empty());
    while from < n
        invariant
            n == s@.len(),
            0 <= from,
            edge_list_value(s@) == load_from(s@, from as int, adjacency_of(table@)),
        decreases n - from,
    {
        let end: usize = find_byte(s, from, n, 10);
        let stop: usize = if end < n && from < end && s[end - 1] == 13 {
            end - 1
        } else {
            end
        };
        match parse_line(s, from, stop) {
            LineEdge::Skip => {},
            LineEdge::Edge(u, v) => {
                push_edge(&mut table, u, v);
            },
            LineEdge::Bad => {
                return Err(GraphError::InvalidNodeId);
            },
        }
        if end >= n {
            assert(load_from(s@, end + 1, adjacency_of(table@)) == Some(adjacency_of(table@)));
            return Ok(table);
        }
        from = end + 1;
    }
    Ok(table)
}

} // verus!
