//! Connections between nodes and the per-tick graph view.
//!
//! A connection is anchored at one node and either still being drawn (its far
//! end pending) or settled on a target node. Only settled connections that
//! are out of construction and within range take part in adjacency, and
//! adjacency is undirected: an edge from `a` to `b` also links `b` to `a`.
//! Edges may be removed or flip validity at any tick, so everything here is
//! re-evaluated against the current edge set whenever it is queried.

use vstd::prelude::*;
use vstd::seq_lib::*;
use vstd::set_lib::*;

verus! {

/// The far end of a connection: settled on a node, or still pending while
/// the connection is being drawn.
#[derive(Clone, Copy, Debug)]
pub enum EdgeTarget {
    Node { node: usize },
    Pending,
}

/// A connection slot. Removed connections keep their slot with `live` unset,
/// so edge identifiers stay stable.
#[derive(Clone, Copy, Debug)]
pub struct Edge {
    /// The slot holds a connection; removal clears this and nothing else.
    pub live: bool,
    /// The node the connection was started from.
    pub anchor: usize,
    /// The far end.
    pub target: EdgeTarget,
    /// Still being drawn; such an edge carries no traffic.
    pub under_construction: bool,
    /// Within range, as judged by the external range predicate. May flip at
    /// any tick.
    pub valid: bool,
}

/// An edge that takes part in the graph view: present, settled, finished,
/// and in range.
pub open spec fn edge_active(e: Edge) -> bool {
    e.live && !e.under_construction && e.valid && e.target is Node
}

/// `e` is an active edge whose two endpoints are `a` and `b`, in either
/// orientation.
pub open spec fn edge_joins(e: Edge, a: usize, b: usize) -> bool {
    edge_active(e) && ((e.anchor == a && e.target->node == b) || (e.anchor == b
        && e.target->node == a))
}

/// The graph view: `a` and `b` are neighbours through at least one active
/// edge.
pub open spec fn linked(edges: Seq<Edge>, a: usize, b: usize) -> bool {
    exists|i: int| 0 <= i < edges.len() && edge_joins(edges[i], a, b)
}

/// Every consecutive pair of `p` is linked in the current graph view.
pub open spec fn route_linked(edges: Seq<Edge>, p: Seq<usize>) -> bool {
    forall|k: int| #![trigger p[k]] 0 <= k < p.len() - 1 ==> linked(edges, p[k], p[k + 1])
}

/// `p` walks the graph view from `a` to `b`. A single-node path is allowed:
/// every node reaches itself.
pub open spec fn is_path(edges: Seq<Edge>, p: Seq<usize>, a: usize, b: usize) -> bool {
    &&& p.len() >= 1
    &&& p[0] == a
    &&& p[p.len() - 1] == b
    &&& route_linked(edges, p)
}

/// Some walk of the graph view leads from `a` to `b`.
pub open spec fn reachable(edges: Seq<Edge>, a: usize, b: usize) -> bool {
    exists|p: Seq<usize>| is_path(edges, p, a, b)
}

/// Every live edge points at nodes below `n`.
pub open spec fn edges_in_range(edges: Seq<Edge>, n: int) -> bool {
    forall|i: int| #![trigger edges[i]] 0 <= i < edges.len() && edges[i].live ==> edges[i].anchor
        < n && (edges[i].target matches EdgeTarget::Node { node } ==> node < n)
}

/// Adjacency is symmetric: the same edge joins the pair read either way.
pub proof fn lemma_linked_sym(edges: Seq<Edge>, a: usize, b: usize)
    ensures
        linked(edges, a, b) == linked(edges, b, a),
{
    if linked(edges, a, b) {
        let i = choose|i: int| 0 <= i < edges.len() && edge_joins(edges[i], a, b);
        assert(edge_joins(edges[i], b, a));
    }
    if linked(edges, b, a) {
        let i = choose|i: int| 0 <= i < edges.len() && edge_joins(edges[i], b, a);
        assert(edge_joins(edges[i], a, b));
    }
}

/// Neighbours of in-range nodes are in range, as long as every live edge
/// points below `n`.
pub proof fn lemma_linked_in_range(edges: Seq<Edge>, n: int, a: usize, b: usize)
    requires
        edges_in_range(edges, n),
        linked(edges, a, b),
    ensures
        a < n && b < n,
{
    let i = choose|i: int| 0 <= i < edges.len() && edge_joins(edges[i], a, b);
    assert(edges[i].live);
}

/// The reverse of a walk is a walk of the same graph view, read back to
/// front; adjacency is undirected, so every hop still holds.
pub proof fn lemma_path_reverse(edges: Seq<Edge>, p: Seq<usize>, a: usize, b: usize)
    requires
        is_path(edges, p, a, b),
    ensures
        is_path(edges, p.reverse(), b, a),
{
    let q = p.reverse();
    assert forall|k: int| #![trigger q[k]] 0 <= k < q.len() - 1 implies linked(edges, q[k], q[k + 1]) by {
        let j = p.len() - 2 - k;
        assert(p[j] == q[k + 1]);
        assert(p[j + 1] == q[k]);
        lemma_linked_sym(edges, p[j as int], p[j + 1]);
    }
}

/// A set of nodes that contains `a` and is closed under adjacency contains
/// the end of every walk that starts at `a`. This is what makes a finished
/// breadth-first search complete: its visited set is closed, so it holds
/// every reachable node.
pub proof fn lemma_closed_covers_path(
    edges: Seq<Edge>,
    visited: Seq<bool>,
    p: Seq<usize>,
    a: usize,
    b: usize,
)
    requires
        edges_in_range(edges, visited.len() as int),
        is_path(edges, p, a, b),
        a < visited.len(),
        visited[a as int],
        forall|v: usize, w: usize| #![trigger linked(edges, v, w)]
            v < visited.len() && visited[v as int] && linked(edges, v, w) ==> w < visited.len()
                && visited[w as int],
    ensures
        b < visited.len() && visited[b as int],
    decreases p.len(),
{
    if p.len() == 1 {
        assert(b == a);
    } else {
        assert(linked(edges, p[0], p[1]));
        let q = p.subrange(1, p.len() as int);
        assert forall|k: int| #![trigger q[k]] 0 <= k < q.len() - 1 implies linked(edges, q[k], q[k + 1]) by {
            assert(q[k] == p[k + 1]);
            assert(q[k + 1] == p[k + 2]);
            assert(linked(edges, p[k + 1], p[k + 2]));
        }
        assert(is_path(edges, q, p[1], b));
        lemma_closed_covers_path(edges, visited, q, p[1], b);
    }
}

/// A duplicate-free sequence of values below `n` has at most `n` entries.
/// This bounds the breadth-first open list and gives the search its
/// termination measure.
pub proof fn lemma_no_dup_bounded(s: Seq<usize>, n: usize)
    requires
        s.no_duplicates(),
        forall|k: int| 0 <= k < s.len() ==> s[k] < n,
    ensures
        s.len() <= n,
{
    let si = s.map_values(|x: usize| x as int);
    assert(si.no_duplicates());
    si.unique_seq_to_set();
    assert(si.to_set().subset_of(set_int_range(0, n as int))) by {
        assert forall|x: int| si.to_set().contains(x) implies set_int_range(0, n as int).contains(
            x,
        ) by {
            let k = choose|k: int| 0 <= k < si.len() && si[k] == x;
            assert(s[k] < n);
        }
    }
    lemma_int_range(0, n as int);
    lemma_len_subset(si.to_set(), set_int_range(0, n as int));
}

/// Whether some active edge joins `a` and `b` in the current edge set.
pub fn edge_between(edges: &Vec<Edge>, a: usize, b: usize) -> (r: bool)
    ensures
        r == linked(edges@, a, b),
{
    let n = edges.len();
    let mut i: usize = 0;
    while i < n
        invariant
            i <= n,
            n == edges@.len(),
            forall|j: int| 0 <= j < i ==> !edge_joins(#[trigger] edges@[j], a, b),
        decreases n - i,
    {
        let live = edges[i].live;
        let under_construction = edges[i].under_construction;
        let valid = edges[i].valid;
        let anchor = edges[i].anchor;
        if live && !under_construction && valid {
            match edges[i].target {
                EdgeTarget::Node { node } => {
                    if (anchor == a && node == b) || (anchor == b && node == a) {
                        proof {
                            assert(edge_joins(edges@[i as int], a, b));
                        }
                        return true;
                    }
                },
                EdgeTarget::Pending => {},
            }
        }
        i = i + 1;
    }
    proof {
        if linked(edges@, a, b) {
            let j = choose|j: int| 0 <= j < edges@.len() && edge_joins(edges@[j], a, b);
            assert(!edge_joins(edges@[j], a, b));
        }
    }
    false
}

/// Revalidates a route against the current edge set: every consecutive
/// pair must still be joined by an active edge.
pub fn route_valid(edges: &Vec<Edge>, route: &Vec<usize>) -> (r: bool)
    ensures
        r == route_linked(edges@, route@),
{
    let n = route.len();
    if n == 0 {
        return true;
    }
    let mut k: usize = 0;
    while k + 1 < n
        invariant
            n == route@.len(),
            n >= 1,
            k < n,
            forall|j: int| 0 <= j < k ==> linked(edges@, #[trigger] route@[j], route@[j + 1]),
        decreases n - k,
    {
        if !edge_between(edges, route[k], route[k + 1]) {
            proof {
                assert(!linked(edges@, route@[k as int], route@[k as int + 1]));
            }
            return false;
        }
        k = k + 1;
    }
    proof {
        assert forall|j: int| 0 <= j < route@.len() - 1 implies linked(
            edges@,
            #[trigger] route@[j],
            route@[j + 1],
        ) by {
            assert(j < k);
        }
    }
    true
}

/// Copies a list of node identifiers.
pub fn copy_nodes(v: &Vec<usize>) -> (r: Vec<usize>)
    ensures
        r@ == v@,
{
    let n = v.len();
    let mut r: Vec<usize> = Vec::new();
    let mut i: usize = 0;
    while i < n
        invariant
            i <= n,
            n == v@.len(),
            r@ == v@.subrange(0, i as int),
        decreases n - i,
    {
        r.push(v[i]);
        proof {
            assert(r@ =~= v@.subrange(0, i + 1));
        }
        i = i + 1;
    }
    proof {
        assert(r@ =~= v@);
    }
    r
}

/// Copies a list of node identifiers in reverse order: a path found from a
/// demand to a stored unit, read backwards, is the unit's delivery route.
pub fn reversed(v: &Vec<usize>) -> (r: Vec<usize>)
    ensures
        r@ == v@.reverse(),
{
    let n = v.len();
    let mut r: Vec<usize> = Vec::new();
    let mut i: usize = 0;
    while i < n
        invariant
            i <= n,
            n == v@.len(),
            r@.len() == i,
            forall|k: int| 0 <= k < i ==> r@[k] == v@[n - 1 - k],
        decreases n - i,
    {
        r.push(v[n - 1 - i]);
        i = i + 1;
    }
    proof {
        assert(r@ =~= v@.reverse());
    }
    r
}

/// Every node of a walk that starts in range stays in range, because every
/// live edge points below `n`.
pub proof fn lemma_path_nodes_in_range(edges: Seq<Edge>, p: Seq<usize>, a: usize, b: usize, n: int)
    requires
        edges_in_range(edges, n),
        is_path(edges, p, a, b),
        a < n,
    ensures
        forall|k: int| 0 <= k < p.len() ==> p[k] < n,
{
    assert forall|k: int| 0 <= k < p.len() implies p[k] < n by {
        if k > 0 {
            assert(linked(edges, p[k - 1], p[k]));
            lemma_linked_in_range(edges, n, p[k - 1], p[k]);
        }
    }
}

/// Reversing a list keeps it duplicate-free: the entries are the same,
/// read backwards.
pub proof fn lemma_reverse_no_dup(p: Seq<usize>)
    requires
        p.no_duplicates(),
    ensures
        p.reverse().no_duplicates(),
{
    let q = p.reverse();
    assert forall|i: int, j: int| 0 <= i < q.len() && 0 <= j < q.len() && i != j implies q[i]
        != q[j] by {
        assert(q[i] == p[p.len() - 1 - i]);
        assert(q[j] == p[p.len() - 1 - j]);
    }
}

} // verus!
