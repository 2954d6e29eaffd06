//! The edge store: a `petgraph` directed graph whose node weights are document
//! ids. The functions that call into `petgraph` are believed, not proved: each
//! states what the `petgraph` source shows of the call it makes. This library
//! only ever adds nodes and edges to such a graph, and what is said here of
//! the order of edges holds of graphs built that way.

use vstd::prelude::*;

verus! {

/// `petgraph::graph::Graph`, held as an opaque value.
#[verifier::external_type_specification]
#[verifier::external_body]
#[verifier::reject_recursive_types(N)]
#[verifier::reject_recursive_types(E)]
#[verifier::reject_recursive_types(Ty)]
#[verifier::reject_recursive_types(Ix)]
pub struct ExGraph<N, E, Ty, Ix>(petgraph::graph::Graph<N, E, Ty, Ix>);

/// `petgraph::Directed`, the marker of a graph with directed edges.
#[verifier::external_type_specification]
#[verifier::external_body]
pub struct ExDirected(petgraph::Directed);

/// The node weights of a `petgraph` graph, by node index.
pub uninterp spec fn graph_weights(g: petgraph::graph::DiGraph<usize, i32>) -> Seq<usize>;

/// The edges of a `petgraph` graph as (source index, target index), by edge
/// index, which is the order in which they were added.
pub uninterp spec fn graph_edges(g: petgraph::graph::DiGraph<usize, i32>) -> Seq<(int, int)>;

/// The largest node or edge count that a graph indexed by `u32` takes.
pub const INDEX_LIMIT: usize = 0xFFFF_FFFF;

/// An edge read in a direction: from the node one stands on to the node one
/// arrives at.
pub open spec fn oriented(e: (int, int), outgoing: bool) -> (int, int) {
    if outgoing {
        e
    } else {
        (e.1, e.0)
    }
}

/// The nodes one hop away from `a` in the given direction, most recently
/// added edge first.
pub open spec fn adjacent(edges: Seq<(int, int)>, a: int, outgoing: bool) -> Seq<int>
    decreases edges.len(),
{
    if edges.len() == 0 {
        Seq::empty()
    } else {
        let rest = adjacent(edges.drop_last(), a, outgoing);
        let e = oriented(edges.last(), outgoing);
        if e.0 == a {
            seq![e.1] + rest
        } else {
            rest
        }
    }
}

/// `Graph::new`: a graph without nodes or edges.
#[verifier::external_body]
pub(crate) fn digraph_new() -> (g: petgraph::graph::DiGraph<usize, i32>)
    ensures
        graph_weights(g).len() == 0,
        graph_edges(g).len() == 0,
{
    petgraph::graph::DiGraph::new()
}

/// `Graph::edge_count`: the number of edges.
#[verifier::external_body]
pub(crate) fn digraph_edge_count(g: &petgraph::graph::DiGraph<usize, i32>) -> (n: usize)
    ensures
        n == graph_edges(*g).len(),
{
    g.edge_count()
}

/// `Graph::add_node`: appends a node with the given weight and returns its
/// index, the former node count. It panics when the index type is exhausted,
/// which the precondition excludes.
#[verifier::external_body]
pub(crate) fn digraph_add_node(g: &mut petgraph::graph::DiGraph<usize, i32>, weight: usize) -> (index: usize)
    requires
        graph_weights(*old(g)).len() < INDEX_LIMIT,
    ensures
        index == graph_weights(*old(g)).len(),
        graph_weights(*final(g)) == graph_weights(*old(g)).push(weight),
        graph_edges(*final(g)) == graph_edges(*old(g)),
{
    g.add_node(weight).index()
}

/// `Graph::add_edge`: appends an edge between two existing nodes. It panics on
/// a node that does not exist and when the index type is exhausted, which the
/// preconditions exclude. Parallel edges are not merged.
#[verifier::external_body]
pub(crate) fn digraph_add_edge(g: &mut petgraph::graph::DiGraph<usize, i32>, a: usize, b: usize)
    requires
        a < graph_weights(*old(g)).len(),
        b < graph_weights(*old(g)).len(),
        graph_edges(*old(g)).len() < INDEX_LIMIT,
    ensures
        graph_weights(*final(g)) == graph_weights(*old(g)),
        graph_edges(*final(g)) == graph_edges(*old(g)).push((a as int, b as int)),
{
    g.add_edge(petgraph::graph::NodeIndex::new(a), petgraph::graph::NodeIndex::new(b), 1);
}

/// `Graph::contains_edge`: whether some edge leads from `a` to `b`.
#[verifier::external_body]
pub(crate) fn digraph_contains_edge(g: &petgraph::graph::DiGraph<usize, i32>, a: usize, b: usize) -> (found: bool)
    requires
        a < graph_weights(*g).len(),
        b < graph_weights(*g).len(),
    ensures
        found == graph_edges(*g).contains((a as int, b as int)),
{
    g.contains_edge(petgraph::graph::NodeIndex::new(a), petgraph::graph::NodeIndex::new(b))
}

/// `Graph::edge_endpoints`: the source and target of the edge with the given
/// index, which exists.
#[verifier::external_body]
pub(crate) fn digraph_endpoints(g: &petgraph::graph::DiGraph<usize, i32>, k: usize) -> (ends: Option<(usize, usize)>)
    requires
        k < graph_edges(*g).len(),
    ensures
        match ends {
            Some(pair) => (pair.0 as int, pair.1 as int) == graph_edges(*g)[k as int],
            None => false,
        },
{
    g.edge_endpoints(petgraph::graph::EdgeIndex::new(k)).map(|(a, b)| (a.index(), b.index()))
}

/// `Graph::edges_directed` with `Direction::Outgoing`: the targets of the
/// edges that leave `a`, most recently added edge first.
#[verifier::external_body]
pub(crate) fn digraph_targets(g: &petgraph::graph::DiGraph<usize, i32>, a: usize) -> (out: Vec<usize>)
    requires
        a < graph_weights(*g).len(),
    ensures
        out@.len() == adjacent(graph_edges(*g), a as int, true).len(),
        forall|i: int| 0 <= i < out@.len() ==> out@[i] as int == adjacent(graph_edges(*g), a as int, true)[i],
{
    let at = petgraph::graph::NodeIndex::new(a);
    g.edges_directed(at, petgraph::Direction::Outgoing).map(|e| petgraph::visit::EdgeRef::target(&e).index()).collect()
}

/// `Graph::edges_directed` with `Direction::Incoming`: the sources of the
/// edges that enter `a`, most recently added edge first.
#[verifier::external_body]
pub(crate) fn digraph_sources(g: &petgraph::graph::DiGraph<usize, i32>, a: usize) -> (out: Vec<usize>)
    requires
        a < graph_weights(*g).len(),
    ensures
        out@.len() == adjacent(graph_edges(*g), a as int, false).len(),
        forall|i: int| 0 <= i < out@.len() ==> out@[i] as int == adjacent(graph_edges(*g), a as int, false)[i],
{
    let at = petgraph::graph::NodeIndex::new(a);
    g.edges_directed(at, petgraph::Direction::Incoming).map(|e| petgraph::visit::EdgeRef::source(&e).index()).collect()
}

/// Membership in `adjacent` is the existence of the oriented edge, and no
/// node has more neighbours than the graph has edges.
pub proof fn lemma_adjacent(edges: Seq<(int, int)>, a: int, outgoing: bool)
    ensures
        adjacent(edges, a, outgoing).len() <= edges.len(),
        forall|n: int| #[trigger]
            adjacent(edges, a, outgoing).contains(n) <==> edges.contains(oriented((a, n), outgoing)),
    decreases edges.len(),
{
    if edges.len() > 0 {
        let front = edges.drop_last();
        lemma_adjacent(front, a, outgoing);
        let rest = adjacent(front, a, outgoing);
        let e = oriented(edges.last(), outgoing);
        assert forall|n: int| #[trigger]
            adjacent(edges, a, outgoing).contains(n) <==> edges.contains(oriented((a, n), outgoing)) by {
            let want = oriented((a, n), outgoing);
            if edges.contains(want) {
                let i = choose|i: int| 0 <= i < edges.len() && edges[i] == want;
                if i < front.len() {
                    assert(front[i] == want);
                    assert(rest.contains(n));
                    let j = choose|j: int| 0 <= j < rest.len() && rest[j] == n;
                    if e.0 == a {
                        assert((seq![e.1] + rest)[j + 1] == n);
                    }
                } else {
                    assert(edges.last() == want);
                    assert((seq![e.1] + rest)[0] == n);
                }
            }
            if adjacent(edges, a, outgoing).contains(n) {
                let full = adjacent(edges, a, outgoing);
                let j = choose|j: int| 0 <= j < full.len() && full[j] == n;
                if e.0 == a && j == 0 {
                    assert(edges[edges.len() - 1] == want);
                } else {
                    if e.0 == a {
                        assert(rest[j - 1] == n);
                    }
                    assert(rest.contains(n));
                    let i = choose|i: int| 0 <= i < front.len() && front[i] == want;
                    assert(edges[i] == want);
                }
            }
        }
    } else {
        assert forall|n: int| #[trigger]
            adjacent(edges, a, outgoing).contains(n) <==> edges.contains(oriented((a, n), outgoing)) by {}
    }
}

} // verus!
