//! Node descriptors and the reference graph.

use vstd::prelude::*;
use std::collections::HashMap;
use crate::digraph::{graph_weights, graph_edges, INDEX_LIMIT, digraph_new, digraph_add_node, digraph_add_edge, digraph_endpoints, digraph_edge_count, digraph_contains_edge};

verus! {

/// One document of the corpus: its identity, what it refers to, and what the
/// neighbourhood traversal noted on it.
#[derive(Debug)]
pub struct NodeDescriptor {
    pub id: usize,
    pub filename: String,
    pub outbound_references: Vec<usize>,
    pub distance: usize,
    pub incoming_truncated: bool,
    pub outgoing_truncated: bool,
}

/// What a descriptor holds, as plain values.
pub struct DescriptorView {
    pub id: usize,
    pub filename: Seq<char>,
    pub outbound_references: Seq<usize>,
    pub distance: usize,
    pub incoming_truncated: bool,
    pub outgoing_truncated: bool,
}

impl View for NodeDescriptor {
    type V = DescriptorView;

    open spec fn view(&self) -> DescriptorView {
        DescriptorView {
            id: self.id,
            filename: self.filename@,
            outbound_references: self.outbound_references@,
            distance: self.distance,
            incoming_truncated: self.incoming_truncated,
            outgoing_truncated: self.outgoing_truncated,
        }
    }
}

impl NodeDescriptor {
    /// A descriptor as the record parser emits it: no annotation yet.
    pub fn new(id: usize, filename: String, outbound_references: Vec<usize>) -> (d: NodeDescriptor)
        ensures
            d@ == (DescriptorView {
                id,
                filename: filename@,
                outbound_references: outbound_references@,
                distance: 0,
                incoming_truncated: false,
                outgoing_truncated: false,
            }),
    {
        NodeDescriptor {
            id,
            filename,
            outbound_references,
            distance: 0,
            incoming_truncated: false,
            outgoing_truncated: false,
        }
    }

    /// A copy with the same contents.
    pub fn duplicate(&self) -> (d: NodeDescriptor)
        ensures
            d@ == self@,
    {
        NodeDescriptor {
            id: self.id,
            filename: self.filename.clone(),
            outbound_references: self.outbound_references.clone(),
            distance: self.distance,
            incoming_truncated: self.incoming_truncated,
            outgoing_truncated: self.outgoing_truncated,
        }
    }
}

/// The graph as a mathematical object: descriptors by id, and edges as pairs
/// of ids.
pub struct GraphView {
    pub nodes: Map<usize, DescriptorView>,
    pub edges: Set<(usize, usize)>,
}

/// The part of a graph that lies on the ids in `keep`: those nodes, and the
/// edges with both ends among them.
pub open spec fn induced(v: GraphView, keep: Set<usize>) -> GraphView {
    GraphView {
        nodes: v.nodes.restrict(keep),
        edges: Set::new(|e: (usize, usize)| v.edges.contains(e) && keep.contains(e.0) && keep.contains(e.1)),
    }
}

/// A directed reference graph: an arena of descriptors addressed by dense
/// index, and the edges between those indices.
pub struct RefGraph {
    pub(crate) links: petgraph::graph::DiGraph<usize, i32>,
    pub(crate) nodes: Vec<NodeDescriptor>,
}

impl RefGraph {
    /// The descriptors, by node index.
    pub closed spec fn descriptors(&self) -> Seq<DescriptorView> {
        Seq::new(self.nodes@.len(), |i: int| self.nodes@[i]@)
    }

    /// The edges as pairs of node indices, oldest first.
    pub closed spec fn edges(&self) -> Seq<(int, int)> {
        graph_edges(self.links)
    }

    /// The number of nodes.
    pub open spec fn size(&self) -> nat {
        self.descriptors().len()
    }

    /// The invariant: ids are unique, every edge joins two nodes of the graph
    /// and occurs once.
    pub closed spec fn wf(&self) -> bool {
        &&& graph_weights(self.links).len() == self.nodes@.len()
        &&& self.nodes@.len() <= INDEX_LIMIT
        &&& graph_edges(self.links).len() <= INDEX_LIMIT
        &&& forall|i: int| 0 <= i < self.nodes@.len() ==> graph_weights(self.links)[i] == (#[trigger] self.nodes@[i]).id
        &&& self.shape_ok()
    }

    /// The part of the invariant that speaks of descriptors and edges alone.
    pub open spec fn shape_ok(&self) -> bool {
        &&& self.size() <= INDEX_LIMIT
        &&& forall|i: int, j: int|
            0 <= i < self.size() && 0 <= j < self.size() && #[trigger] self.descriptors()[i].id
                == #[trigger] self.descriptors()[j].id ==> i == j
        &&& forall|k: int|
            0 <= k < self.edges().len() ==> 0 <= (#[trigger] self.edges()[k]).0 < self.size() && 0
                <= self.edges()[k].1 < self.size()
        &&& self.edges().no_duplicates()
    }

    /// Every well-formed graph has the shape that `shape_ok` describes.
    pub proof fn lemma_wf_shape(&self)
        requires
            self.wf(),
        ensures
            self.shape_ok(),
    {
    }

    /// The ids present in the graph.
    pub open spec fn ids(&self) -> Set<usize> {
        Set::new(|id: usize| exists|i: int| 0 <= i < self.size() && #[trigger] self.descriptors()[i].id == id)
    }

    /// The graph by ids.
    pub open spec fn view(&self) -> GraphView {
        GraphView {
            nodes: Map::new(
                |id: usize| self.ids().contains(id),
                |id: usize| self.descriptors()[self.position(id)],
            ),
            edges: Set::new(
                |e: (usize, usize)|
                    exists|k: int|
                        0 <= k < self.edges().len() && self.descriptors()[(#[trigger] self.edges()[k]).0].id
                            == e.0 && self.descriptors()[self.edges()[k].1].id == e.1,
            ),
        }
    }

    /// The index of the node with the given id, where there is one.
    pub open spec fn position(&self, id: usize) -> int {
        choose|i: int| 0 <= i < self.size() && #[trigger] self.descriptors()[i].id == id
    }

    /// A graph without nodes.
    pub fn new() -> (g: RefGraph)
        ensures
            g.wf(),
            g.size() == 0,
            g.edges().len() == 0,
    {
        RefGraph { links: crate::digraph::digraph_new(), nodes: Vec::new() }
    }

    /// The number of nodes.
    pub fn node_count(&self) -> (n: usize)
        ensures
            n == self.size(),
    {
        self.nodes.len()
    }

    /// The number of edges.
    pub fn edge_count(&self) -> (n: usize)
        ensures
            n == self.edges().len(),
    {
        crate::digraph::digraph_edge_count(&self.links)
    }

    /// The descriptor at a node index.
    pub fn node(&self, index: usize) -> (d: &NodeDescriptor)
        requires
            index < self.size(),
        ensures
            d@ == self.descriptors()[index as int],
    {
        &self.nodes[index]
    }

    /// The index of the node with the given id.
    pub fn index_of(&self, id: usize) -> (found: Option<usize>)
        requires
            self.wf(),
        ensures
            match found {
                Some(i) => i < self.size() && self.descriptors()[i as int].id == id,
                None => !self.ids().contains(id),
            },
    {
        let mut i: usize = 0;
        while i < self.nodes.len()
            invariant
                i <= self.nodes@.len(),
                forall|j: int| 0 <= j < i ==> self.descriptors()[j].id != id,
            decreases self.nodes@.len() - i,
        {
            if self.nodes[i].id == id {
                return Some(i);
            }
            i += 1;
        }
        None
    }

    /// Writes the traversal's annotations on the node at `index`; nothing
    /// else changes.
    pub fn annotate(&mut self, index: usize, distance: usize, incoming_truncated: bool, outgoing_truncated: bool)
        requires
            old(self).wf(),
            index < old(self).size(),
        ensures
            final(self).wf(),
            final(self).edges() == old(self).edges(),
            final(self).descriptors() == old(self).descriptors().update(
                index as int,
                (DescriptorView {
                    distance,
                    incoming_truncated,
                    outgoing_truncated,
                    ..old(self).descriptors()[index as int]
                }),
            ),
    {
        self.nodes[index].distance = distance;
        self.nodes[index].incoming_truncated = incoming_truncated;
        self.nodes[index].outgoing_truncated = outgoing_truncated;
        proof {
            assert(self.descriptors() =~= old(self).descriptors().update(
                index as int,
                (DescriptorView {
                    distance,
                    incoming_truncated,
                    outgoing_truncated,
                    ..old(self).descriptors()[index as int]
                }),
            ));
        }
    }

    /// The edges as pairs of ids (source, target), oldest first.
    pub fn edge_list(&self) -> (out: Vec<(usize, usize)>)
        requires
            self.wf(),
        ensures
            out@.len() == self.edges().len(),
            forall|k: int|
                0 <= k < out@.len() ==> #[trigger] out@[k] == (
                    self.descriptors()[self.edges()[k].0].id,
                    self.descriptors()[self.edges()[k].1].id,
                ),
    {
        let total: usize = digraph_edge_count(&self.links);
        let mut out: Vec<(usize, usize)> = Vec::new();
        let mut k: usize = 0;
        while k < total
            invariant
                self.wf(),
                total == self.edges().len(),
                k <= total,
                out@.len() == k,
                forall|j: int|
                    0 <= j < k ==> #[trigger] out@[j] == (
                        self.descriptors()[self.edges()[j].0].id,
                        self.descriptors()[self.edges()[j].1].id,
                    ),
            decreases total - k,
        {
            let ends = digraph_endpoints(&self.links, k).unwrap();
            assert(self.edges()[k as int] == (ends.0 as int, ends.1 as int));
            out.push((self.nodes[ends.0].id, self.nodes[ends.1].id));
            k += 1;
        }
        out
    }

    /// The nodes one hop from `index` in the given direction, most recently
    /// added edge first.
    pub fn neighbors(&self, index: usize, outgoing: bool) -> (out: Vec<usize>)
        requires
            self.wf(),
            index < self.size(),
        ensures
            out@.len() == crate::digraph::adjacent(self.edges(), index as int, outgoing).len(),
            forall|i: int|
                0 <= i < out@.len() ==> out@[i] as int == crate::digraph::adjacent(
                    self.edges(),
                    index as int,
                    outgoing,
                )[i],
    {
        if outgoing {
            crate::digraph::digraph_targets(&self.links, index)
        } else {
            crate::digraph::digraph_sources(&self.links, index)
        }
    }
}

/// `new_edge` joins the nodes that the ends of `old_edge` became, where
/// `origin` gives for each new node the node it came from.
pub open spec fn carried(new_edge: (int, int), old_edge: (int, int), origin: Seq<int>) -> bool {
    &&& 0 <= new_edge.0 < origin.len()
    &&& 0 <= new_edge.1 < origin.len()
    &&& origin[new_edge.0] == old_edge.0
    &&& origin[new_edge.1] == old_edge.1
}

/// The ids of the nodes that `kept` marks in `g`.
pub open spec fn kept_ids(g: &RefGraph, kept: Seq<bool>) -> Set<usize> {
    Set::new(
        |id: usize| exists|i: int| 0 <= i < g.size() && i < kept.len() && kept[i] && #[trigger] g.descriptors()[i].id == id,
    )
}

impl RefGraph {
    /// In a graph with unique ids, the node with the id of node `i` is `i`.
    pub proof fn lemma_position(&self, i: int)
        requires
            self.shape_ok(),
            0 <= i < self.size(),
        ensures
            self.ids().contains(self.descriptors()[i].id),
            self.position(self.descriptors()[i].id) == i,
    {
        let id = self.descriptors()[i].id;
        assert(self.descriptors()[i].id == id);
    }

    /// The induced subgraph on the marked nodes, as a new graph: those nodes
    /// with their descriptors as they are, annotations included, and the
    /// edges with both ends marked. `self` is left as it is.
    pub fn extract(&self, kept: &Vec<bool>) -> (sub: RefGraph)
        requires
            self.wf(),
            kept@.len() == self.size(),
        ensures
            sub.wf(),
            sub@ == induced(self@, kept_ids(self, kept@)),
    {
        let count: usize = self.nodes.len();
        let mut links = digraph_new();
        let mut nodes: Vec<NodeDescriptor> = Vec::new();
        let mut remap: Vec<Option<usize>> = Vec::new();
        let ghost mut origin: Seq<int> = Seq::empty();
        let mut i: usize = 0;
        while i < count
            invariant
                self.wf(),
                count == self.nodes@.len(),
                kept@.len() == count,
                i <= count,
                remap@.len() == i,
                graph_edges(links).len() == 0,
                graph_weights(links).len() == nodes@.len(),
                origin.len() == nodes@.len(),
                nodes@.len() <= i,
                forall|j: int| 0 <= j < i ==> (kept@[j] <==> (#[trigger] remap@[j]) is Some),
                forall|j: int|
                    0 <= j < i && (#[trigger] remap@[j]) is Some ==> remap@[j]->0 < nodes@.len() && origin[remap@[j]->0 as int]
                        == j,
                forall|p: int|
                    0 <= p < nodes@.len() ==> 0 <= (#[trigger] origin[p]) < i && remap@[origin[p]] == Some(p as usize)
                        && nodes@[p]@ == self.nodes@[origin[p]]@ && graph_weights(links)[p] == self.nodes@[origin[p]].id,
            decreases count - i,
        {
            if kept[i] {
                let d = &self.nodes[i];
                let p = digraph_add_node(&mut links, d.id);
                nodes.push(d.duplicate());
                remap.push(Some(p));
                proof {
                    origin = origin.push(i as int);
                }
            } else {
                remap.push(None);
            }
            i += 1;
        }
        let total: usize = digraph_edge_count(&self.links);
        let ghost mut from: Seq<int> = Seq::empty();
        let mut k: usize = 0;
        while k < total
            invariant
                self.wf(),
                count == self.nodes@.len(),
                kept@.len() == count,
                remap@.len() == count,
                total == graph_edges(self.links).len(),
                k <= total,
                graph_weights(links).len() == nodes@.len(),
                origin.len() == nodes@.len(),
                nodes@.len() <= count,
                forall|j: int| 0 <= j < count ==> (kept@[j] <==> (#[trigger] remap@[j]) is Some),
                forall|j: int|
                    0 <= j < count && (#[trigger] remap@[j]) is Some ==> remap@[j]->0 < nodes@.len()
                        && origin[remap@[j]->0 as int] == j,
                forall|p: int|
                    0 <= p < nodes@.len() ==> 0 <= (#[trigger] origin[p]) < count && remap@[origin[p]] == Some(
                        p as usize,
                    ) && nodes@[p]@ == self.nodes@[origin[p]]@ && graph_weights(links)[p] == self.nodes@[origin[p]].id,
                from.len() == graph_edges(links).len(),
                from.len() <= k,
                forall|p: int| 0 <= p < from.len() ==> 0 <= (#[trigger] from[p]) < k,
                forall|p: int, q: int| 0 <= p < q < from.len() ==> #[trigger] from[p] < #[trigger] from[q],
                forall|p: int|
                    0 <= p < from.len() ==> carried(graph_edges(links)[p], graph_edges(self.links)[#[trigger] from[p]], origin),
                forall|e: int|
                    0 <= e < k && kept@[(#[trigger] graph_edges(self.links)[e]).0] && kept@[graph_edges(self.links)[e].1]
                        ==> exists|p: int| 0 <= p < from.len() && #[trigger] from[p] == e,
            decreases total - k,
        {
            let ends = digraph_endpoints(&self.links, k).unwrap();
            let a: usize = ends.0;
            let b: usize = ends.1;
            let ghost before = from;
            assert(graph_edges(self.links)[k as int] == (a as int, b as int));
            assert(a < count && b < count);
            if kept[a] && kept[b] {
                let na: usize = remap[a].unwrap();
                let nb: usize = remap[b].unwrap();
                assert(remap@[a as int] is Some && remap@[b as int] is Some);
                assert(origin[na as int] == a && origin[nb as int] == b);
                digraph_add_edge(&mut links, na, nb);
                proof {
                    from = from.push(k as int);
                    assert(from[from.len() - 1] == k);
                    assert forall|p: int| 0 <= p < from.len() implies carried(
                        graph_edges(links)[p],
                        graph_edges(self.links)[#[trigger] from[p]],
                        origin,
                    ) by {
                        if p < before.len() {
                            assert(from[p] == before[p]);
                        }
                    }
                }
            }
            proof {
                assert forall|e: int|
                    0 <= e < k + 1 && kept@[(#[trigger] graph_edges(self.links)[e]).0] && kept@[graph_edges(
                        self.links,
                    )[e].1] implies exists|p: int| 0 <= p < from.len() && #[trigger] from[p] == e by {
                    if e < k {
                        let p = choose|p: int| 0 <= p < before.len() && #[trigger] before[p] == e;
                        assert(from[p] == e);
                    } else {
                        assert(from[from.len() - 1] == e);
                    }
                }
            }
            k += 1;
        }
        let sub = RefGraph { links, nodes };
        proof {
            let old_edges = graph_edges(self.links);
            let new_edges = graph_edges(sub.links);
            assert forall|p: int, q: int| 0 <= p < new_edges.len() && 0 <= q < new_edges.len() && p != q implies new_edges[p]
                != new_edges[q] by {
                let x = from[p];
                let y = from[q];
                if p < q {
                    assert(from[p] < from[q]);
                } else {
                    assert(from[q] < from[p]);
                }
                assert(old_edges[x] != old_edges[y]);
            }
            assert forall|p: int| 0 <= p < sub.nodes@.len() implies graph_weights(sub.links)[p] == (#[trigger] sub.nodes@[p]).id by {
                let j = origin[p];
                assert(sub.nodes@[p]@ == self.nodes@[j]@);
            }
            assert forall|p: int| 0 <= p < sub.size() implies 0 <= (#[trigger] origin[p]) < self.size() && kept@[origin[p]]
                && sub.descriptors()[p] == self.descriptors()[origin[p]] by {
                assert(remap@[origin[p]] is Some);
            }
            assert forall|p: int, q: int|
                0 <= p < sub.size() && 0 <= q < sub.size() && #[trigger] sub.descriptors()[p].id == #[trigger] sub.descriptors()[q].id
                implies p == q by {
                let x = origin[p];
                let y = origin[q];
                assert(self.descriptors()[x].id == self.descriptors()[y].id);
                assert(x == y);
                assert(remap@[x] == Some(p as usize));
                assert(remap@[y] == Some(q as usize));
            }
            assert forall|e: int| 0 <= e < new_edges.len() implies 0 <= (#[trigger] new_edges[e]).0 < sub.size() && 0
                <= new_edges[e].1 < sub.size() by {
                let _ = from[e];
            }
            assert(sub.wf());
            assert forall|j: int| 0 <= j < self.size() && kept@[j] implies exists|p: int|
                0 <= p < sub.size() && #[trigger] origin[p] == j by {
                assert(remap@[j] is Some);
                assert(origin[remap@[j]->0 as int] == j);
            }
            self.lemma_extract_view(kept@, &sub, origin, from);
        }
        sub
    }

    /// The step from what `extract` built, index by index, to the graphs by
    /// ids. `origin` gives the node of `self` that a node of `sub` came from,
    /// `from` the edge of `self` that an edge of `sub` came from.
    proof fn lemma_extract_view(&self, kept: Seq<bool>, sub: &RefGraph, origin: Seq<int>, from: Seq<int>)
        requires
            self.wf(),
            sub.wf(),
            kept.len() == self.size(),
            origin.len() == sub.size(),
            forall|p: int|
                0 <= p < sub.size() ==> 0 <= (#[trigger] origin[p]) < self.size() && kept[origin[p]]
                    && sub.descriptors()[p] == self.descriptors()[origin[p]],
            forall|j: int| 0 <= j < self.size() && kept[j] ==> exists|p: int| 0 <= p < sub.size() && #[trigger] origin[p] == j,
            from.len() == sub.edges().len(),
            forall|p: int|
                0 <= p < from.len() ==> 0 <= (#[trigger] from[p]) < self.edges().len() && carried(
                    sub.edges()[p],
                    self.edges()[from[p]],
                    origin,
                ),
            forall|e: int|
                0 <= e < self.edges().len() && kept[(#[trigger] self.edges()[e]).0] && kept[self.edges()[e].1]
                    ==> exists|p: int| 0 <= p < from.len() && #[trigger] from[p] == e,
        ensures
            sub@ == induced(self@, kept_ids(self, kept)),
    {
        let keep = kept_ids(self, kept);
        let want = induced(self@, keep);
        assert forall|id: usize| #[trigger] sub.ids().contains(id) <==> (self.ids().contains(id) && keep.contains(id)) by {
            if sub.ids().contains(id) {
                let p = choose|p: int| 0 <= p < sub.size() && #[trigger] sub.descriptors()[p].id == id;
                let j = origin[p];
                assert(self.descriptors()[j].id == id);
            }
            if self.ids().contains(id) && keep.contains(id) {
                let j = choose|j: int|
                    0 <= j < self.size() && j < kept.len() && kept[j] && #[trigger] self.descriptors()[j].id == id;
                let p = choose|p: int| 0 <= p < sub.size() && #[trigger] origin[p] == j;
                assert(sub.descriptors()[p].id == id);
            }
        }
        assert forall|id: usize| #[trigger] sub@.nodes.dom().contains(id) <==> want.nodes.dom().contains(id) by {
            assert(sub@.nodes.dom().contains(id) <==> sub.ids().contains(id));
            assert(self@.nodes.dom().contains(id) <==> self.ids().contains(id));
        }
        assert forall|id: usize| #[trigger] sub@.nodes.dom().contains(id) implies sub@.nodes[id] == want.nodes[id] by {
            assert(sub.ids().contains(id));
            let p = sub.position(id);
            let j = origin[p];
            assert(self.descriptors()[j].id == id);
            self.lemma_position(j);
        }
        assert(sub@.nodes =~= want.nodes);
        assert forall|e: (usize, usize)| sub@.edges.contains(e) <==> want.edges.contains(e) by {
            if sub@.edges.contains(e) {
                let p = choose|p: int|
                    0 <= p < sub.edges().len() && sub.descriptors()[(#[trigger] sub.edges()[p]).0].id == e.0
                        && sub.descriptors()[sub.edges()[p].1].id == e.1;
                let k = from[p];
                let x = self.edges()[k].0;
                let y = self.edges()[k].1;
                assert(origin[sub.edges()[p].0] == x);
                assert(origin[sub.edges()[p].1] == y);
                assert(self.descriptors()[x].id == e.0);
                assert(self.descriptors()[y].id == e.1);
                assert(self@.edges.contains(e));
                assert(keep.contains(e.0));
                assert(keep.contains(e.1));
            }
            if want.edges.contains(e) {
                let k = choose|k: int|
                    0 <= k < self.edges().len() && self.descriptors()[(#[trigger] self.edges()[k]).0].id == e.0
                        && self.descriptors()[self.edges()[k].1].id == e.1;
                let x = self.edges()[k].0;
                let y = self.edges()[k].1;
                let i = choose|i: int|
                    0 <= i < self.size() && i < kept.len() && kept[i] && #[trigger] self.descriptors()[i].id == e.0;
                let j = choose|j: int|
                    0 <= j < self.size() && j < kept.len() && kept[j] && #[trigger] self.descriptors()[j].id == e.1;
                assert(i == x);
                assert(j == y);
                let p = choose|p: int| 0 <= p < from.len() && #[trigger] from[p] == k;
                let u = sub.edges()[p].0;
                let v = sub.edges()[p].1;
                assert(0 <= u < sub.size() && 0 <= v < sub.size());
                assert(sub.descriptors()[u] == self.descriptors()[origin[u]]);
                assert(sub.descriptors()[v] == self.descriptors()[origin[v]]);
                assert(sub.descriptors()[sub.edges()[p].0].id == e.0);
            }
        }
        assert(sub@.edges =~= want.edges);
    }
}

/// Taking the induced subgraph a second time, on the same ids, changes
/// nothing.
pub proof fn lemma_induced_idempotent(v: GraphView, keep: Set<usize>)
    ensures
        induced(induced(v, keep), keep) == induced(v, keep),
{
    let once = induced(v, keep);
    let twice = induced(once, keep);
    assert(twice.nodes =~= once.nodes);
    assert(twice.edges =~= once.edges);
}

/// Extracting once more from an extracted graph, with the same ids marked,
/// gives the same graph.
pub proof fn lemma_extract_again(g: &RefGraph, kept: Seq<bool>, sub: &RefGraph, again: Seq<bool>, sub2: &RefGraph)
    requires
        sub@ == induced(g@, kept_ids(g, kept)),
        sub2@ == induced(sub@, kept_ids(sub, again)),
        kept_ids(sub, again) == kept_ids(g, kept),
    ensures
        sub2@ == sub@,
{
    lemma_induced_idempotent(g@, kept_ids(g, kept));
}

/// No edge of an induced subgraph leaves it: both ends of each edge are among
/// its nodes, provided that held of the graph it was taken from.
pub proof fn lemma_induced_has_no_dangling_edge(v: GraphView, keep: Set<usize>, e: (usize, usize))
    requires
        forall|x: (usize, usize)| #[trigger] v.edges.contains(x) ==> v.nodes.dom().contains(x.0) && v.nodes.dom().contains(x.1),
        induced(v, keep).edges.contains(e),
    ensures
        induced(v, keep).nodes.dom().contains(e.0),
        induced(v, keep).nodes.dom().contains(e.1),
{
}

impl RefGraph {
    /// Both ends of every edge of a well-formed graph are ids of its nodes.
    pub proof fn lemma_no_dangling_edge(&self, e: (usize, usize))
        requires
            self.wf(),
            self@.edges.contains(e),
        ensures
            self@.nodes.dom().contains(e.0),
            self@.nodes.dom().contains(e.1),
    {
        let k = choose|k: int|
            0 <= k < self.edges().len() && self.descriptors()[(#[trigger] self.edges()[k]).0].id == e.0
                && self.descriptors()[self.edges()[k].1].id == e.1;
        self.lemma_position(self.edges()[k].0);
        self.lemma_position(self.edges()[k].1);
    }
}

// ---------------------------------------------------------------------------
// Assembly.
// ---------------------------------------------------------------------------

/// The descriptors of a vector, as plain values.
pub open spec fn views(v: Seq<NodeDescriptor>) -> Seq<DescriptorView> {
    Seq::new(v.len(), |i: int| v[i]@)
}

/// Some descriptor has the id.
pub open spec fn has_id(ds: Seq<DescriptorView>, id: usize) -> bool {
    exists|j: int| 0 <= j < ds.len() && #[trigger] ds[j].id == id
}

/// Descriptor `j` has the id, and none after it has.
pub open spec fn is_last_with(ds: Seq<DescriptorView>, id: usize, j: int) -> bool {
    &&& 0 <= j < ds.len()
    &&& ds[j].id == id
    &&& forall|k: int| j < k < ds.len() ==> (#[trigger] ds[k]).id != id
}

/// The position of the last descriptor with the id.
pub open spec fn last_with(ds: Seq<DescriptorView>, id: usize) -> int {
    choose|j: int| is_last_with(ds, id, j)
}

/// Some descriptor with id `e.0` lists `e.1` among its references.
pub open spec fn refers(ds: Seq<DescriptorView>, e: (usize, usize)) -> bool {
    exists|j: int, r: int|
        0 <= j < ds.len() && 0 <= r < ds[j].outbound_references.len() && ds[j].id == e.0
            && #[trigger] ds[j].outbound_references[r] == e.1
}

/// The graph that a sequence of descriptors stands for: one node per id,
/// with the last descriptor of that id; one edge per pair of ids that some
/// descriptor's references give, where the id referred to is a node.
pub open spec fn assembled(ds: Seq<DescriptorView>) -> GraphView {
    GraphView {
        nodes: Map::new(|id: usize| has_id(ds, id), |id: usize| ds[last_with(ds, id)]),
        edges: Set::new(|e: (usize, usize)| refers(ds, e) && has_id(ds, e.1)),
    }
}

/// The number of references in all descriptors together.
pub open spec fn reference_count(ds: Seq<DescriptorView>) -> nat
    decreases ds.len(),
{
    if ds.len() == 0 {
        0
    } else {
        reference_count(ds.drop_last()) + ds.last().outbound_references.len()
    }
}

proof fn lemma_count_step(ds: Seq<DescriptorView>, i: int)
    requires
        0 <= i < ds.len(),
    ensures
        reference_count(ds.take(i + 1)) == reference_count(ds.take(i)) + ds[i].outbound_references.len(),
{
    assert(ds.take(i + 1).drop_last() =~= ds.take(i));
}

proof fn lemma_count_prefix(ds: Seq<DescriptorView>, i: int)
    requires
        0 <= i <= ds.len(),
    ensures
        reference_count(ds.take(i)) <= reference_count(ds),
    decreases ds.len() - i,
{
    if i == ds.len() {
        assert(ds.take(i) =~= ds);
    } else {
        lemma_count_step(ds, i);
        lemma_count_prefix(ds, i + 1);
    }
}

/// Node indices by id: each node's id leads to the node, and nothing else
/// is in the map.
spec fn indexed(weights: Seq<usize>, index: Map<usize, usize>) -> bool {
    &&& forall|p: int| 0 <= p < weights.len() ==> index.contains_key(#[trigger] weights[p]) && index[weights[p]] == p
    &&& forall|id: usize| #[trigger] index.contains_key(id) ==> index[id] < weights.len() && weights[index[id] as int] == id
}

/// Node `p` holds descriptor `o`, the last of the first `i` with its id.
spec fn placed(ds: Seq<DescriptorView>, i: int, o: int, held: DescriptorView, weight: usize) -> bool {
    &&& 0 <= o < i
    &&& held == ds[o]
    &&& weight == ds[o].id
    &&& forall|j: int| o < j < i ==> (#[trigger] ds[j]).id != weight
}

/// Edge `e` between node indices is there because descriptor `w.0` lists, at
/// place `w.1`, the id of the node it leads to.
spec fn caused(ds: Seq<DescriptorView>, weights: Seq<usize>, e: (int, int), w: (int, int)) -> bool {
    &&& 0 <= e.0 < weights.len()
    &&& 0 <= e.1 < weights.len()
    &&& 0 <= w.0 < ds.len()
    &&& 0 <= w.1 < ds[w.0].outbound_references.len()
    &&& ds[w.0].id == weights[e.0]
    &&& ds[w.0].outbound_references[w.1] == weights[e.1]
}

/// Reference `r` of descriptor `j` is an edge, if it leads to a node.
spec fn drawn(ds: Seq<DescriptorView>, index: Map<usize, usize>, edges: Seq<(int, int)>, j: int, r: int) -> bool {
    index.contains_key(ds[j].outbound_references[r]) ==> edges.contains(
        (index[ds[j].id] as int, index[ds[j].outbound_references[r]] as int),
    )
}

fn lookup(index: &HashMap<usize, usize>, id: usize) -> (found: Option<usize>)
    ensures
        match found {
            Some(p) => index@.contains_key(id) && index@[id] == p,
            None => !index@.contains_key(id),
        },
{
    broadcast use vstd::std_specs::hash::group_hash_axioms;

    match index.get(&id) {
        Some(p) => Some(*p),
        None => None,
    }
}

/// Builds the graph of a set of descriptors. A later descriptor replaces an
/// earlier one with the same id; the references of both count. A reference
/// to an id that no descriptor has gives no edge, and a reference made twice
/// gives one.
pub fn assemble(descriptors: &Vec<NodeDescriptor>) -> (g: RefGraph)
    requires
        descriptors@.len() < INDEX_LIMIT,
        reference_count(views(descriptors@)) < INDEX_LIMIT,
    ensures
        g.wf(),
        g@ == assembled(views(descriptors@)),
{
    broadcast use vstd::std_specs::hash::group_hash_axioms;

    let ghost ds = views(descriptors@);
    let n: usize = descriptors.len();
    let mut links = digraph_new();
    let mut nodes: Vec<NodeDescriptor> = Vec::new();
    let mut index: HashMap<usize, usize> = HashMap::new();
    let ghost mut owner: Seq<int> = Seq::empty();
    let mut i: usize = 0;
    while i < n
        invariant
            n == descriptors@.len(),
            ds == views(descriptors@),
            n < INDEX_LIMIT,
            i <= n,
            graph_edges(links).len() == 0,
            graph_weights(links).len() == nodes@.len(),
            owner.len() == nodes@.len(),
            nodes@.len() <= i,
            indexed(graph_weights(links), index@),
            forall|p: int|
                0 <= p < nodes@.len() ==> placed(ds, i as int, #[trigger] owner[p], nodes@[p]@, graph_weights(links)[p]),
            forall|j: int| 0 <= j < i ==> index@.contains_key((#[trigger] ds[j]).id),
        decreases n - i,
    {
        let d = &descriptors[i];
        assert(d@ == ds[i as int]);
        let ghost owner0 = owner;
        let hit = lookup(&index, d.id);
        match hit {
            Some(p) => {
                nodes.set(p, d.duplicate());
                proof {
                    owner = owner.update(p as int, i as int);
                }
            },
            None => {
                let p = digraph_add_node(&mut links, d.id);
                nodes.push(d.duplicate());
                index.insert(d.id, p);
                proof {
                    owner = owner.push(i as int);
                }
            },
        }
        proof {
            assert forall|p: int| 0 <= p < nodes@.len() implies placed(
                ds,
                i + 1,
                #[trigger] owner[p],
                nodes@[p]@,
                graph_weights(links)[p],
            ) by {
                if p < owner0.len() && owner[p] == owner0[p] {
                    assert(placed(ds, i as int, owner0[p], nodes@[p]@, graph_weights(links)[p]));
                }
            }
        }
        i += 1;
    }
    let ghost weights = graph_weights(links);
    let ghost why: Seq<(int, int)> = Seq::empty();
    let ghost mut why = why;
    let mut i: usize = 0;
    while i < n
        invariant
            n == descriptors@.len(),
            ds == views(descriptors@),
            ds.len() == n,
            reference_count(ds) < INDEX_LIMIT,
            i <= n,
            graph_weights(links) == weights,
            weights.len() == nodes@.len(),
            indexed(weights, index@),
            forall|j: int| 0 <= j < n ==> index@.contains_key((#[trigger] ds[j]).id),
            why.len() == graph_edges(links).len(),
            forall|k: int| 0 <= k < why.len() ==> caused(ds, weights, graph_edges(links)[k], #[trigger] why[k]),
            graph_edges(links).no_duplicates(),
            graph_edges(links).len() <= reference_count(ds.take(i as int)),
            forall|j: int, r: int|
                0 <= j < i && 0 <= r < ds[j].outbound_references.len() ==> #[trigger] drawn(
                    ds,
                    index@,
                    graph_edges(links),
                    j,
                    r,
                ),
        decreases n - i,
    {
        let d = &descriptors[i];
        assert(d@ == ds[i as int]);
        assert(index@.contains_key(ds[i as int].id));
        let from = lookup(&index, d.id);
        let src: usize = from.unwrap();
        let m: usize = d.outbound_references.len();
        proof {
            lemma_count_step(ds, i as int);
            lemma_count_prefix(ds, i + 1);
        }
        let mut r: usize = 0;
        while r < m
            invariant
                i < n,
                ds.len() == n,
                d@ == ds[i as int],
                m == ds[i as int].outbound_references.len(),
                r <= m,
                reference_count(ds.take(i as int)) + m < INDEX_LIMIT,
                graph_weights(links) == weights,
                indexed(weights, index@),
                index@.contains_key(d.id),
                index@[d.id] == src,
                why.len() == graph_edges(links).len(),
                forall|k: int| 0 <= k < why.len() ==> caused(ds, weights, graph_edges(links)[k], #[trigger] why[k]),
                graph_edges(links).no_duplicates(),
                graph_edges(links).len() <= reference_count(ds.take(i as int)) + r,
                forall|j: int, q: int|
                    0 <= j < i && 0 <= q < ds[j].outbound_references.len() ==> #[trigger] drawn(
                        ds,
                        index@,
                        graph_edges(links),
                        j,
                        q,
                    ),
                forall|q: int| 0 <= q < r ==> #[trigger] drawn(ds, index@, graph_edges(links), i as int, q),
            decreases m - r,
        {
            let to: usize = d.outbound_references[r];
            let ghost edges0 = graph_edges(links);
            let hit = lookup(&index, to);
            match hit {
                Some(t) => {
                    if !digraph_contains_edge(&links, src, t) {
                        digraph_add_edge(&mut links, src, t);
                        proof {
                            why = why.push((i as int, r as int));
                            let edges1 = graph_edges(links);
                            assert forall|e: (int, int)| edges0.contains(e) implies edges1.contains(e) by {
                                let k = choose|k: int| 0 <= k < edges0.len() && edges0[k] == e;
                                assert(edges1[k] == e);
                            }
                            assert(edges1[edges0.len() as int] == (src as int, t as int));
                            assert forall|j: int, q: int|
                                0 <= j < i && 0 <= q < ds[j].outbound_references.len() implies #[trigger] drawn(
                                ds,
                                index@,
                                edges1,
                                j,
                                q,
                            ) by {
                                assert(drawn(ds, index@, edges0, j, q));
                            }
                            assert forall|q: int| 0 <= q < r implies #[trigger] drawn(ds, index@, edges1, i as int, q) by {
                                assert(drawn(ds, index@, edges0, i as int, q));
                            }
                        }
                    }
                },
                None => {},
            }
            r += 1;
        }
        i += 1;
    }
    let g = RefGraph { links, nodes };
    proof {
        let edges = graph_edges(g.links);
        assert forall|p: int, q: int|
            0 <= p < g.size() && 0 <= q < g.size() && #[trigger] g.descriptors()[p].id == #[trigger] g.descriptors()[q].id
            implies p == q by {
            assert(placed(ds, n as int, owner[p], g.nodes@[p]@, weights[p]));
            assert(placed(ds, n as int, owner[q], g.nodes@[q]@, weights[q]));
            assert(index@[weights[p]] == p);
            assert(index@[weights[q]] == q);
        }
        assert forall|p: int| 0 <= p < g.nodes@.len() implies weights[p] == (#[trigger] g.nodes@[p]).id by {
            assert(placed(ds, n as int, owner[p], g.nodes@[p]@, weights[p]));
        }
        assert forall|k: int| 0 <= k < edges.len() implies 0 <= (#[trigger] edges[k]).0 < g.size() && 0 <= edges[k].1
            < g.size() by {
            assert(caused(ds, weights, edges[k], why[k]));
        }
        lemma_count_prefix(ds, n as int);
        assert(g.wf());
        let want = assembled(ds);
        assert forall|id: usize| #[trigger] g.ids().contains(id) <==> has_id(ds, id) by {
            if g.ids().contains(id) {
                let p = choose|p: int| 0 <= p < g.size() && #[trigger] g.descriptors()[p].id == id;
                assert(placed(ds, n as int, owner[p], g.nodes@[p]@, weights[p]));
                assert(ds[owner[p]].id == id);
            }
            if has_id(ds, id) {
                let j = choose|j: int| 0 <= j < ds.len() && #[trigger] ds[j].id == id;
                assert(index@.contains_key(ds[j].id));
                let p = index@[id] as int;
                assert(placed(ds, n as int, owner[p], g.nodes@[p]@, weights[p]));
                assert(g.descriptors()[p].id == id);
            }
        }
        assert forall|id: usize| #[trigger] g@.nodes.dom().contains(id) <==> want.nodes.dom().contains(id) by {
            assert(g@.nodes.dom().contains(id) <==> g.ids().contains(id));
        }
        assert forall|id: usize| #[trigger] g@.nodes.dom().contains(id) implies g@.nodes[id] == want.nodes[id] by {
            assert(g.ids().contains(id));
            let p = g.position(id);
            let o = owner[p];
            assert(placed(ds, n as int, o, g.nodes@[p]@, weights[p]));
            assert(is_last_with(ds, id, o));
            let l = last_with(ds, id);
            assert(is_last_with(ds, id, l));
            if l < o {
                assert(ds[o].id != id);
            }
            if o < l {
                assert(ds[l].id != id);
            }
        }
        assert(g@.nodes =~= want.nodes);
        assert forall|e: (usize, usize)| g@.edges.contains(e) <==> want.edges.contains(e) by {
            if g@.edges.contains(e) {
                let k = choose|k: int|
                    0 <= k < g.edges().len() && g.descriptors()[(#[trigger] g.edges()[k]).0].id == e.0
                        && g.descriptors()[g.edges()[k].1].id == e.1;
                assert(caused(ds, weights, edges[k], why[k]));
                let j = why[k].0;
                let r = why[k].1;
                assert(ds[j].outbound_references[r] == e.1);
                assert(refers(ds, e));
                let t = edges[k].1;
                assert(placed(ds, n as int, owner[t], g.nodes@[t]@, weights[t]));
                assert(ds[owner[t]].id == e.1);
            }
            if want.edges.contains(e) {
                let (j, r) = choose|j: int, r: int|
                    0 <= j < ds.len() && 0 <= r < ds[j].outbound_references.len() && ds[j].id == e.0
                        && #[trigger] ds[j].outbound_references[r] == e.1;
                let h = choose|h: int| 0 <= h < ds.len() && #[trigger] ds[h].id == e.1;
                assert(index@.contains_key(ds[h].id));
                assert(index@.contains_key(ds[j].id));
                assert(drawn(ds, index@, edges, j, r));
                let x = (index@[e.0] as int, index@[e.1] as int);
                let k = choose|k: int| 0 <= k < edges.len() && edges[k] == x;
                assert(g.descriptors()[g.edges()[k].0].id == e.0);
                assert(g.descriptors()[g.edges()[k].1].id == e.1);
            }
        }
        assert(g@.edges =~= want.edges);
    }
    g
}

} // verus!
