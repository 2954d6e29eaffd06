//! From descriptors to the drawing's graph in one step.

use vstd::prelude::*;
use crate::digraph::INDEX_LIMIT;
use crate::filter::{annotated, marks_kept, neighborhood, FilterError, Limits};
use crate::graph::{assemble, assembled, has_id, induced, kept_ids, reference_count, views, DescriptorView, NodeDescriptor, RefGraph};

verus! {

/// The outcome of a run.
pub struct Selection {
    /// The whole graph, with the traversal's annotations.
    pub graph: RefGraph,
    /// By node index of `graph`, whether the node is kept.
    pub kept: Vec<bool>,
    /// The induced subgraph on the kept nodes.
    pub subgraph: RefGraph,
}

/// Two graphs with the same ids at the same indices and the same edges have
/// the same ids and the same edges by ids.
pub proof fn lemma_same_shape(a: &RefGraph, b: &RefGraph)
    requires
        a.size() == b.size(),
        a.edges() == b.edges(),
        a.shape_ok(),
        forall|n: int| 0 <= n < a.size() ==> (#[trigger] a.descriptors()[n]).id == b.descriptors()[n].id,
    ensures
        a.ids() == b.ids(),
        a@.edges == b@.edges,
        a@.nodes.dom() == b@.nodes.dom(),
{
    assert forall|id: usize| a.ids().contains(id) <==> b.ids().contains(id) by {
        if a.ids().contains(id) {
            let i = choose|i: int| 0 <= i < a.size() && #[trigger] a.descriptors()[i].id == id;
            assert(b.descriptors()[i].id == id);
        }
        if b.ids().contains(id) {
            let i = choose|i: int| 0 <= i < b.size() && #[trigger] b.descriptors()[i].id == id;
            assert(a.descriptors()[i].id == id);
        }
    }
    assert(a.ids() =~= b.ids());
    assert forall|e: (usize, usize)| a@.edges.contains(e) <==> b@.edges.contains(e) by {
        if a@.edges.contains(e) {
            let k = choose|k: int|
                0 <= k < a.edges().len() && a.descriptors()[(#[trigger] a.edges()[k]).0].id == e.0
                    && a.descriptors()[a.edges()[k].1].id == e.1;
            assert(b.descriptors()[b.edges()[k].0].id == e.0);
            assert(b.descriptors()[b.edges()[k].1].id == e.1);
        }
        if b@.edges.contains(e) {
            let k = choose|k: int|
                0 <= k < b.edges().len() && b.descriptors()[(#[trigger] b.edges()[k]).0].id == e.0
                    && b.descriptors()[b.edges()[k].1].id == e.1;
            assert(a.descriptors()[a.edges()[k].0].id == e.0);
            assert(a.descriptors()[a.edges()[k].1].id == e.1);
        }
    }
    assert(a@.edges =~= b@.edges);
    assert(a@.nodes.dom() =~= b@.nodes.dom());
}

/// `before` is the graph of the descriptors `ds` as it was assembled, and
/// `s` is what the filter and the extractor made of it for the target.
pub open spec fn explains(before: RefGraph, ds: Seq<DescriptorView>, target_id: usize, rule: &Limits, s: Selection) -> bool {
    let target = before.position(target_id);
    &&& before.wf()
    &&& before@ == assembled(ds)
    &&& s.graph.size() == before.size()
    &&& s.graph.edges() == before.edges()
    &&& marks_kept(&before, rule, target, s.kept@)
    &&& s.kept@[target]
    &&& forall|n: int|
        0 <= n < before.size() ==> annotated(
            &before,
            rule,
            target,
            n,
            before.descriptors()[n],
            #[trigger] s.graph.descriptors()[n],
        )
}

/// Assembles the graph of the descriptors, computes the neighbourhood of the
/// target in it and extracts the induced subgraph. Without a node of the
/// target id there is no result.
pub fn select(descriptors: &Vec<NodeDescriptor>, target_id: usize, rule: &Limits) -> (r: Result<Selection, FilterError>)
    requires
        descriptors@.len() < INDEX_LIMIT,
        reference_count(views(descriptors@)) < INDEX_LIMIT,
    ensures
        match r {
            Err(e) => e == FilterError::TargetNotFound && !has_id(views(descriptors@), target_id),
            Ok(s) => {
                &&& has_id(views(descriptors@), target_id)
                &&& s.graph.wf()
                &&& s.subgraph.wf()
                &&& s.graph@.edges == assembled(views(descriptors@)).edges
                &&& s.graph@.nodes.dom() == assembled(views(descriptors@)).nodes.dom()
                &&& s.subgraph@ == induced(s.graph@, kept_ids(&s.graph, s.kept@))
                &&& exists|before: RefGraph| explains(before, views(descriptors@), target_id, rule, s)
            },
        },
{
    let mut graph = assemble(descriptors);
    let ghost before = graph;
    proof {
        assert(before@.nodes.dom().contains(target_id) <==> before.ids().contains(target_id));
        assert(assembled(views(descriptors@)).nodes.dom().contains(target_id) <==> has_id(
            views(descriptors@),
            target_id,
        ));
    }
    let kept = match neighborhood(&mut graph, target_id, rule) {
        Ok(kept) => kept,
        Err(e) => {
            return Err(e);
        },
    };
    let subgraph = graph.extract(&kept);
    proof {
        before.lemma_wf_shape();
        assert forall|n: int| 0 <= n < before.size() implies (#[trigger] before.descriptors()[n]).id
            == graph.descriptors()[n].id by {
            assert(annotated(
                &before,
                rule,
                before.position(target_id),
                n,
                before.descriptors()[n],
                graph.descriptors()[n],
            ));
        }
        lemma_same_shape(&before, &graph);
    }
    let s = Selection { graph, kept, subgraph };
    proof {
        assert(explains(before, views(descriptors@), target_id, rule, s));
    }
    Ok(s)
}

} // verus!
