use refgraph::graph::{assemble, NodeDescriptor, RefGraph};

fn node(id: usize, name: &str, refs: Vec<usize>) -> NodeDescriptor {
    NodeDescriptor::new(id, name.to_string(), refs)
}

#[test]
fn repeated_references_give_one_edge() {
    let g = assemble(&vec![node(1, "a", vec![2, 2, 2]), node(2, "b", vec![1, 1])]);
    assert_eq!(g.node_count(), 2);
    assert_eq!(g.edge_list(), vec![(1, 2), (2, 1)]);
    assert_eq!(g.edge_count(), 2);
}

#[test]
fn dangling_references_are_dropped() {
    let g = assemble(&vec![node(1, "a", vec![2, 77]), node(2, "b", vec![88])]);
    assert_eq!(g.edge_list(), vec![(1, 2)]);
}

#[test]
fn later_descriptor_replaces_earlier_one() {
    let g = assemble(&vec![node(1, "first", vec![2]), node(2, "b", vec![]), node(1, "second", vec![3]), node(3, "c", vec![])]);
    assert_eq!(g.node_count(), 3);
    let i = g.index_of(1).unwrap();
    assert_eq!(g.node(i).filename, "second");
    assert_eq!(g.node(i).outbound_references, vec![3]);
    let mut edges = g.edge_list();
    edges.sort();
    assert_eq!(edges, vec![(1, 2), (1, 3)]);
}

#[test]
fn empty_corpus_gives_empty_graph() {
    let g = assemble(&Vec::new());
    assert_eq!(g.node_count(), 0);
    assert_eq!(g.edge_count(), 0);
    assert_eq!(g.index_of(1), None);
    let e = RefGraph::new();
    assert_eq!(e.node_count(), 0);
}

#[test]
fn self_reference_is_an_edge() {
    let g = assemble(&vec![node(1, "a", vec![1])]);
    assert_eq!(g.edge_list(), vec![(1, 1)]);
    assert_eq!(g.neighbors(0, true), vec![0]);
    assert_eq!(g.neighbors(0, false), vec![0]);
}

#[test]
fn neighbors_come_most_recent_first() {
    let g = assemble(&vec![node(1, "a", vec![2, 3, 4]), node(2, "b", vec![4]), node(3, "c", vec![4]), node(4, "d", vec![])]);
    let a = g.index_of(1).unwrap();
    let d = g.index_of(4).unwrap();
    let out: Vec<usize> = g.neighbors(a, true).iter().map(|&i| g.node(i).id).collect();
    assert_eq!(out, vec![4, 3, 2]);
    let inc: Vec<usize> = g.neighbors(d, false).iter().map(|&i| g.node(i).id).collect();
    assert_eq!(inc, vec![3, 2, 1]);
}

#[test]
fn extracted_graph_has_no_dangling_edge() {
    let g = assemble(&vec![node(1, "a", vec![2, 3]), node(2, "b", vec![3]), node(3, "c", vec![1])]);
    let kept = vec![true, false, true];
    let sub = g.extract(&kept);
    assert_eq!(sub.node_count(), 2);
    let ids: Vec<usize> = (0..sub.node_count()).map(|i| sub.node(i).id).collect();
    assert_eq!(ids, vec![1, 3]);
    let edges = sub.edge_list();
    assert_eq!(edges, vec![(1, 3), (3, 1)]);
    for (s, t) in edges {
        assert!(ids.contains(&s));
        assert!(ids.contains(&t));
    }
    // the full graph is left as it was
    assert_eq!(g.node_count(), 3);
    assert_eq!(g.edge_count(), 4);
}

#[test]
fn extraction_is_idempotent() {
    let mut g = assemble(&vec![node(1, "a", vec![2, 3]), node(2, "b", vec![3]), node(3, "c", vec![1]), node(4, "d", vec![1])]);
    g.annotate(0, 7, true, false);
    let kept = vec![true, true, false, true];
    let once = g.extract(&kept);
    let again = once.extract(&vec![true; once.node_count()]);
    assert_eq!(once.node_count(), again.node_count());
    assert_eq!(once.edge_list(), again.edge_list());
    for i in 0..once.node_count() {
        assert_eq!(once.node(i).id, again.node(i).id);
        assert_eq!(once.node(i).filename, again.node(i).filename);
        assert_eq!(once.node(i).distance, again.node(i).distance);
        assert_eq!(once.node(i).incoming_truncated, again.node(i).incoming_truncated);
        assert_eq!(once.node(i).outgoing_truncated, again.node(i).outgoing_truncated);
    }
    assert_eq!(once.node(0).distance, 7);
    assert!(once.node(0).incoming_truncated);
}

#[test]
fn extracting_nothing_gives_empty_graph() {
    let g = assemble(&vec![node(1, "a", vec![2]), node(2, "b", vec![])]);
    let sub = g.extract(&vec![false, false]);
    assert_eq!(sub.node_count(), 0);
    assert_eq!(sub.edge_count(), 0);
}

#[test]
fn duplicate_keeps_every_field() {
    let mut d = node(5, "x/y", vec![1, 2]);
    d.distance = 3;
    d.outgoing_truncated = true;
    let e = d.duplicate();
    assert_eq!(e.id, 5);
    assert_eq!(e.filename, "x/y");
    assert_eq!(e.outbound_references, vec![1, 2]);
    assert_eq!(e.distance, 3);
    assert!(e.outgoing_truncated);
    assert!(!e.incoming_truncated);
}
