use refgraph::filter::{FilterError, Limits};
use refgraph::graph::NodeDescriptor;
use refgraph::pipeline::select;

fn node(id: usize, name: &str, refs: Vec<usize>) -> NodeDescriptor {
    NodeDescriptor::new(id, name.to_string(), refs)
}

fn corpus() -> Vec<NodeDescriptor> {
    vec![
        node(1, "q/A", vec![2, 5, 2, 99]),
        node(2, "q/B", vec![3]),
        node(3, "q/C", vec![4]),
        node(4, "q/D", vec![]),
        node(5, "q/E", vec![]),
    ]
}

#[test]
fn select_gives_the_subgraph_around_the_target() {
    let s = select(&corpus(), 1, &Limits::depth_only(1, 1)).unwrap();
    assert_eq!(s.graph.node_count(), 5);
    assert_eq!(s.kept.iter().filter(|k| **k).count(), 3);
    let sub = &s.subgraph;
    let mut ids: Vec<usize> = (0..sub.node_count()).map(|i| sub.node(i).id).collect();
    ids.sort();
    assert_eq!(ids, vec![1, 2, 5]);
    let mut edges = sub.edge_list();
    edges.sort();
    assert_eq!(edges, vec![(1, 2), (1, 5)]);
    for i in 0..sub.node_count() {
        let d = sub.node(i);
        assert_eq!(d.distance, if d.id == 1 { 0 } else { 1 });
        assert_eq!(d.outgoing_truncated, d.id != 1);
    }
}

#[test]
fn select_without_the_target_fails() {
    let r = select(&corpus(), 6, &Limits::standard(3, 3, 20));
    assert_eq!(r.err(), Some(FilterError::TargetNotFound));
    let r = select(&Vec::new(), 1, &Limits::standard(3, 3, 20));
    assert_eq!(r.err(), Some(FilterError::TargetNotFound));
}

#[test]
fn select_walks_both_directions() {
    let s = select(&corpus(), 3, &Limits::standard(1, 2, 20)).unwrap();
    let sub = &s.subgraph;
    let mut ids: Vec<usize> = (0..sub.node_count()).map(|i| sub.node(i).id).collect();
    ids.sort();
    assert_eq!(ids, vec![1, 2, 3, 4]);
    let mut edges = sub.edge_list();
    edges.sort();
    assert_eq!(edges, vec![(1, 2), (2, 3), (3, 4)]);
    let a = sub.node(sub.index_of(1).unwrap());
    assert_eq!(a.distance, 2);
    assert!(a.incoming_truncated);
    assert!(!a.outgoing_truncated);
    let d = sub.node(sub.index_of(4).unwrap());
    assert_eq!(d.distance, 1);
    assert!(d.outgoing_truncated);
}
