use refgraph::filter::{neighborhood, should_prune, FilterError, Limits};
use refgraph::graph::{assemble, NodeDescriptor, RefGraph};

fn node(id: usize, name: &str, refs: Vec<usize>) -> NodeDescriptor {
    NodeDescriptor::new(id, name.to_string(), refs)
}

fn chain_graph() -> RefGraph {
    // A=1 -> B=2 -> C=3 -> D=4, A=1 -> E=5
    assemble(&vec![
        node(1, "dir/A.qst", vec![2, 5]),
        node(2, "dir/B.qst", vec![3]),
        node(3, "dir/C.qst", vec![4]),
        node(4, "dir/D.qst", vec![]),
        node(5, "dir/E.qst", vec![]),
    ])
}

fn kept_ids(g: &RefGraph, kept: &Vec<bool>) -> Vec<usize> {
    let mut out = Vec::new();
    for i in 0..g.node_count() {
        if kept[i] {
            out.push(g.node(i).id);
        }
    }
    out.sort();
    out
}

fn by_id(g: &RefGraph, id: usize) -> &NodeDescriptor {
    g.node(g.index_of(id).unwrap())
}

#[test]
fn five_nodes_outgoing_limit_one() {
    let mut g = chain_graph();
    let rule = Limits::depth_only(1, 1);
    let kept = neighborhood(&mut g, 1, &rule).unwrap();
    assert_eq!(kept_ids(&g, &kept), vec![1, 2, 5]);
    assert_eq!(by_id(&g, 1).distance, 0);
    assert_eq!(by_id(&g, 2).distance, 1);
    assert_eq!(by_id(&g, 5).distance, 1);
    assert!(by_id(&g, 2).outgoing_truncated);
    assert!(by_id(&g, 5).outgoing_truncated);
    assert!(!by_id(&g, 1).outgoing_truncated);
    assert!(!by_id(&g, 3).outgoing_truncated);
    let sub = g.extract(&kept);
    let mut edges = sub.edge_list();
    edges.sort();
    assert_eq!(edges, vec![(1, 2), (1, 5)]);
    assert_eq!(sub.node_count(), 3);
}

#[test]
fn target_not_found_aborts() {
    let mut g = chain_graph();
    let rule = Limits::depth_only(3, 3);
    let r = neighborhood(&mut g, 99, &rule);
    assert_eq!(r.err(), Some(FilterError::TargetNotFound));
    for i in 0..g.node_count() {
        assert_eq!(g.node(i).distance, 0);
        assert!(!g.node(i).incoming_truncated);
        assert!(!g.node(i).outgoing_truncated);
    }
}

#[test]
fn hub_at_depth_one_is_kept_but_not_expanded() {
    // 1 -> 10 (hub) -> 11, 12, 13
    let mut g = assemble(&vec![
        node(1, "t", vec![10]),
        node(10, "hub", vec![11, 12, 13]),
        node(11, "a", vec![]),
        node(12, "b", vec![]),
        node(13, "c", vec![]),
    ]);
    let rule = Limits {
        outgoing_depth: 3,
        incoming_depth: 3,
        degree_threshold: Some(2),
        excluded_id: None,
        excluded_marker: None,
    };
    let kept = neighborhood(&mut g, 1, &rule).unwrap();
    assert_eq!(kept_ids(&g, &kept), vec![1, 10]);
    assert!(by_id(&g, 10).outgoing_truncated);
    assert_eq!(by_id(&g, 10).distance, 1);
    assert!(!by_id(&g, 1).outgoing_truncated);
}

#[test]
fn target_is_expanded_whatever_its_degree() {
    let mut g = assemble(&vec![
        node(10, "World/hub", vec![11, 12, 13]),
        node(11, "a", vec![]),
        node(12, "b", vec![]),
        node(13, "c", vec![]),
    ]);
    let rule = Limits {
        outgoing_depth: 2,
        incoming_depth: 2,
        degree_threshold: Some(0),
        excluded_id: Some(10),
        excluded_marker: Some("World/".to_string()),
    };
    let kept = neighborhood(&mut g, 10, &rule).unwrap();
    assert_eq!(kept_ids(&g, &kept), vec![10, 11, 12, 13]);
    assert!(!by_id(&g, 10).outgoing_truncated);
    assert!(!by_id(&g, 11).outgoing_truncated);
}

#[test]
fn depth_zero_keeps_the_target_alone_and_flags_it() {
    let mut g = chain_graph();
    let rule = Limits::depth_only(0, 0);
    let kept = neighborhood(&mut g, 1, &rule).unwrap();
    assert_eq!(kept_ids(&g, &kept), vec![1]);
    assert_eq!(by_id(&g, 1).distance, 0);
    assert!(by_id(&g, 1).outgoing_truncated);
    assert!(by_id(&g, 1).incoming_truncated);
}

#[test]
fn target_has_distance_zero_for_several_limits() {
    for limit in 0..5 {
        let mut g = chain_graph();
        let rule = Limits::depth_only(limit, limit);
        let kept = neighborhood(&mut g, 2, &rule).unwrap();
        let t = g.index_of(2).unwrap();
        assert!(kept[t]);
        assert_eq!(g.node(t).distance, 0);
    }
}

#[test]
fn incoming_edges_are_followed_backwards() {
    let mut g = chain_graph();
    let rule = Limits::depth_only(0, 2);
    let kept = neighborhood(&mut g, 4, &rule).unwrap();
    assert_eq!(kept_ids(&g, &kept), vec![2, 3, 4]);
    assert_eq!(by_id(&g, 3).distance, 1);
    assert_eq!(by_id(&g, 2).distance, 2);
    assert!(by_id(&g, 2).incoming_truncated);
    assert!(!by_id(&g, 3).incoming_truncated);
    assert!(by_id(&g, 4).outgoing_truncated);
}

#[test]
fn distances_stay_within_the_depth_limit() {
    // a diamond with a tail: 1 -> 2, 1 -> 3, 2 -> 4, 3 -> 4, 4 -> 5 -> 6
    let ds = vec![
        node(1, "a", vec![2, 3]),
        node(2, "b", vec![4]),
        node(3, "c", vec![4]),
        node(4, "d", vec![5]),
        node(5, "e", vec![6]),
        node(6, "f", vec![]),
    ];
    for limit in 0..6 {
        let mut g = assemble(&ds);
        let rule = Limits::depth_only(limit, 0);
        let kept = neighborhood(&mut g, 1, &rule).unwrap();
        for i in 0..g.node_count() {
            if kept[i] {
                assert!(g.node(i).distance <= limit);
            }
        }
    }
    let mut g = assemble(&ds);
    let kept = neighborhood(&mut g, 1, &Limits::depth_only(2, 0)).unwrap();
    assert_eq!(kept_ids(&g, &kept), vec![1, 2, 3, 4]);
    assert_eq!(by_id(&g, 4).distance, 2);
    assert!(by_id(&g, 4).outgoing_truncated);
}

#[test]
fn a_cycle_through_the_target_overwrites_its_distance() {
    let mut g = assemble(&vec![node(1, "a", vec![2]), node(2, "b", vec![1])]);
    let kept = neighborhood(&mut g, 1, &Limits::depth_only(3, 3)).unwrap();
    assert_eq!(kept_ids(&g, &kept), vec![1, 2]);
    assert_eq!(by_id(&g, 1).distance, 2);
    assert_eq!(by_id(&g, 2).distance, 3);
    assert!(by_id(&g, 2).outgoing_truncated);
    assert!(by_id(&g, 2).incoming_truncated);
    assert!(!by_id(&g, 1).outgoing_truncated);
}

#[test]
fn two_runs_give_the_same_result() {
    let mut a = chain_graph();
    let mut b = chain_graph();
    let rule = Limits::standard(2, 2, 20);
    let ka = neighborhood(&mut a, 2, &rule).unwrap();
    let kb = neighborhood(&mut b, 2, &rule).unwrap();
    assert_eq!(ka, kb);
    let sa = a.extract(&ka);
    let sb = b.extract(&kb);
    assert_eq!(sa.edge_list(), sb.edge_list());
    assert_eq!(sa.node_count(), sb.node_count());
    for i in 0..sa.node_count() {
        assert_eq!(sa.node(i).id, sb.node(i).id);
        assert_eq!(sa.node(i).distance, sb.node(i).distance);
    }
}

#[test]
fn excluded_filename_and_id_stop_expansion() {
    let mut g = assemble(&vec![
        node(1, "t", vec![2, 3]),
        node(2, "assets/World/x", vec![4]),
        node(3, "plain", vec![5]),
        node(4, "p", vec![]),
        node(5, "q", vec![6]),
        node(6, "r", vec![]),
    ]);
    let rule = Limits {
        outgoing_depth: 3,
        incoming_depth: 0,
        degree_threshold: Some(20),
        excluded_id: Some(5),
        excluded_marker: Some("World/".to_string()),
    };
    let kept = neighborhood(&mut g, 1, &rule).unwrap();
    assert_eq!(kept_ids(&g, &kept), vec![1, 2, 3, 5]);
    assert!(by_id(&g, 2).outgoing_truncated);
    assert!(by_id(&g, 5).outgoing_truncated);
    assert!(!by_id(&g, 3).outgoing_truncated);
}

#[test]
fn prune_predicate_on_each_rule() {
    let g = assemble(&vec![
        node(1, "some/World/map", vec![]),
        node(472400, "Monster_AnimTree.ant", vec![]),
        node(3, "World", vec![1, 472400]),
    ]);
    let rule = Limits::standard(3, 3, 1);
    let a = g.index_of(1).unwrap();
    let b = g.index_of(472400).unwrap();
    let c = g.index_of(3).unwrap();
    assert!(should_prune(&g, &rule, a, 0, true));
    assert!(should_prune(&g, &rule, b, 0, true));
    assert!(should_prune(&g, &rule, c, 2, true));
    assert!(!should_prune(&g, &rule, c, 0, false));
    let none = Limits::depth_only(3, 3);
    assert!(!should_prune(&g, &none, a, 0, true));
    assert!(!should_prune(&g, &none, c, 2, true));
}

#[test]
fn standard_limits_hold_the_known_exclusions() {
    let rule = Limits::standard(3, 4, 20);
    assert_eq!(rule.outgoing_depth, 3);
    assert_eq!(rule.incoming_depth, 4);
    assert_eq!(rule.degree_threshold, Some(20));
    assert_eq!(rule.excluded_id, Some(472400));
    assert_eq!(rule.excluded_marker, Some("World/".to_string()));
}
