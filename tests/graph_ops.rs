use lv_graph::{
    lv_adj, lv_eq, lv_free_graph, lv_free_node, lv_is_adj, lv_mk_edge, lv_new_graph, lv_new_node,
    lv_node_list_free, lv_nodes, lv_pred, lv_rm_edge, lv_succ, Graph, Node,
};

fn graph_with(n: usize) -> (Graph, Vec<Node>) {
    let mut g = lv_new_graph(7);
    let mut nodes = Vec::new();
    for _ in 0..n {
        nodes.push(lv_new_node(&mut g));
    }
    (g, nodes)
}

#[test]
fn scenario_successors_adjacent_and_removal() {
    let (mut g, n) = graph_with(3);
    let (a, b, c) = (n[0], n[1], n[2]);
    assert_eq!((a.index(), b.index(), c.index()), (0, 1, 2));
    lv_mk_edge(&mut g, &a, &b);
    lv_mk_edge(&mut g, &a, &c);
    assert_eq!(lv_succ(&g, &a).indices(), vec![2, 1]);
    assert_eq!(lv_adj(&g, &a).indices(), vec![1, 2]);
    lv_rm_edge(&mut g, &a, &b);
    assert_eq!(lv_succ(&g, &a).indices(), vec![2]);
    lv_free_graph(g);
}

#[test]
fn new_nodes_get_increasing_indices() {
    let (g, n) = graph_with(4);
    for (i, node) in n.iter().enumerate() {
        assert_eq!(node.index(), i);
        assert_eq!(node.graph(), 7);
    }
    assert_eq!(g.node_count(), 4);
    assert_eq!(g.id(), 7);
}

#[test]
fn all_nodes_ascending_and_complete() {
    let (g, _) = graph_with(5);
    let l = lv_nodes(&g);
    assert_eq!(l.len(), 5);
    assert_eq!(l.indices(), vec![0, 1, 2, 3, 4]);
    for i in 0..l.len() {
        assert_eq!(l.get(i).graph(), 7);
    }
}

#[test]
fn all_nodes_of_empty_graph() {
    let g = lv_new_graph(1);
    assert_eq!(lv_nodes(&g).len(), 0);
}

#[test]
fn edge_symmetry_after_mutations() {
    let (mut g, n) = graph_with(4);
    lv_mk_edge(&mut g, &n[0], &n[1]);
    lv_mk_edge(&mut g, &n[2], &n[1]);
    lv_mk_edge(&mut g, &n[1], &n[3]);
    lv_rm_edge(&mut g, &n[2], &n[1]);
    for u in 0..4 {
        for v in 0..4 {
            let in_succ = lv_succ(&g, &n[u]).indices().contains(&v);
            let in_pred = lv_pred(&g, &n[v]).indices().contains(&u);
            assert_eq!(in_succ, in_pred);
        }
    }
    assert_eq!(lv_pred(&g, &n[1]).indices(), vec![0]);
}

#[test]
fn predecessors_latest_first() {
    let (mut g, n) = graph_with(4);
    lv_mk_edge(&mut g, &n[3], &n[0]);
    lv_mk_edge(&mut g, &n[1], &n[0]);
    lv_mk_edge(&mut g, &n[2], &n[0]);
    assert_eq!(lv_pred(&g, &n[0]).indices(), vec![2, 1, 3]);
}

#[test]
fn make_edge_twice_same_as_once() {
    let (mut g, n) = graph_with(2);
    lv_mk_edge(&mut g, &n[0], &n[1]);
    lv_mk_edge(&mut g, &n[0], &n[1]);
    assert_eq!(lv_succ(&g, &n[0]).indices(), vec![1]);
    assert_eq!(lv_pred(&g, &n[1]).indices(), vec![0]);
}

#[test]
fn remove_absent_edge_is_noop() {
    let (mut g, n) = graph_with(3);
    lv_mk_edge(&mut g, &n[0], &n[2]);
    lv_rm_edge(&mut g, &n[0], &n[1]);
    lv_rm_edge(&mut g, &n[1], &n[0]);
    assert_eq!(lv_succ(&g, &n[0]).indices(), vec![2]);
    assert_eq!(lv_pred(&g, &n[2]).indices(), vec![0]);
    assert_eq!(lv_succ(&g, &n[1]).len(), 0);
    assert_eq!(lv_pred(&g, &n[1]).len(), 0);
}

#[test]
fn remove_after_make_leaves_no_edge() {
    let (mut g, n) = graph_with(2);
    lv_mk_edge(&mut g, &n[0], &n[1]);
    lv_rm_edge(&mut g, &n[0], &n[1]);
    assert_eq!(lv_succ(&g, &n[0]).len(), 0);
    assert_eq!(lv_pred(&g, &n[1]).len(), 0);
    assert!(!lv_is_adj(&g, &n[0], &n[1]));
}

#[test]
fn self_loop_added_and_removed() {
    let (mut g, n) = graph_with(1);
    lv_mk_edge(&mut g, &n[0], &n[0]);
    assert_eq!(lv_succ(&g, &n[0]).indices(), vec![0]);
    assert_eq!(lv_pred(&g, &n[0]).indices(), vec![0]);
    assert_eq!(lv_adj(&g, &n[0]).indices(), vec![0]);
    lv_rm_edge(&mut g, &n[0], &n[0]);
    assert_eq!(lv_succ(&g, &n[0]).len(), 0);
    assert_eq!(lv_pred(&g, &n[0]).len(), 0);
}

#[test]
fn equality_laws() {
    let (g, n) = graph_with(2);
    let a1 = n[0];
    let a2 = lv_nodes(&g).get(0);
    let a3 = lv_nodes(&g).get(0);
    assert!(lv_eq(&a1, &a1));
    assert!(lv_eq(&a1, &a2) && lv_eq(&a2, &a1));
    assert!(lv_eq(&a2, &a3) && lv_eq(&a1, &a3));
    assert!(!lv_eq(&a1, &n[1]));
    assert_eq!(lv_eq(&a1, &n[1]), lv_eq(&n[1], &a1));
}

#[test]
fn equality_distinguishes_stores() {
    let mut g1 = lv_new_graph(1);
    let mut g2 = lv_new_graph(2);
    let x = lv_new_node(&mut g1);
    let y = lv_new_node(&mut g2);
    assert_eq!(x.index(), y.index());
    assert!(!lv_eq(&x, &y));
}

#[test]
fn adjacent_deduplicated_and_ascending() {
    let (mut g, n) = graph_with(5);
    lv_mk_edge(&mut g, &n[2], &n[4]);
    lv_mk_edge(&mut g, &n[2], &n[0]);
    lv_mk_edge(&mut g, &n[4], &n[2]);
    lv_mk_edge(&mut g, &n[3], &n[2]);
    assert_eq!(lv_adj(&g, &n[2]).indices(), vec![0, 3, 4]);
    assert_eq!(lv_adj(&g, &n[1]).len(), 0);
}

#[test]
fn is_adjacent_either_direction() {
    let (mut g, n) = graph_with(3);
    lv_mk_edge(&mut g, &n[0], &n[1]);
    assert!(lv_is_adj(&g, &n[0], &n[1]));
    assert!(lv_is_adj(&g, &n[1], &n[0]));
    assert!(!lv_is_adj(&g, &n[0], &n[2]));
    assert!(!lv_is_adj(&g, &n[2], &n[2]));
}

#[test]
fn list_release_counts_every_handle() {
    let (mut g, n) = graph_with(4);
    lv_mk_edge(&mut g, &n[0], &n[1]);
    lv_mk_edge(&mut g, &n[0], &n[2]);
    lv_mk_edge(&mut g, &n[0], &n[3]);
    assert_eq!(lv_node_list_free(lv_succ(&g, &n[0])), 3);
    assert_eq!(lv_node_list_free(lv_nodes(&g)), 4);
    assert_eq!(lv_node_list_free(lv_pred(&g, &n[0])), 0);
}

#[test]
fn node_release_keeps_record() {
    let (mut g, n) = graph_with(2);
    lv_mk_edge(&mut g, &n[0], &n[1]);
    let extra = lv_nodes(&g).get(1);
    lv_free_node(extra);
    assert_eq!(g.node_count(), 2);
    assert_eq!(lv_pred(&g, &n[1]).indices(), vec![0]);
}
