//! A directed graph store addressed through plain node handles.
pub mod graph;
pub mod model;

pub use graph::{
    lv_adj, lv_eq, lv_free_graph, lv_free_node, lv_is_adj, lv_mk_edge, lv_new_graph, lv_new_node,
    lv_node_list_free, lv_nodes, lv_pred, lv_rm_edge, lv_succ, Graph, Node, NodeList, NodeRep,
};
