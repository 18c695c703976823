use swh_origin_stats::accessor::{GraphAccessor, NodeType};
use swh_origin_stats::memory::MemoryGraph;

fn chain_with_branch() -> MemoryGraph {
    // 0 -> 1 -> 2 -> 3, 1 -> 4, and 5 on its own.
    let mut g = MemoryGraph::new();
    g.add_node(NodeType::Snapshot);
    g.add_node(NodeType::Revision);
    g.add_node(NodeType::Revision);
    g.add_node(NodeType::Revision);
    g.add_node(NodeType::Directory);
    g.add_node(NodeType::Content);
    assert!(g.add_arc(0, 1));
    assert!(g.add_arc(1, 2));
    assert!(g.add_arc(2, 3));
    assert!(g.add_arc(1, 4));
    g
}

fn sorted(mut ids: Vec<usize>) -> Vec<usize> {
    ids.sort();
    ids
}

#[test]
fn empty_graph_has_no_nodes_and_no_arcs() {
    let g = MemoryGraph::new();
    assert_eq!(g.node_count(), 0);
    assert_eq!(g.arc_count(), 0);
    assert_eq!(g.reachable_from(&vec![]), Vec::<usize>::new());
}

#[test]
fn nodes_are_numbered_in_order_of_addition() {
    let mut g = MemoryGraph::new();
    assert_eq!(g.add_node(NodeType::Origin), 0);
    assert_eq!(g.add_node(NodeType::Snapshot), 1);
    assert_eq!(g.add_node(NodeType::Release), 2);
    assert_eq!(g.node_count(), 3);
    assert_eq!(g.node_type(0), NodeType::Origin);
    assert_eq!(g.node_type(1), NodeType::Snapshot);
    assert_eq!(g.node_type(2), NodeType::Release);
}

#[test]
fn a_new_node_has_no_arcs_and_no_properties() {
    let mut g = MemoryGraph::new();
    let id = g.add_node(NodeType::Revision);
    assert_eq!(g.successors(id), Vec::<usize>::new());
    assert_eq!(g.message(id), None);
    assert_eq!(g.committer_id(id), None);
    assert_eq!(g.committer_timestamp(id), None);
    assert_eq!(g.swhid(id), "");
    assert_eq!(g.find_latest_snapshot(id), None);
}

#[test]
fn arcs_keep_their_order_and_are_counted() {
    let g = chain_with_branch();
    assert_eq!(g.arc_count(), 4);
    assert_eq!(g.successors(1), vec![2, 4]);
    assert_eq!(g.successors(0), vec![1]);
    assert_eq!(g.successors(3), Vec::<usize>::new());
}

#[test]
fn an_arc_to_or_from_a_missing_node_is_refused() {
    let mut g = chain_with_branch();
    assert!(!g.add_arc(0, 6));
    assert!(!g.add_arc(6, 0));
    assert_eq!(g.arc_count(), 4);
    assert_eq!(g.successors(0), vec![1]);
}

#[test]
fn properties_are_stored_per_node() {
    let mut g = chain_with_branch();
    assert!(g.set_message(1, b"hello".to_vec()));
    assert!(g.set_committer_id(1, 77));
    assert!(g.set_committer_timestamp(1, -5));
    assert!(g.set_swhid(1, String::from("swh:1:rev:0001")));
    assert_eq!(g.message(1), Some(b"hello".to_vec()));
    assert_eq!(g.committer_id(1), Some(77));
    assert_eq!(g.committer_timestamp(1), Some(-5));
    assert_eq!(g.swhid(1), "swh:1:rev:0001");
    assert_eq!(g.message(2), None);
    assert_eq!(g.committer_id(2), None);
    assert_eq!(g.committer_timestamp(2), None);
    assert_eq!(g.node_type(1), NodeType::Revision);
    assert_eq!(g.successors(1), vec![2, 4]);
}

#[test]
fn properties_of_a_missing_node_are_refused() {
    let mut g = chain_with_branch();
    assert!(!g.set_message(6, vec![1]));
    assert!(!g.set_committer_id(6, 1));
    assert!(!g.set_committer_timestamp(6, 1));
    assert!(!g.set_swhid(6, String::from("x")));
    assert!(!g.set_latest_snapshot(6, 0, 1));
    assert!(!g.set_latest_snapshot(0, 6, 1));
    assert_eq!(g.node_count(), 6);
}

#[test]
fn latest_snapshot_is_stored_with_its_generation() {
    let mut g = MemoryGraph::new();
    let origin = g.add_node(NodeType::Origin);
    let snapshot = g.add_node(NodeType::Snapshot);
    assert!(g.set_latest_snapshot(origin, snapshot, 9));
    assert_eq!(g.find_latest_snapshot(origin), Some((snapshot, 9)));
    assert_eq!(g.find_latest_snapshot(snapshot), None);
}

#[test]
fn reachable_from_follows_every_path() {
    let g = chain_with_branch();
    assert_eq!(sorted(g.reachable_from(&vec![0])), vec![0, 1, 2, 3, 4]);
    assert_eq!(sorted(g.reachable_from(&vec![2])), vec![2, 3]);
    assert_eq!(sorted(g.reachable_from(&vec![5])), vec![5]);
    assert_eq!(sorted(g.reachable_from(&vec![4, 2])), vec![2, 3, 4]);
}

#[test]
fn reachable_from_visits_each_node_once() {
    // A diamond with a cycle back to the top, and the same root given twice.
    let mut g = MemoryGraph::new();
    for _ in 0..4 {
        g.add_node(NodeType::Revision);
    }
    assert!(g.add_arc(0, 1));
    assert!(g.add_arc(0, 2));
    assert!(g.add_arc(1, 3));
    assert!(g.add_arc(2, 3));
    assert!(g.add_arc(3, 0));
    assert!(g.add_arc(0, 1));
    let reached = g.reachable_from(&vec![0, 0, 3]);
    assert_eq!(reached.len(), 4);
    assert_eq!(sorted(reached), vec![0, 1, 2, 3]);
}
