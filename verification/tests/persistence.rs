use neurofinance::graph::{Edge, FinancialGraph, NodeId, RelationType};
use neurofinance::identifiers::EntityId;
use neurofinance::persistence::{canonical_key, learned_pair_weights, persisted_graph, topology_diff, PairKey};

fn key(a: &str, b: &str) -> PairKey {
    canonical_key(&EntityId::new(a), &EntityId::new(b))
}

#[test]
fn diff_reports_created_deleted_and_persisted_edges() {
    let before: Vec<PairKey> = vec![key("A", "B")];
    let after: Vec<PairKey> = vec![key("A", "B"), key("C", "D")];
    let diff = topology_diff(&before, &after);
    assert_eq!(diff.persisted, vec![key("A", "B")]);
    assert_eq!(diff.created, vec![key("C", "D")]);
    assert!(diff.deleted.is_empty());
}

#[test]
fn canonical_key_orders_endpoints() {
    assert_eq!(key("B", "A"), (EntityId::new("A"), EntityId::new("B")));
    assert_eq!(key("A", "B"), key("B", "A"));
    assert_eq!(key("AB", "A"), (EntityId::new("A"), EntityId::new("AB")));
    assert_eq!(key("a", "Z"), (EntityId::new("Z"), EntityId::new("a")));
    assert_eq!(key("X", "X"), (EntityId::new("X"), EntityId::new("X")));
}

#[test]
fn diff_tracks_deletions_in_order() {
    let before: Vec<PairKey> = vec![key("A", "B"), key("B", "C"), key("C", "D")];
    let after: Vec<PairKey> = vec![key("C", "D"), key("E", "F"), key("A", "E")];
    let diff = topology_diff(&before, &after);
    assert_eq!(diff.deleted, vec![key("A", "B"), key("B", "C")]);
    assert_eq!(diff.persisted, vec![key("C", "D")]);
    assert_eq!(diff.created, vec![key("E", "F"), key("A", "E")]);
}

fn entities(names: &[&str]) -> Vec<EntityId> {
    names.iter().map(|n| EntityId::new(n)).collect()
}

#[test]
fn learned_pair_weights_reads_only_learned_edges_by_identity() {
    let mut graph: FinancialGraph<i32> = FinancialGraph::new(entities(&["C", "A", "B"]));
    let edge = |s: u32, t: u32, relation: RelationType, weight: i32| Edge {
        source: NodeId(s),
        target: NodeId(t),
        relation,
        weight,
        timestamp: 7,
    };
    graph.add_edge(edge(0, 1, RelationType::Learned, 5)).unwrap();
    graph.add_edge(edge(1, 2, RelationType::Sector, 9)).unwrap();
    graph.add_edge(edge(2, 0, RelationType::Learned, -3)).unwrap();
    let pairs = learned_pair_weights(&graph);
    assert_eq!(pairs, vec![(key("A", "C"), 5), (key("B", "C"), -3)]);
    assert_eq!(pairs[0].0, (EntityId::new("A"), EntityId::new("C")));
}

#[test]
fn persisted_graph_keeps_keys_within_its_node_set() {
    let pairs = vec![(key("A", "B"), 2), (key("A", "Z"), 4), (key("C", "B"), 6)];
    let graph = persisted_graph(entities(&["B", "A", "C"]), &pairs, 11);
    assert_eq!(graph.nodes(), &entities(&["B", "A", "C"])[..]);
    assert_eq!(graph.num_edges(), 2);
    let learned = graph.edges_of_relation(RelationType::Learned);
    assert_eq!(learned.len(), 2);
    assert_eq!((learned[0].source, learned[0].target, learned[0].weight), (NodeId(1), NodeId(0), 2));
    assert_eq!((learned[1].source, learned[1].target, learned[1].weight), (NodeId(0), NodeId(2), 6));
    assert!(learned.iter().all(|e| e.timestamp == 11));
}

#[test]
fn persisted_topology_reads_back_its_keys() {
    let pairs = vec![(key("A", "B"), 2), (key("A", "Z"), 4), (key("B", "C"), 6)];
    let graph = persisted_graph(entities(&["C", "A", "B"]), &pairs, 3);
    assert_eq!(learned_pair_weights(&graph), vec![(key("A", "B"), 2), (key("B", "C"), 6)]);
}
