use chrono::{TimeZone, Utc};
use neurofinance::components::connected_components;
use neurofinance::graph::{Edge, FinancialGraph, NodeId, RelationType};
use neurofinance::identifiers::EntityId;
use neurofinance::timestamp::Timestamp;

fn ts() -> Timestamp {
    i128::from(Utc.with_ymd_and_hms(2020, 1, 1, 0, 0, 0).unwrap().timestamp_nanos_opt().unwrap())
}

fn abc() -> FinancialGraph<f64> {
    FinancialGraph::new(vec![EntityId::new("A"), EntityId::new("B"), EntityId::new("C")])
}

fn learned(s: NodeId, t: NodeId) -> Edge<f64> {
    Edge {
        source: s,
        target: t,
        relation: RelationType::Learned,
        weight: 1.0,
        timestamp: ts(),
    }
}

#[test]
fn all_isolated_nodes_are_separate_components() {
    let graph = abc();
    assert_eq!(connected_components(&graph, RelationType::Learned), 3);
}

#[test]
fn a_single_edge_merges_two_components() {
    let mut graph = abc();
    let a = graph.node_id(&EntityId::new("A")).unwrap();
    let b = graph.node_id(&EntityId::new("B")).unwrap();
    graph.add_edge(learned(a, b)).unwrap();
    assert_eq!(connected_components(&graph, RelationType::Learned), 2);
}

#[test]
fn a_spanning_chain_is_one_component() {
    let mut graph = abc();
    let a = graph.node_id(&EntityId::new("A")).unwrap();
    let b = graph.node_id(&EntityId::new("B")).unwrap();
    let c = graph.node_id(&EntityId::new("C")).unwrap();
    for (s, t) in [(a, b), (b, c)] {
        graph.add_edge(learned(s, t)).unwrap();
    }
    assert_eq!(connected_components(&graph, RelationType::Learned), 1);
}

#[test]
fn empty_graph_has_zero_components() {
    let graph: FinancialGraph<f64> = FinancialGraph::new(vec![]);
    assert_eq!(connected_components(&graph, RelationType::Learned), 0);
}

#[test]
fn edges_of_other_relations_do_not_connect() {
    let mut graph = abc();
    graph
        .add_edge(Edge {
            source: NodeId(0),
            target: NodeId(2),
            relation: RelationType::Sector,
            weight: 1.0,
            timestamp: ts(),
        })
        .unwrap();
    assert_eq!(connected_components(&graph, RelationType::Learned), 3);
    assert_eq!(connected_components(&graph, RelationType::Sector), 2);
}

#[test]
fn merging_into_a_smaller_label_counts_correctly() {
    let names: Vec<EntityId> = (0..6).map(|i| EntityId(format!("N{i}"))).collect();
    let mut graph: FinancialGraph<f64> = FinancialGraph::new(names);
    for (s, t) in [(4, 5), (2, 3), (3, 5), (0, 1)] {
        graph.add_edge(learned(NodeId(s), NodeId(t))).unwrap();
    }
    // {0,1}, {2,3,4,5}
    assert_eq!(connected_components(&graph, RelationType::Learned), 2);
}
