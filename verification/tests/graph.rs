use chrono::{TimeZone, Utc};
use neurofinance::graph::{Edge, EdgeId, FinancialGraph, GraphError, NodeId, RelationType};
use neurofinance::identifiers::EntityId;
use neurofinance::timestamp::Timestamp;

fn ts() -> Timestamp {
    i128::from(Utc.with_ymd_and_hms(2020, 1, 1, 0, 0, 0).unwrap().timestamp_nanos_opt().unwrap())
}

fn small_graph() -> FinancialGraph<f64> {
    FinancialGraph::new(vec![EntityId::new("A"), EntityId::new("B"), EntityId::new("C")])
}

fn edge(source: NodeId, target: NodeId, relation: RelationType, weight: f64) -> Edge<f64> {
    Edge {
        source,
        target,
        relation,
        weight,
        timestamp: ts(),
    }
}

#[test]
fn node_lookup_round_trips() {
    let graph = small_graph();
    let id = graph.node_id(&EntityId::new("B")).unwrap();
    assert_eq!(graph.entity(id), Some(&EntityId::new("B")));
}

#[test]
fn add_edge_is_visible_from_both_endpoints() {
    let mut graph = small_graph();
    let a = graph.node_id(&EntityId::new("A")).unwrap();
    let b = graph.node_id(&EntityId::new("B")).unwrap();
    graph.add_edge(edge(a, b, RelationType::Sector, 1.0)).unwrap();

    let a_neighbors: Vec<NodeId> = graph.neighbors(a, None).into_iter().map(|(n, _)| n).collect();
    let b_neighbors: Vec<NodeId> = graph.neighbors(b, None).into_iter().map(|(n, _)| n).collect();
    assert_eq!(a_neighbors, vec![b]);
    assert_eq!(b_neighbors, vec![a]);
}

#[test]
fn rejects_self_loop() {
    let mut graph = small_graph();
    let a = graph.node_id(&EntityId::new("A")).unwrap();
    let result = graph.add_edge(edge(a, a, RelationType::Sector, 1.0));
    assert_eq!(result, Err(GraphError::SelfLoop(a)));
}

#[test]
fn rejects_out_of_range_node() {
    let mut graph = small_graph();
    let a = graph.node_id(&EntityId::new("A")).unwrap();
    let bogus = NodeId(99);
    let result = graph.add_edge(edge(a, bogus, RelationType::Sector, 1.0));
    assert_eq!(result, Err(GraphError::NodeOutOfRange(bogus, 3)));
}

#[test]
fn neighbors_filters_by_relation() {
    let mut graph = small_graph();
    let a = graph.node_id(&EntityId::new("A")).unwrap();
    let b = graph.node_id(&EntityId::new("B")).unwrap();
    let c = graph.node_id(&EntityId::new("C")).unwrap();
    graph.add_edge(edge(a, b, RelationType::Sector, 1.0)).unwrap();
    graph.add_edge(edge(a, c, RelationType::Correlation, 0.5)).unwrap();

    let sector_neighbors: Vec<NodeId> = graph
        .neighbors(a, Some(RelationType::Sector))
        .into_iter()
        .map(|(n, _)| n)
        .collect();
    assert_eq!(sector_neighbors, vec![b]);
    assert_eq!(graph.degree(a, None), 2);
    assert_eq!(graph.degree(a, Some(RelationType::Correlation)), 1);
}

#[test]
fn edge_ids_count_up_and_look_up_their_edges() {
    let mut graph = small_graph();
    let (a, b, c) = (NodeId(0), NodeId(1), NodeId(2));
    assert_eq!(graph.add_edge(edge(a, b, RelationType::Sector, 1.0)), Ok(EdgeId(0)));
    assert_eq!(graph.add_edge(edge(b, c, RelationType::Learned, 0.25)), Ok(EdgeId(1)));
    assert_eq!(graph.num_edges(), 2);
    assert_eq!(graph.num_nodes(), 3);
    assert_eq!(graph.edge(EdgeId(1)).unwrap().weight, 0.25);
    assert!(graph.edge(EdgeId(2)).is_none());
    assert!(graph.entity(NodeId(3)).is_none());
    assert!(graph.node_id(&EntityId::new("Z")).is_none());
}

#[test]
fn out_of_range_source_is_reported_before_target() {
    let mut graph = small_graph();
    let result = graph.add_edge(edge(NodeId(7), NodeId(9), RelationType::Sector, 1.0));
    assert_eq!(result, Err(GraphError::NodeOutOfRange(NodeId(7), 3)));
    assert_eq!(graph.num_edges(), 0);
}

#[test]
fn edges_of_relation_keeps_insertion_order() {
    let mut graph = small_graph();
    let (a, b, c) = (NodeId(0), NodeId(1), NodeId(2));
    graph.add_edge(edge(a, b, RelationType::Sector, 1.0)).unwrap();
    graph.add_edge(edge(b, c, RelationType::Correlation, 0.5)).unwrap();
    graph.add_edge(edge(a, c, RelationType::Sector, 2.0)).unwrap();
    let weights: Vec<f64> = graph
        .edges_of_relation(RelationType::Sector)
        .into_iter()
        .map(|e| e.weight)
        .collect();
    assert_eq!(weights, vec![1.0, 2.0]);
    // handshake: degrees add up to twice the edge count
    let total: usize = (0..3).map(|i| graph.degree(NodeId(i), None)).sum();
    assert_eq!(total, 2 * graph.num_edges());
    assert_eq!(graph.degree(NodeId(42), None), 0);
}

#[test]
fn nodes_are_listed_in_id_order() {
    let graph = small_graph();
    let names: Vec<&str> = graph.nodes().iter().map(|e| e.as_str()).collect();
    assert_eq!(names, vec!["A", "B", "C"]);
}
