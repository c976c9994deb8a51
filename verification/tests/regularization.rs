use chrono::{TimeZone, Utc};
use neurofinance::graph::{Edge, FinancialGraph, RelationType};
use neurofinance::identifiers::EntityId;
use neurofinance::regularization::relation_overlap;
use neurofinance::timestamp::Timestamp;

fn ts() -> Timestamp {
    i128::from(Utc.with_ymd_and_hms(2020, 1, 1, 0, 0, 0).unwrap().timestamp_nanos_opt().unwrap())
}

/// `1 - overlap`, from the verified counts; `1` with no learned edges.
fn l_relation(learned: &FinancialGraph<f64>, reference: &FinancialGraph<f64>) -> f64 {
    let (corroborated, total) = relation_overlap(learned, reference);
    if total == 0 {
        1.0
    } else {
        1.0 - corroborated as f64 / total as f64
    }
}

fn graph_with_edges(pairs: &[(&str, &str)], relation: RelationType) -> FinancialGraph<f64> {
    let mut entities: Vec<EntityId> = pairs
        .iter()
        .flat_map(|(a, b)| [*a, *b])
        .map(EntityId::new)
        .collect();
    entities.sort();
    entities.dedup();
    let mut g = FinancialGraph::new(entities);
    for (a, b) in pairs {
        let na = g.node_id(&EntityId::new(a)).unwrap();
        let nb = g.node_id(&EntityId::new(b)).unwrap();
        g.add_edge(Edge {
            source: na,
            target: nb,
            relation,
            weight: 1.0,
            timestamp: ts(),
        })
        .unwrap();
    }
    g
}

fn nodes(names: &[&str]) -> FinancialGraph<f64> {
    FinancialGraph::new(names.iter().map(|n| EntityId::new(n)).collect())
}

fn add(g: &mut FinancialGraph<f64>, a: &str, b: &str) {
    let na = g.node_id(&EntityId::new(a)).unwrap();
    let nb = g.node_id(&EntityId::new(b)).unwrap();
    g.add_edge(Edge {
        source: na,
        target: nb,
        relation: RelationType::Sector,
        weight: 1.0,
        timestamp: ts(),
    })
    .unwrap();
}

#[test]
fn l_relation_is_zero_when_fully_corroborated() {
    let learned = graph_with_edges(&[("A", "B"), ("B", "C")], RelationType::Learned);
    let mut reference = nodes(&["A", "B", "C"]);
    for (a, b) in [("A", "B"), ("B", "C")] {
        add(&mut reference, a, b);
    }
    assert!((l_relation(&learned, &reference)).abs() < 1e-9);
}

#[test]
fn l_relation_is_one_when_no_edges_agree() {
    let learned = graph_with_edges(&[("A", "B")], RelationType::Learned);
    let reference = nodes(&["A", "B", "C"]);
    assert!((l_relation(&learned, &reference) - 1.0).abs() < 1e-9);
}

#[test]
fn l_relation_partial_overlap() {
    let learned = graph_with_edges(&[("A", "B"), ("C", "D")], RelationType::Learned);
    let mut reference = nodes(&["A", "B", "C", "D"]);
    add(&mut reference, "A", "B");
    assert!((l_relation(&learned, &reference) - 0.5).abs() < 1e-9);
}

#[test]
fn l_relation_is_one_for_an_empty_learned_graph() {
    let learned = nodes(&["A", "B"]);
    let reference = nodes(&["A", "B"]);
    assert!((l_relation(&learned, &reference) - 1.0).abs() < 1e-9);
}

#[test]
fn overlap_matches_endpoints_by_name_and_ignores_other_relations() {
    // Learned B-A corroborated by reference A-B in reverse order; C-E has
    // an endpoint missing from the reference; Sector edges of the learned
    // graph are not counted.
    let mut learned = nodes(&["B", "A", "C", "E"]);
    let b = learned.node_id(&EntityId::new("B")).unwrap();
    let a = learned.node_id(&EntityId::new("A")).unwrap();
    let c = learned.node_id(&EntityId::new("C")).unwrap();
    let e = learned.node_id(&EntityId::new("E")).unwrap();
    for (s, t, rel) in [(b, a, RelationType::Learned), (c, e, RelationType::Learned), (a, c, RelationType::Sector)] {
        learned
            .add_edge(Edge { source: s, target: t, relation: rel, weight: 1.0, timestamp: ts() })
            .unwrap();
    }
    let mut reference = nodes(&["A", "B", "C"]);
    add(&mut reference, "A", "B");
    add(&mut reference, "A", "C");
    assert_eq!(relation_overlap(&learned, &reference), (1, 2));
}
