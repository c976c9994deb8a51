use chrono::{TimeZone, Utc};
use neurofinance::graph::RelationType;
use neurofinance::identifiers::{EntityId, Symbol};
use neurofinance::sector::build_sector_graph;
use neurofinance::timestamp::Timestamp;

fn ts() -> Timestamp {
    i128::from(Utc.with_ymd_and_hms(2020, 1, 1, 0, 0, 0).unwrap().timestamp_nanos_opt().unwrap())
}

#[test]
fn connects_only_same_sector_pairs() {
    let assignment = vec![
        (Symbol::new("AAA"), EntityId::new("TECH")),
        (Symbol::new("BBB"), EntityId::new("TECH")),
        (Symbol::new("CCC"), EntityId::new("FIN")),
    ];
    let graph = build_sector_graph(&assignment, ts(), 1.0_f64);

    assert_eq!(graph.num_nodes(), 3);
    assert_eq!(graph.num_edges(), 1);

    let aaa = graph.node_id(&EntityId::new("AAA")).unwrap();
    let ccc = graph.node_id(&EntityId::new("CCC")).unwrap();
    assert_eq!(graph.degree(aaa, Some(RelationType::Sector)), 1);
    assert_eq!(graph.degree(ccc, Some(RelationType::Sector)), 0);
}

#[test]
fn edge_count_matches_combinatorics_for_synthetic_universe() {
    let mut assignment = Vec::new();
    for sector in 0..10 {
        for asset in 0..10 {
            assignment.push((
                Symbol(format!("AST{sector}{asset}")),
                EntityId(format!("SECTOR{sector}")),
            ));
        }
    }
    let graph = build_sector_graph(&assignment, ts(), 1.0_f64);
    assert_eq!(graph.num_edges(), 450);
}

#[test]
fn edges_carry_the_given_weight_relation_and_time() {
    let assignment = vec![
        (Symbol::new("X"), EntityId::new("S1")),
        (Symbol::new("Y"), EntityId::new("S2")),
        (Symbol::new("Z"), EntityId::new("S1")),
        (Symbol::new("W"), EntityId::new("S1")),
    ];
    let graph = build_sector_graph(&assignment, ts(), 1.0_f64);
    let pairs: Vec<(u32, u32)> = graph
        .edges_of_relation(RelationType::Sector)
        .into_iter()
        .map(|e| {
            assert_eq!(e.weight, 1.0);
            assert_eq!(e.timestamp, ts());
            (e.source.0, e.target.0)
        })
        .collect();
    assert_eq!(pairs, vec![(0, 2), (0, 3), (2, 3)]);
}
