use chrono::{TimeZone, Utc};
use neurofinance::graph::RelationType;
use neurofinance::identifiers::EntityId;
use neurofinance::timestamp::Timestamp;
use neurofinance::topk::top_k_topology;

fn ts() -> Timestamp {
    i128::from(Utc.with_ymd_and_hms(2020, 1, 1, 0, 0, 0).unwrap().timestamp_nanos_opt().unwrap())
}

fn entities(n: usize) -> Vec<EntityId> {
    (0..n).map(|i| EntityId(format!("E{i}"))).collect()
}

/// Each row's other nodes by descending score (ties by index), and the
/// symmetric average weight of every pair.
fn rank(scores: &[Vec<f32>]) -> (Vec<Vec<usize>>, Vec<Vec<f64>>) {
    let n = scores.len();
    let ranked = (0..n)
        .map(|i| {
            let mut js: Vec<usize> = (0..n).filter(|&j| j != i).collect();
            js.sort_by(|&a, &b| scores[i][b].partial_cmp(&scores[i][a]).unwrap());
            js
        })
        .collect();
    let weights = (0..n)
        .map(|i| (0..n).map(|j| ((scores[i][j] + scores[j][i]) / 2.0) as f64).collect())
        .collect();
    (ranked, weights)
}

#[test]
fn degree_never_exceeds_k() {
    let n = 20;
    let k = 4;
    // A deterministic pseudo-random score matrix.
    let mut state: u64 = 1;
    let scores: Vec<Vec<f32>> = (0..n)
        .map(|_| {
            (0..n)
                .map(|_| {
                    state = state.wrapping_mul(6364136223846793005).wrapping_add(1442695040888963407);
                    ((state >> 33) as f32) / (u32::MAX as f32)
                })
                .collect()
        })
        .collect();
    let (ranked, weights) = rank(&scores);
    let ents = entities(n);
    let graph = top_k_topology(&ranked, &weights, ents.clone(), k, ts());
    for (i, entity) in ents.iter().enumerate() {
        let node = graph.node_id(entity).unwrap();
        let degree = graph.degree(node, Some(RelationType::Learned));
        assert!(degree <= k, "node {i} has degree {degree} > k={k}");
    }
}

#[test]
fn mutual_top_k_excludes_one_sided_selections() {
    let scores = vec![
        vec![0.0, 5.0, 1.0],
        vec![1.0, 0.0, 5.0],
        vec![5.0, 1.0, 0.0],
    ];
    let (ranked, weights) = rank(&scores);
    let graph = top_k_topology(&ranked, &weights, entities(3), 1, ts());
    assert_eq!(graph.num_edges(), 0);
}

#[test]
fn mutual_pairs_become_weighted_learned_edges() {
    let scores = vec![
        vec![0.0, 5.0, 1.0, 0.0],
        vec![4.0, 0.0, 1.0, 0.0],
        vec![0.0, 1.0, 0.0, 3.0],
        vec![0.0, 0.0, 2.0, 0.0],
    ];
    let (ranked, weights) = rank(&scores);
    let graph = top_k_topology(&ranked, &weights, entities(4), 1, ts());
    let edges = graph.edges_of_relation(RelationType::Learned);
    let pairs: Vec<(u32, u32, f64)> = edges.iter().map(|e| (e.source.0, e.target.0, e.weight)).collect();
    assert_eq!(pairs, vec![(0, 1, 4.5), (2, 3, 2.5)]);
}
