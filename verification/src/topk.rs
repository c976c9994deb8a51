//! Sparse mutual top-k selection: reduces a dense relationship-score matrix
//! to a bounded-degree undirected graph of `RelationType::Learned` edges.
//!
//! Each node ranks every other node by score, best first; its top-k are the
//! first `k` of that ranking. An edge `(i, j)` survives only if `j` is in
//! `i`'s top-k *and* `i` is in `j`'s top-k. Mutuality is what bounds every
//! node's degree by `k`: a union rule would let a popular node be selected
//! by more than `k` others.
//!
//! The scores themselves are real numbers; what the selection reads of them
//! is each node's ranking (computed where the scores live) and, for every
//! selected pair, the weight to store on its edge.

use crate::graph::{
    distinct_entities, neighbor_list, relation_matches, Edge, FinancialGraph, NodeId, RelationType,
};
use crate::identifiers::EntityId;
use crate::timestamp::Timestamp;
use vstd::prelude::*;

verus! {

/// Node `i`'s top-k: the first `k` entries of its ranking (all of it, if
/// shorter).
pub open spec fn top_k_of(ranked: Seq<Seq<usize>>, i: int, k: int) -> Seq<usize> {
    if ranked[i].len() <= k {
        ranked[i]
    } else {
        ranked[i].take(k)
    }
}

/// `i` and `j` select each other.
pub open spec fn mutual(ranked: Seq<Seq<usize>>, k: int, i: int, j: int) -> bool {
    &&& 0 <= i < ranked.len()
    &&& 0 <= j < ranked.len()
    &&& top_k_of(ranked, i, k).contains(j as usize)
    &&& top_k_of(ranked, j, k).contains(i as usize)
}

/// The pairs `(i, j)` found while scanning the first `m` top-k entries of
/// node `i`: those with `j > i` that select `i` back.
pub open spec fn row_pairs(ranked: Seq<Seq<usize>>, k: int, i: int, m: int) -> Seq<(int, int)>
    decreases m,
{
    if m <= 0 {
        Seq::empty()
    } else {
        let rest = row_pairs(ranked, k, i, m - 1);
        let j = top_k_of(ranked, i, k)[m - 1] as int;
        if j > i && top_k_of(ranked, j, k).contains(i as usize) {
            rest.push((i, j))
        } else {
            rest
        }
    }
}

/// The selected pairs of nodes `0..i`, node by node, each node's pairs in
/// ranking order.
pub open spec fn selected_pairs(ranked: Seq<Seq<usize>>, k: int, i: int) -> Seq<(int, int)>
    decreases i,
{
    if i <= 0 {
        Seq::empty()
    } else {
        selected_pairs(ranked, k, i - 1) + row_pairs(
            ranked,
            k,
            i - 1,
            top_k_of(ranked, i - 1, k).len() as int,
        )
    }
}

/// A valid ranking table for `n` nodes: one ranking per node, naming other
/// nodes only, each at most once.
pub open spec fn valid_rankings(ranked: Seq<Seq<usize>>, n: int) -> bool {
    &&& ranked.len() == n
    &&& n <= usize::MAX
    &&& forall|i: int|
        0 <= i < n ==> {
            &&& (#[trigger] ranked[i]).no_duplicates()
            &&& forall|a: int| 0 <= a < ranked[i].len() ==> ranked[i][a] < n && ranked[i][a] != i
        }
}

/// The endpoints of an edge.
pub open spec fn endpoints<W>(e: Edge<W>) -> (int, int) {
    (e.source.0 as int, e.target.0 as int)
}

/// The endpoints of each edge, in edge order.
pub open spec fn edge_pairs<W>(edges: Seq<Edge<W>>) -> Seq<(int, int)> {
    edges.map_values(|e: Edge<W>| endpoints(e))
}

proof fn lemma_row_pairs_facts(ranked: Seq<Seq<usize>>, n: int, k: int, i: int, m: int)
    requires
        valid_rankings(ranked, n),
        0 <= i < n,
        0 <= m <= top_k_of(ranked, i, k).len(),
        k >= 0,
    ensures
        row_pairs(ranked, k, i, m).len() <= m,
        forall|p: (int, int)|
            #![trigger row_pairs(ranked, k, i, m).contains(p)]
            row_pairs(ranked, k, i, m).contains(p) <==> (p.0 == i && i < p.1 < n && top_k_of(
                ranked,
                i,
                k,
            ).subrange(0, m).contains(p.1 as usize) && mutual(ranked, k, i, p.1)),
        row_pairs(ranked, k, i, m).no_duplicates(),
    decreases m,
{
    let t = top_k_of(ranked, i, k);
    assert(t.no_duplicates()) by {
        if ranked[i].len() > k {
            assert forall|a: int, b: int| 0 <= a < t.len() && 0 <= b < t.len() && a != b implies t[a]
                != t[b] by {
                assert(t[a] == ranked[i][a] && t[b] == ranked[i][b]);
            }
        }
    }
    if m > 0 {
        lemma_row_pairs_facts(ranked, n, k, i, m - 1);
        let rest = row_pairs(ranked, k, i, m - 1);
        let j = t[m - 1] as int;
        assert(t.contains(j as usize)) by {
            assert(t[m - 1] == j as usize);
        }
        let cur = row_pairs(ranked, k, i, m);
        let sub = t.subrange(0, m - 1);
        let full = t.subrange(0, m);
        assert(t.subrange(0, m) == t.subrange(0, m - 1).push(t[m - 1]));
        assert forall|p: (int, int)| #![trigger cur.contains(p)] cur.contains(p) <==> (p.0 == i && i
            < p.1 < n && t.subrange(0, m).contains(p.1 as usize) && mutual(ranked, k, i, p.1)) by {
            if cur.contains(p) {
                if !rest.contains(p) {
                    let q = choose|q: int| 0 <= q < cur.len() && cur[q] == p;
                    if q < rest.len() {
                        assert(rest[q] == p);
                    }
                    assert(p == (i, j));
                    assert(t.subrange(0, m)[m - 1] == p.1 as usize);
                } else {
                    let c = choose|c: int| 0 <= c < sub.len() && sub[c] == p.1 as usize;
                    assert(full[c] == p.1 as usize);
                }
            }
            if p.0 == i && i < p.1 < n && t.subrange(0, m).contains(p.1 as usize) && mutual(
                ranked,
                k,
                i,
                p.1,
            ) {
                let c = choose|c: int| 0 <= c < full.len() && full[c] == p.1 as usize;
                if c < m - 1 {
                    assert(sub[c] == p.1 as usize);
                    assert(rest.contains(p));
                    let q = choose|q: int| 0 <= q < rest.len() && rest[q] == p;
                    assert(cur[q] == p);
                } else {
                    assert(j == p.1);
                    assert(cur == rest.push((i, j)));
                    assert(cur[rest.len() as int] == p);
                }
            }
        }
        if j > i && top_k_of(ranked, j, k).contains(i as usize) {
            assert(!rest.contains((i, j))) by {
                if rest.contains((i, j)) {
                    let c = choose|c: int| 0 <= c < sub.len() && sub[c] == j as usize;
                    assert(t[c] == t[m - 1]);
                }
            }
            assert(rest.push((i, j)).no_duplicates()) by {
                assert forall|x: int, y: int|
                    0 <= x < rest.len() + 1 && 0 <= y < rest.len() + 1 && x != y implies rest.push(
                    (i, j),
                )[x] != rest.push((i, j))[y] by {
                    if x < rest.len() && y < rest.len() {
                    } else if x < rest.len() {
                        assert(rest.contains(rest[x]));
                    } else {
                        assert(rest.contains(rest[y]));
                    }
                }
            }
        }
    }
}

proof fn lemma_selected_pairs_facts(ranked: Seq<Seq<usize>>, n: int, k: int, i: int)
    requires
        valid_rankings(ranked, n),
        0 <= i <= n,
        k >= 0,
    ensures
        selected_pairs(ranked, k, i).len() <= i * k,
        forall|p: (int, int)|
            #![trigger selected_pairs(ranked, k, i).contains(p)]
            selected_pairs(ranked, k, i).contains(p) <==> (0 <= p.0 < i && p.0 < p.1 && mutual(
                ranked,
                k,
                p.0,
                p.1,
            )),
        selected_pairs(ranked, k, i).no_duplicates(),
    decreases i,
{
    if i > 0 {
        lemma_selected_pairs_facts(ranked, n, k, i - 1);
        let prev = selected_pairs(ranked, k, i - 1);
        let t = top_k_of(ranked, i - 1, k);
        let m = t.len() as int;
        lemma_row_pairs_facts(ranked, n, k, i - 1, m);
        let row = row_pairs(ranked, k, i - 1, m);
        let all = prev + row;
        assert(m <= k);
        assert((i - 1) * k + k == i * k) by (nonlinear_arith);
        assert forall|p: (int, int)| #![trigger all.contains(p)] all.contains(p) <==> (0 <= p.0 < i
            && p.0 < p.1 && mutual(ranked, k, p.0, p.1)) by {
            if all.contains(p) {
                let q = choose|q: int| 0 <= q < all.len() && all[q] == p;
                if q < prev.len() {
                    assert(prev[q] == p);
                    assert(prev.contains(p));
                } else {
                    assert(row[q - prev.len()] == p);
                    assert(row.contains(p));
                }
            }
            if 0 <= p.0 < i && p.0 < p.1 && mutual(ranked, k, p.0, p.1) {
                if p.0 < i - 1 {
                    assert(prev.contains(p));
                    let q = choose|q: int| 0 <= q < prev.len() && prev[q] == p;
                    assert(all[q] == p);
                } else {
                    assert(t.subrange(0, m) == t);
                    assert(row.contains(p));
                    let q = choose|q: int| 0 <= q < row.len() && row[q] == p;
                    assert(all[prev.len() + q] == p);
                }
            }
        }
        assert forall|x: int, y: int| 0 <= x < all.len() && 0 <= y < all.len() && x != y implies all[x]
            != all[y] by {
            if x < prev.len() && y >= prev.len() {
                assert(prev.contains(all[x]));
                assert(row.contains(all[y])) by {
                    assert(row[y - prev.len()] == all[y]);
                }
            } else if y < prev.len() && x >= prev.len() {
                assert(prev.contains(all[y]));
                assert(row.contains(all[x])) by {
                    assert(row[x - prev.len()] == all[x]);
                }
            } else if x >= prev.len() {
                assert(all[x] == row[x - prev.len()] && all[y] == row[y - prev.len()]);
            }
        }
    }
}

/// Every edge of `edges` is `Learned`, joins a smaller to a larger node,
/// and no pair of nodes is joined twice.
pub open spec fn simple_learned_edges<W>(edges: Seq<Edge<W>>) -> bool {
    &&& forall|a: int| 0 <= a < edges.len() ==> (#[trigger] edges[a]).relation == RelationType::Learned
    &&& forall|a: int| 0 <= a < edges.len() ==> (#[trigger] edges[a]).source.0 < edges[a].target.0
    &&& forall|a: int, b: int|
        0 <= a < edges.len() && 0 <= b < edges.len() && a != b ==> endpoints(#[trigger] edges[a])
            != endpoints(#[trigger] edges[b])
}

/// The neighbor nodes of `v`, in edge order.
pub open spec fn neighbor_nodes<W>(edges: Seq<Edge<W>>, v: int) -> Seq<int> {
    neighbor_list(edges, v, None).map_values(|p: (NodeId, Edge<W>)| p.0.0 as int)
}

/// The neighbors of `v` along simple edges are distinct, and each is joined
/// to `v` by some edge.
proof fn lemma_simple_neighbors<W>(edges: Seq<Edge<W>>, v: int)
    requires
        simple_learned_edges(edges),
    ensures
        neighbor_nodes(edges, v).no_duplicates(),
        forall|u: int|
            #[trigger] neighbor_nodes(edges, v).contains(u) ==> exists|a: int|
                0 <= a < edges.len() && (#[trigger] endpoints(edges[a]) == (v, u) || endpoints(
                    edges[a],
                ) == (u, v)),
    decreases edges.len(),
{
    let f = |p: (NodeId, Edge<W>)| p.0.0 as int;
    if edges.len() > 0 {
        let d = edges.drop_last();
        assert(simple_learned_edges(d)) by {
            assert forall|a: int| 0 <= a < d.len() implies d[a] == edges[a] by {}
            assert forall|a: int, b: int|
                0 <= a < d.len() && 0 <= b < d.len() && a != b implies endpoints(#[trigger] d[a])
                != endpoints(#[trigger] d[b]) by {
                assert(d[a] == edges[a] && d[b] == edges[b]);
            }
            assert forall|a: int| 0 <= a < d.len() implies (#[trigger] d[a]).relation
                == RelationType::Learned by {
                assert(d[a] == edges[a]);
            }
            assert forall|a: int| 0 <= a < d.len() implies (#[trigger] d[a]).source.0 < d[a].target.0 by {
                assert(d[a] == edges[a]);
            }
        }
        lemma_simple_neighbors(d, v);
        let rest = neighbor_list(d, v, None);
        let e = edges.last();
        let last = edges.len() - 1;
        assert(e == edges[last]);
        assert forall|u: int| rest.map_values(f).contains(u) implies exists|a: int|
            0 <= a < edges.len() && (#[trigger] endpoints(edges[a]) == (v, u) || endpoints(edges[a])
                == (u, v)) by {
            let a = choose|a: int|
                0 <= a < d.len() && (#[trigger] endpoints(d[a]) == (v, u) || endpoints(d[a]) == (u, v));
            assert(d[a] == edges[a]);
        }
        if e.source.0 == v || e.target.0 == v {
            let u = if e.source.0 == v {
                e.target.0 as int
            } else {
                e.source.0 as int
            };
            assert(neighbor_list(edges, v, None).map_values(f) == rest.map_values(f).push(u));
            assert(!rest.map_values(f).contains(u)) by {
                if rest.map_values(f).contains(u) {
                    let a = choose|a: int|
                        0 <= a < d.len() && (#[trigger] endpoints(d[a]) == (v, u) || endpoints(d[a])
                            == (u, v));
                    assert(d[a] == edges[a]);
                    assert(endpoints(edges[a]) == endpoints(edges[last]));
                }
            }
            assert(rest.map_values(f).push(u).no_duplicates()) by {
                let s = rest.map_values(f);
                assert forall|x: int, y: int|
                    0 <= x < s.len() + 1 && 0 <= y < s.len() + 1 && x != y implies s.push(u)[x]
                    != s.push(u)[y] by {
                    if x < s.len() && y < s.len() {
                    } else if x < s.len() {
                        assert(s.contains(s[x]));
                    } else {
                        assert(s.contains(s[y]));
                    }
                }
            }
            assert forall|w: int| neighbor_list(edges, v, None).map_values(f).contains(w) implies exists|
                a: int,
            |
                0 <= a < edges.len() && (#[trigger] endpoints(edges[a]) == (v, w) || endpoints(
                    edges[a],
                ) == (w, v)) by {
                let s = rest.map_values(f);
                let q = choose|q: int| 0 <= q < s.len() + 1 && s.push(u)[q] == w;
                if q < s.len() {
                    assert(s.contains(w));
                } else {
                    assert(endpoints(edges[last]) == (v, w) || endpoints(edges[last]) == (w, v));
                }
            }
        } else {
            assert(neighbor_list(edges, v, None) == rest);
        }
    }
}

proof fn lemma_row_pairs_len_mono(ranked: Seq<Seq<usize>>, k: int, i: int, a: int, b: int)
    requires
        0 <= a <= b,
    ensures
        row_pairs(ranked, k, i, a).len() <= row_pairs(ranked, k, i, b).len(),
    decreases b - a,
{
    if a < b {
        lemma_row_pairs_len_mono(ranked, k, i, a, b - 1);
    }
}

proof fn lemma_selected_pairs_len_mono(ranked: Seq<Seq<usize>>, k: int, a: int, b: int)
    requires
        0 <= a <= b,
    ensures
        selected_pairs(ranked, k, a).len() <= selected_pairs(ranked, k, b).len(),
    decreases b - a,
{
    if a < b {
        lemma_selected_pairs_len_mono(ranked, k, a, b - 1);
    }
}

/// Builds the learned topology over `entities`: `ranked[i]` lists the other
/// nodes by decreasing score for node `i` (ties in index order), and
/// `pair_weight[i][j]` is the weight stored on a selected edge `(i, j)`.
/// Edges are added node by node, each node's in ranking order. The
/// selected pairs must fit the graph's `u32` edge ids.
pub fn top_k_topology<W: Copy>(
    ranked: &Vec<Vec<usize>>,
    pair_weight: &Vec<Vec<W>>,
    entities: Vec<EntityId>,
    k: usize,
    timestamp: Timestamp,
) -> (g: FinancialGraph<W>)
    requires
        distinct_entities(entities@.map_values(|e: EntityId| e@)),
        entities@.len() <= u32::MAX,
        selected_pairs(ranked@.map_values(|r: Vec<usize>| r@), k as int, entities@.len() as int).len()
            <= u32::MAX,
        k < entities@.len(),
        valid_rankings(ranked@.map_values(|r: Vec<usize>| r@), entities@.len() as int),
        pair_weight@.len() == entities@.len(),
        forall|i: int| 0 <= i < pair_weight@.len() ==> (#[trigger] pair_weight@[i])@.len() == entities@.len(),
    ensures
        g.wf(),
        g.node_seq() == entities@.map_values(|e: EntityId| e@),
        edge_pairs(g.edge_seq()) == selected_pairs(
            ranked@.map_values(|r: Vec<usize>| r@),
            k as int,
            entities@.len() as int,
        ),
        forall|a: int|
            0 <= a < g.edge_seq().len() ==> {
                let e = #[trigger] g.edge_seq()[a];
                &&& e.relation == RelationType::Learned
                &&& e.weight == pair_weight@[e.source.0 as int]@[e.target.0 as int]
                &&& e.timestamp == timestamp
            },
        forall|p: (int, int)|
            #[trigger] edge_pairs(g.edge_seq()).contains(p) <==> (0 <= p.0
                < p.1 && mutual(ranked@.map_values(|r: Vec<usize>| r@), k as int, p.0, p.1)),
        simple_learned_edges(g.edge_seq()),
        forall|v: int|
            0 <= v < entities@.len() ==> #[trigger] neighbor_list(
                g.edge_seq(),
                v,
                Some(RelationType::Learned),
            ).len() <= k,
{
    let ghost rk = ranked@.map_values(|r: Vec<usize>| r@);
    let n = entities.len();
    let mut graph: FinancialGraph<W> = FinancialGraph::new(entities);
    let ghost nodes = graph.node_seq();
    let mut i: usize = 0;
    proof {
        lemma_selected_pairs_facts(rk, n as int, k as int, n as int);
    }
    while i < n
        invariant
            i <= n,
            n == ranked@.len(),
            n <= u32::MAX,
            selected_pairs(rk, k as int, n as int).len() <= u32::MAX,
            k < n,
            rk == ranked@.map_values(|r: Vec<usize>| r@),
            valid_rankings(rk, n as int),
            pair_weight@.len() == n,
            forall|x: int| 0 <= x < pair_weight@.len() ==> (#[trigger] pair_weight@[x])@.len() == n,
            graph.wf(),
            graph.node_seq() == nodes,
            nodes.len() == n,
            edge_pairs(graph.edge_seq()) == selected_pairs(rk, k as int, i as int),
            forall|a: int|
                0 <= a < graph.edge_seq().len() ==> {
                    let e = #[trigger] graph.edge_seq()[a];
                    &&& e.relation == RelationType::Learned
                    &&& e.weight == pair_weight@[e.source.0 as int]@[e.target.0 as int]
                    &&& e.timestamp == timestamp
                },
        decreases n - i,
    {
        let row = &ranked[i];
        let m = if row.len() <= k { row.len() } else { k };
        assert(rk[i as int] == row@);
        assert(m == top_k_of(rk, i as int, k as int).len());
        let mut a: usize = 0;
        proof {
            lemma_selected_pairs_facts(rk, n as int, k as int, i as int);
            lemma_row_pairs_facts(rk, n as int, k as int, i as int, m as int);
        }
        while a < m
            invariant
                i < n,
                a <= m,
                m == top_k_of(rk, i as int, k as int).len(),
                m <= k,
                *row == ranked@[i as int],
                n == ranked@.len(),
                n <= u32::MAX,
                selected_pairs(rk, k as int, n as int).len() <= u32::MAX,
                k < n,
                rk == ranked@.map_values(|r: Vec<usize>| r@),
                valid_rankings(rk, n as int),
                pair_weight@.len() == n,
                forall|x: int| 0 <= x < pair_weight@.len() ==> (#[trigger] pair_weight@[x])@.len() == n,
                graph.wf(),
                graph.node_seq() == nodes,
                nodes.len() == n,
                edge_pairs(graph.edge_seq()) == selected_pairs(
                    rk,
                    k as int,
                    i as int,
                ) + row_pairs(rk, k as int, i as int, a as int),
                forall|x: int|
                    0 <= x < graph.edge_seq().len() ==> {
                        let e = #[trigger] graph.edge_seq()[x];
                        &&& e.relation == RelationType::Learned
                        &&& e.weight == pair_weight@[e.source.0 as int]@[e.target.0 as int]
                        &&& e.timestamp == timestamp
                    },
            decreases m - a,
        {
            let j = row[a];
            assert(top_k_of(rk, i as int, k as int)[a as int] == j);
            assert(j < n && j != i);
            let mut selects_back = false;
            if j > i {
                let other = &ranked[j];
                let mj = if other.len() <= k { other.len() } else { k };
                assert(rk[j as int] == other@);
                let mut b: usize = 0;
                let mut found = false;
                while b < mj
                    invariant
                        b <= mj,
                        mj == top_k_of(rk, j as int, k as int).len(),
                        *other == ranked@[j as int],
                        rk[j as int] == other@,
                        j < n,
                        n == ranked@.len(),
                        found ==> top_k_of(rk, j as int, k as int).contains(i),
                        !found ==> forall|c: int| 0 <= c < b ==> top_k_of(rk, j as int, k as int)[c] != i,
                    decreases mj - b,
                {
                    assert(top_k_of(rk, j as int, k as int)[b as int] == other@[b as int]);
                    if other[b] == i {
                        found = true;
                        assert(top_k_of(rk, j as int, k as int)[b as int] == i);
                        b = mj;
                    } else {
                        b = b + 1;
                    }
                }
                proof {
                    if !found {
                        assert(!top_k_of(rk, j as int, k as int).contains(i)) by {
                            if top_k_of(rk, j as int, k as int).contains(i) {
                                let c = choose|c: int|
                                    0 <= c < mj && top_k_of(rk, j as int, k as int)[c] == i;
                            }
                        }
                    }
                }
                selects_back = found;
            }
            assert(selects_back == (j > i && top_k_of(rk, j as int, k as int).contains(i)));
            let ghost before = graph.edge_seq();
            proof {
                lemma_row_pairs_len_mono(rk, k as int, i as int, a + 1, m as int);
                lemma_selected_pairs_len_mono(rk, k as int, i + 1, n as int);
                assert(selected_pairs(rk, k as int, i + 1) == selected_pairs(rk, k as int, i as int)
                    + row_pairs(rk, k as int, i as int, m as int));
                assert(graph.edge_seq().len() == edge_pairs(graph.edge_seq()).len());
            }
            if selects_back {
                let w = pair_weight[i][j];
                let r = graph.add_edge(
                    Edge {
                        source: NodeId(i as u32),
                        target: NodeId(j as u32),
                        relation: RelationType::Learned,
                        weight: w,
                        timestamp,
                    },
                );
                proof {
                    let e = Edge {
                        source: NodeId(i as u32),
                        target: NodeId(j as u32),
                        relation: RelationType::Learned,
                        weight: w,
                        timestamp,
                    };
                    assert(graph.edge_seq() == before.push(e));
                    assert(edge_pairs(graph.edge_seq()) == edge_pairs(before).push((i as int, j as int)));
                    assert(selected_pairs(rk, k as int, i as int) + row_pairs(
                        rk,
                        k as int,
                        i as int,
                        a + 1,
                    ) == (selected_pairs(rk, k as int, i as int) + row_pairs(
                        rk,
                        k as int,
                        i as int,
                        a as int,
                    )).push((i as int, j as int)));
                    assert forall|x: int| 0 <= x < graph.edge_seq().len() implies {
                        let e = #[trigger] graph.edge_seq()[x];
                        &&& e.relation == RelationType::Learned
                        &&& e.weight == pair_weight@[e.source.0 as int]@[e.target.0 as int]
                        &&& e.timestamp == timestamp
                    } by {
                        if x < before.len() {
                            assert(graph.edge_seq()[x] == before[x]);
                        }
                    }
                }
            } else {
                proof {
                    assert(row_pairs(rk, k as int, i as int, a + 1) == row_pairs(
                        rk,
                        k as int,
                        i as int,
                        a as int,
                    ));
                }
            }
            a = a + 1;
        }
        proof {
            assert(selected_pairs(rk, k as int, i + 1) == selected_pairs(rk, k as int, i as int)
                + row_pairs(rk, k as int, i as int, m as int));
        }
        i = i + 1;
    }
    proof {
        let es = graph.edge_seq();
        let ps = edge_pairs(es);
        lemma_selected_pairs_facts(rk, n as int, k as int, n as int);
        assert(simple_learned_edges(es)) by {
            assert forall|a: int| 0 <= a < es.len() implies (#[trigger] es[a]).source.0 < es[a].target.0 by {
                assert(ps[a] == endpoints(es[a]));
                assert(ps.contains(ps[a]));
            }
            assert forall|a: int, b: int|
                0 <= a < es.len() && 0 <= b < es.len() && a != b implies endpoints(#[trigger] es[a])
                != endpoints(#[trigger] es[b]) by {
                assert(ps[a] == endpoints(es[a]) && ps[b] == endpoints(es[b]));
            }
        }
        assert forall|p: (int, int)| #[trigger] edge_pairs(es).contains(p) <==> (0 <= p.0 < p.1
            && mutual(rk, k as int, p.0, p.1)) by {
            assert(ps.contains(p) == selected_pairs(rk, k as int, n as int).contains(p));
        }
        assert forall|v: int| 0 <= v < n implies #[trigger] neighbor_list(
            es,
            v,
            Some(RelationType::Learned),
        ).len() <= k by {
            lemma_degree_bounded(es, rk, n as int, k as int, v);
        }
    }
    graph
}

proof fn lemma_neighbor_list_learned_all<W>(edges: Seq<Edge<W>>, v: int)
    requires
        forall|a: int| 0 <= a < edges.len() ==> (#[trigger] edges[a]).relation == RelationType::Learned,
    ensures
        neighbor_list(edges, v, Some(RelationType::Learned)) == neighbor_list(edges, v, None),
    decreases edges.len(),
{
    if edges.len() > 0 {
        let d = edges.drop_last();
        assert forall|a: int| 0 <= a < d.len() implies (#[trigger] d[a]).relation
            == RelationType::Learned by {
            assert(d[a] == edges[a]);
        }
        lemma_neighbor_list_learned_all(d, v);
        assert(edges.last() == edges[edges.len() - 1]);
    }
}

/// Along mutually selected simple edges, every node has at most `k`
/// neighbors: each neighbor is a distinct member of its top-k.
proof fn lemma_degree_bounded<W>(edges: Seq<Edge<W>>, rk: Seq<Seq<usize>>, n: int, k: int, v: int)
    requires
        simple_learned_edges(edges),
        valid_rankings(rk, n),
        0 <= v < n,
        k >= 0,
        forall|p: (int, int)|
            #[trigger] edge_pairs(edges).contains(p) ==> (0 <= p.0 < p.1
                && mutual(rk, k, p.0, p.1)),
    ensures
        neighbor_list(edges, v, Some(RelationType::Learned)).len() <= k,
{
    lemma_neighbor_list_learned_all(edges, v);
    lemma_simple_neighbors(edges, v);
    let nb = neighbor_nodes(edges, v);
    let top = top_k_of(rk, v, k);
    let top_int = top.map_values(|x: usize| x as int);
    assert forall|u: int| nb.to_set().contains(u) implies top_int.to_set().contains(u) by {
        assert(nb.contains(u));
        let a = choose|a: int|
            0 <= a < edges.len() && (#[trigger] endpoints(edges[a]) == (v, u) || endpoints(edges[a])
                == (u, v));
        let ps = edge_pairs(edges);
        assert(ps[a] == endpoints(edges[a]));
        assert(ps.contains(ps[a]));
        assert(top.contains(u as usize));
        let q = choose|q: int| 0 <= q < top.len() && top[q] == u as usize;
        assert(top_int[q] == u);
        assert(top_int.contains(u));
    }
    vstd::set_lib::lemma_len_subset(nb.to_set(), top_int.to_set());
    nb.unique_seq_to_set();
    top_int.lemma_cardinality_of_set();
    assert(top.len() <= k);
}

/// A node's top-k is the first `min(k, len)` entries of its ranking, so a
/// node selects another exactly when that node appears among the first `k`
/// entries of its ranking; and two nodes are joined exactly when each is
/// among the first `k` of the other's ranking.
pub proof fn lemma_top_k_is_the_first_k_of_the_ranking(ranked: Seq<Seq<usize>>, k: int, i: int, j: int)
    requires
        0 <= i < ranked.len(),
        k >= 0,
    ensures
        top_k_of(ranked, i, k).len() == (if k < ranked[i].len() {
            k
        } else {
            ranked[i].len() as int
        }),
        forall|a: int| 0 <= a < top_k_of(ranked, i, k).len() ==> #[trigger] top_k_of(ranked, i, k)[a] == ranked[i][a],
        top_k_of(ranked, i, k).contains(j as usize) <==> exists|a: int|
            0 <= a < ranked[i].len() && a < k && #[trigger] ranked[i][a] == j as usize,
        0 <= j < ranked.len() ==> (mutual(ranked, k, i, j) <==> (exists|a: int|
            0 <= a < ranked[i].len() && a < k && #[trigger] ranked[i][a] == j as usize) && (exists|b: int|
            0 <= b < ranked[j].len() && b < k && #[trigger] ranked[j][b] == i as usize)),
{
    let t = top_k_of(ranked, i, k);
    if t.contains(j as usize) {
        let a = choose|a: int| 0 <= a < t.len() && t[a] == j as usize;
        assert(ranked[i][a] == j as usize);
    }
    if exists|a: int| 0 <= a < ranked[i].len() && a < k && #[trigger] ranked[i][a] == j as usize {
        let a = choose|a: int| 0 <= a < ranked[i].len() && a < k && #[trigger] ranked[i][a] == j as usize;
        assert(t[a] == j as usize);
    }
    if 0 <= j < ranked.len() {
        let u = top_k_of(ranked, j, k);
        if u.contains(i as usize) {
            let b = choose|b: int| 0 <= b < u.len() && u[b] == i as usize;
            assert(ranked[j][b] == i as usize);
        }
        if exists|b: int| 0 <= b < ranked[j].len() && b < k && #[trigger] ranked[j][b] == i as usize {
            let b = choose|b: int| 0 <= b < ranked[j].len() && b < k && #[trigger] ranked[j][b] == i as usize;
            assert(u[b] == i as usize);
        }
    }
}

} // verus!
