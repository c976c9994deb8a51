//! Agreement between a learned topology and a reference graph (e.g. the
//! sector or correlation graph): how many learned edges a reference
//! corroborates.

use crate::components::{lemma_edges_with_relation_valid, linked};
use crate::graph::{edges_with_relation, neighbor_list, Edge, FinancialGraph, NodeId, RelationType};
use crate::topk::neighbor_nodes;
use vstd::prelude::*;

verus! {

/// The reference graph joins the entities named `a` and `b` by some edge
/// (of any relation).
pub open spec fn corroborates<V>(
    ref_nodes: Seq<Seq<char>>,
    ref_edges: Seq<Edge<V>>,
    a: Seq<char>,
    b: Seq<char>,
) -> bool {
    exists|i: int, j: int|
        0 <= i < ref_nodes.len() && 0 <= j < ref_nodes.len() && ref_nodes[i] == a && ref_nodes[j] == b
            && #[trigger] linked(ref_edges, i, j)
}

/// How many of `edges` (over nodes named by `nodes`) the reference
/// corroborates.
pub open spec fn corroborated_count<W, V>(
    edges: Seq<Edge<W>>,
    nodes: Seq<Seq<char>>,
    ref_nodes: Seq<Seq<char>>,
    ref_edges: Seq<Edge<V>>,
) -> nat
    decreases edges.len(),
{
    if edges.len() == 0 {
        0
    } else {
        let e = edges.last();
        corroborated_count(edges.drop_last(), nodes, ref_nodes, ref_edges) + if corroborates(
            ref_nodes,
            ref_edges,
            nodes[e.source.0 as int],
            nodes[e.target.0 as int],
        ) {
            1nat
        } else {
            0nat
        }
    }
}

proof fn lemma_neighbor_iff_linked<V>(edges: Seq<Edge<V>>, v: int, u: int)
    ensures
        neighbor_nodes(edges, v).contains(u) <==> linked(edges, v, u),
    decreases edges.len(),
{
    if edges.len() > 0 {
        let d = edges.drop_last();
        lemma_neighbor_iff_linked(d, v, u);
        let e = edges.last();
        let last = edges.len() - 1;
        assert(edges[last] == e);
        let rest = neighbor_nodes(d, v);
        let all = neighbor_nodes(edges, v);
        if linked(d, v, u) {
            let k = choose|k: int|
                0 <= k < d.len() && ((#[trigger] d[k].source.0 == v && d[k].target.0 == u) || (
                d[k].source.0 == u && d[k].target.0 == v));
            assert(edges[k] == d[k]);
        }
        if linked(edges, v, u) && !linked(d, v, u) {
            let k = choose|k: int|
                0 <= k < edges.len() && ((#[trigger] edges[k].source.0 == v && edges[k].target.0 == u)
                    || (edges[k].source.0 == u && edges[k].target.0 == v));
            if k < last {
                assert(edges[k] == d[k]);
            }
        }
        if e.source.0 == v || e.target.0 == v {
            let w = if e.source.0 == v {
                e.target.0 as int
            } else {
                e.source.0 as int
            };
            assert(all == rest.push(w));
            if all.contains(u) && !rest.contains(u) {
                let q = choose|q: int| 0 <= q < all.len() && all[q] == u;
                if q < rest.len() {
                    assert(rest[q] == u);
                }
            }
            if rest.contains(u) {
                let q = choose|q: int| 0 <= q < rest.len() && rest[q] == u;
                assert(all[q] == u);
            }
            if w == u {
                assert(all[rest.len() as int] == u);
            }
        } else {
            assert(all == rest);
        }
    }
}

/// Whether `reference` joins the entities of learned nodes `s` and `t`.
fn corroborated<W, V>(learned: &FinancialGraph<W>, reference: &FinancialGraph<V>, s: NodeId, t: NodeId) -> (b:
    bool)
    requires
        learned.wf(),
        reference.wf(),
        s.0 < learned.node_seq().len(),
        t.0 < learned.node_seq().len(),
    ensures
        b == corroborates(
            reference.node_seq(),
            reference.edge_seq(),
            learned.node_seq()[s.0 as int],
            learned.node_seq()[t.0 as int],
        ),
{
    proof {
        reference.lemma_wf_facts();
    }
    let a = learned.entity(s).unwrap();
    let b = learned.entity(t).unwrap();
    let ra = reference.node_id(a);
    let rb = reference.node_id(b);
    let ghost rn = reference.node_seq();
    let ghost re = reference.edge_seq();
    match (ra, rb) {
        (Some(ra), Some(rb)) => {
            let nbrs = reference.neighbors(ra, None);
            let mut found = false;
            let mut k: usize = 0;
            let ghost nl = neighbor_list(re, ra.0 as int, None);
            while k < nbrs.len()
                invariant
                    k <= nbrs@.len(),
                    nbrs@.map_values(|p: (NodeId, &Edge<V>)| (p.0, *p.1)) == nl,
                    found == exists|q: int| 0 <= q < k && (#[trigger] nbrs@[q]).0 == rb,
                decreases nbrs@.len() - k,
            {
                if nbrs[k].0 == rb {
                    found = true;
                }
                k = k + 1;
            }
            proof {
                lemma_neighbor_iff_linked(re, ra.0 as int, rb.0 as int);
                let nn = neighbor_nodes(re, ra.0 as int);
                assert(nn.len() == nbrs@.len());
                assert forall|q: int| 0 <= q < nn.len() implies nn[q] == (#[trigger] nbrs@[q]).0.0 as int by {
                    assert(nl[q] == (nbrs@[q].0, *nbrs@[q].1));
                }
                if found {
                    let q = choose|q: int| 0 <= q < k && (#[trigger] nbrs@[q]).0 == rb;
                    assert(nn[q] == rb.0 as int);
                    assert(linked(re, ra.0 as int, rb.0 as int));
                } else {
                    if nn.contains(rb.0 as int) {
                        let q = choose|q: int| 0 <= q < nn.len() && nn[q] == rb.0 as int;
                        assert(nbrs@[q].0 == rb);
                    }
                    assert forall|i: int, j: int|
                        0 <= i < rn.len() && 0 <= j < rn.len() && rn[i] == a@ && rn[j] == b@ implies !#[trigger] linked(
                        re,
                        i,
                        j,
                    ) by {
                        reference.lemma_wf_facts();
                        if i != ra.0 {
                            assert(rn[i] != rn[ra.0 as int]);
                        }
                        if j != rb.0 {
                            assert(rn[j] != rn[rb.0 as int]);
                        }
                    }
                }
            }
            found
        },
        _ => false,
    }
}

/// `(corroborated, total)`: of the learned graph's `Learned` edges
/// (`total` of them), how many join entities that the reference graph also
/// joins by an edge of any relation. An endpoint missing from the reference
/// counts as not corroborated. The loss `1 - corroborated / total` (and `1`
/// when there are no learned edges) is computed from these counts.
pub fn relation_overlap<W, V>(learned: &FinancialGraph<W>, reference: &FinancialGraph<V>) -> (r: (
    usize,
    usize,
))
    requires
        learned.wf(),
        reference.wf(),
    ensures
        r.1 == edges_with_relation(learned.edge_seq(), RelationType::Learned).len(),
        r.0 == corroborated_count(
            edges_with_relation(learned.edge_seq(), RelationType::Learned),
            learned.node_seq(),
            reference.node_seq(),
            reference.edge_seq(),
        ),
        r.0 <= r.1,
{
    proof {
        learned.lemma_wf_facts();
        lemma_edges_with_relation_valid(
            learned.edge_seq(),
            RelationType::Learned,
            learned.node_seq().len() as int,
        );
    }
    let edges = learned.edges_of_relation(RelationType::Learned);
    let ghost es = edges_with_relation(learned.edge_seq(), RelationType::Learned);
    let mut count: usize = 0;
    let mut k: usize = 0;
    while k < edges.len()
        invariant
            learned.wf(),
            reference.wf(),
            edges@.map_values(|e: &Edge<W>| *e) == es,
            crate::graph::edges_valid(es, learned.node_seq().len() as int),
            k <= edges@.len(),
            count <= k,
            count == corroborated_count(
                es.take(k as int),
                learned.node_seq(),
                reference.node_seq(),
                reference.edge_seq(),
            ),
        decreases edges@.len() - k,
    {
        let e = edges[k];
        assert(*e == es[k as int]);
        assert(es.take(k + 1).drop_last() == es.take(k as int));
        if corroborated(learned, reference, e.source, e.target) {
            count = count + 1;
        }
        k = k + 1;
    }
    assert(es.take(edges@.len() as int) == es);
    (count, edges.len())
}

/// The overlap counts say what the relation loss promises: every learned
/// edge is corroborated exactly when the count reaches the number of
/// edges, and none is exactly when the count is zero; the count never
/// exceeds the number of edges.
pub proof fn lemma_overlap_extremes<W, V>(
    edges: Seq<Edge<W>>,
    nodes: Seq<Seq<char>>,
    ref_nodes: Seq<Seq<char>>,
    ref_edges: Seq<Edge<V>>,
)
    ensures
        corroborated_count(edges, nodes, ref_nodes, ref_edges) <= edges.len(),
        (corroborated_count(edges, nodes, ref_nodes, ref_edges) == edges.len()) <==> (forall|k: int|
            0 <= k < edges.len() ==> corroborates(
                ref_nodes,
                ref_edges,
                nodes[(#[trigger] edges[k]).source.0 as int],
                nodes[edges[k].target.0 as int],
            )),
        (corroborated_count(edges, nodes, ref_nodes, ref_edges) == 0) <==> (forall|k: int|
            0 <= k < edges.len() ==> !corroborates(
                ref_nodes,
                ref_edges,
                nodes[(#[trigger] edges[k]).source.0 as int],
                nodes[edges[k].target.0 as int],
            )),
    decreases edges.len(),
{
    if edges.len() > 0 {
        let d = edges.drop_last();
        lemma_overlap_extremes(d, nodes, ref_nodes, ref_edges);
        assert forall|k: int| 0 <= k < d.len() implies d[k] == edges[k] by {}
        assert(edges.last() == edges[edges.len() - 1]);
    }
}

/// The reference corroborates the pair named `a` and `b` exactly when one
/// of its edges, of any relation and in either direction, joins a node
/// named `a` to a node named `b`.
pub proof fn lemma_corroborated_iff_some_edge_joins<V>(
    ref_nodes: Seq<Seq<char>>,
    ref_edges: Seq<Edge<V>>,
    a: Seq<char>,
    b: Seq<char>,
)
    requires
        crate::graph::edges_valid(ref_edges, ref_nodes.len() as int),
    ensures
        corroborates(ref_nodes, ref_edges, a, b) <==> exists|k: int|
            0 <= k < ref_edges.len() && ((ref_nodes[(#[trigger] ref_edges[k]).source.0 as int] == a
                && ref_nodes[ref_edges[k].target.0 as int] == b) || (ref_nodes[ref_edges[k].source.0 as int]
                == b && ref_nodes[ref_edges[k].target.0 as int] == a)),
{
    if corroborates(ref_nodes, ref_edges, a, b) {
        let (i, j) = choose|i: int, j: int|
            0 <= i < ref_nodes.len() && 0 <= j < ref_nodes.len() && ref_nodes[i] == a && ref_nodes[j] == b
                && #[trigger] linked(ref_edges, i, j);
        let k = choose|k: int|
            0 <= k < ref_edges.len() && ((#[trigger] ref_edges[k].source.0 == i && ref_edges[k].target.0
                == j) || (ref_edges[k].source.0 == j && ref_edges[k].target.0 == i));
        assert(ref_edges[k] == ref_edges[k]);
    }
    if exists|k: int|
        0 <= k < ref_edges.len() && ((ref_nodes[(#[trigger] ref_edges[k]).source.0 as int] == a
            && ref_nodes[ref_edges[k].target.0 as int] == b) || (ref_nodes[ref_edges[k].source.0 as int]
            == b && ref_nodes[ref_edges[k].target.0 as int] == a)) {
        let k = choose|k: int|
            0 <= k < ref_edges.len() && ((ref_nodes[(#[trigger] ref_edges[k]).source.0 as int] == a
                && ref_nodes[ref_edges[k].target.0 as int] == b) || (ref_nodes[ref_edges[k].source.0 as int]
                == b && ref_nodes[ref_edges[k].target.0 as int] == a));
        let e = ref_edges[k];
        let s = e.source.0 as int;
        let t = e.target.0 as int;
        if ref_nodes[s] == a && ref_nodes[t] == b {
            assert(linked(ref_edges, s, t));
        } else {
            assert(linked(ref_edges, t, s));
        }
    }
}

/// The overlap count adds up over any split of the learned edges, and a
/// single edge counts one exactly when the reference corroborates its
/// endpoints' entities: so it is the number of corroborated edges.
pub proof fn lemma_corroborated_count_counts_edges<W, V>(
    a: Seq<Edge<W>>,
    b: Seq<Edge<W>>,
    e: Edge<W>,
    nodes: Seq<Seq<char>>,
    ref_nodes: Seq<Seq<char>>,
    ref_edges: Seq<Edge<V>>,
)
    ensures
        corroborated_count(a + b, nodes, ref_nodes, ref_edges) == corroborated_count(
            a,
            nodes,
            ref_nodes,
            ref_edges,
        ) + corroborated_count(b, nodes, ref_nodes, ref_edges),
        corroborated_count(seq![e], nodes, ref_nodes, ref_edges) == (if corroborates(
            ref_nodes,
            ref_edges,
            nodes[e.source.0 as int],
            nodes[e.target.0 as int],
        ) {
            1int
        } else {
            0int
        }),
    decreases b.len(),
{
    assert(seq![e].len() == 1);
    assert(seq![e].drop_last() =~= Seq::<Edge<W>>::empty());
    assert(seq![e].last() == e);
    assert(corroborated_count(Seq::<Edge<W>>::empty(), nodes, ref_nodes, ref_edges) == 0);
    if b.len() == 0 {
        assert(a + b =~= a);
    } else {
        lemma_corroborated_count_counts_edges(a, b.drop_last(), e, nodes, ref_nodes, ref_edges);
        assert((a + b).drop_last() =~= a + b.drop_last());
        assert((a + b).last() == b.last());
    }
}

} // verus!
