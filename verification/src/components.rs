//! Connected components of the subgraph induced by one relation type.
//!
//! Two nodes are connected when a walk along edges of that relation joins
//! them. Each component is counted once, through its smallest node: a node
//! is a component's *leader* when no smaller node is connected to it.

use crate::graph::{edges_valid, edges_with_relation, Edge, FinancialGraph, RelationType};
use vstd::prelude::*;

verus! {

/// Some edge of `edges` joins `a` and `b` (in either direction).
pub open spec fn linked<W>(edges: Seq<Edge<W>>, a: int, b: int) -> bool {
    exists|k: int|
        0 <= k < edges.len() && ((#[trigger] edges[k].source.0 == a && edges[k].target.0 == b) || (
        edges[k].source.0 == b && edges[k].target.0 == a))
}

/// `p` is a walk: every two consecutive nodes of `p` are linked.
pub open spec fn is_walk<W>(edges: Seq<Edge<W>>, p: Seq<int>) -> bool {
    &&& p.len() >= 1
    &&& forall|i: int| 0 <= i < p.len() - 1 ==> linked(edges, #[trigger] p[i], p[i + 1])
}

/// A walk along `edges` leads from `x` to `y`.
pub open spec fn connected<W>(edges: Seq<Edge<W>>, x: int, y: int) -> bool {
    exists|p: Seq<int>| #[trigger] is_walk(edges, p) && p[0] == x && p.last() == y
}

/// No smaller node is connected to `x`.
pub open spec fn is_leader<W>(edges: Seq<Edge<W>>, x: int) -> bool {
    forall|y: int| 0 <= y < x ==> !#[trigger] connected(edges, x, y)
}

/// The number of leaders among nodes `0..m`.
pub open spec fn leader_count<W>(edges: Seq<Edge<W>>, m: int) -> int
    decreases m,
{
    if m <= 0 {
        0
    } else {
        leader_count(edges, m - 1) + if is_leader(edges, m - 1) {
            1int
        } else {
            0int
        }
    }
}

/// The number of connected components among nodes `0..n` joined by
/// `edges`: one per leader.
pub open spec fn component_count<W>(edges: Seq<Edge<W>>, n: int) -> int {
    leader_count(edges, n)
}

proof fn lemma_connected_refl<W>(edges: Seq<Edge<W>>, x: int)
    ensures
        connected(edges, x, x),
{
    let p = seq![x];
    assert(is_walk(edges, p));
}

proof fn lemma_connected_link<W>(edges: Seq<Edge<W>>, x: int, y: int)
    requires
        linked(edges, x, y),
    ensures
        connected(edges, x, y),
{
    let p = seq![x, y];
    assert(is_walk(edges, p));
}

proof fn lemma_connected_symm<W>(edges: Seq<Edge<W>>, x: int, y: int)
    requires
        connected(edges, x, y),
    ensures
        connected(edges, y, x),
{
    let p = choose|p: Seq<int>| #[trigger] is_walk(edges, p) && p[0] == x && p.last() == y;
    let q = p.reverse();
    assert forall|i: int| 0 <= i < q.len() - 1 implies linked(edges, #[trigger] q[i], q[i + 1]) by {
        let j = p.len() - 2 - i;
        assert(linked(edges, p[j], p[j + 1]));
        let k = choose|k: int|
            0 <= k < edges.len() && ((#[trigger] edges[k].source.0 == p[j] && edges[k].target.0 == p[j
                + 1]) || (edges[k].source.0 == p[j + 1] && edges[k].target.0 == p[j]));
        assert(q[i] == p[j + 1]);
        assert(q[i + 1] == p[j]);
    }
    assert(is_walk(edges, q));
}

proof fn lemma_connected_trans<W>(edges: Seq<Edge<W>>, x: int, y: int, z: int)
    requires
        connected(edges, x, y),
        connected(edges, y, z),
    ensures
        connected(edges, x, z),
{
    let p = choose|p: Seq<int>| #[trigger] is_walk(edges, p) && p[0] == x && p.last() == y;
    let q = choose|q: Seq<int>| #[trigger] is_walk(edges, q) && q[0] == y && q.last() == z;
    let r = p + q.drop_first();
    assert forall|i: int| 0 <= i < r.len() - 1 implies linked(edges, #[trigger] r[i], r[i + 1]) by {
        if i < p.len() - 1 {
            assert(r[i] == p[i] && r[i + 1] == p[i + 1]);
        } else if i == p.len() - 1 {
            assert(r[i] == q[0]);
            assert(r[i + 1] == q[1]);
        } else {
            let j = i - p.len() + 1;
            assert(r[i] == q[j] && r[i + 1] == q[j + 1]);
        }
    }
    if q.len() == 1 {
        assert(r.last() == p.last());
    } else {
        assert(r.last() == q.last());
    }
    assert(is_walk(edges, r));
}

proof fn lemma_linked_extend<W>(edges: Seq<Edge<W>>, e: Edge<W>, a: int, b: int)
    requires
        linked(edges, a, b),
    ensures
        linked(edges.push(e), a, b),
{
    let k = choose|k: int|
        0 <= k < edges.len() && ((#[trigger] edges[k].source.0 == a && edges[k].target.0 == b) || (
        edges[k].source.0 == b && edges[k].target.0 == a));
    assert(edges.push(e)[k] == edges[k]);
}

/// Adding an edge keeps every existing connection.
proof fn lemma_connected_extend<W>(edges: Seq<Edge<W>>, e: Edge<W>, x: int, y: int)
    requires
        connected(edges, x, y),
    ensures
        connected(edges.push(e), x, y),
{
    let p = choose|p: Seq<int>| #[trigger] is_walk(edges, p) && p[0] == x && p.last() == y;
    assert forall|i: int| 0 <= i < p.len() - 1 implies linked(edges.push(e), #[trigger] p[i], p[i + 1]) by {
        lemma_linked_extend(edges, e, p[i], p[i + 1]);
    }
    assert(is_walk(edges.push(e), p));
}

/// The ways a connection can arise once edge `e = (a, b)` is added: it
/// existed before, or it runs through the new edge.
pub open spec fn joined_through<W>(edges: Seq<Edge<W>>, a: int, b: int, x: int, y: int) -> bool {
    ||| connected(edges, x, y)
    ||| (connected(edges, x, a) && connected(edges, b, y))
    ||| (connected(edges, x, b) && connected(edges, a, y))
}

proof fn lemma_linked_new<W>(edges: Seq<Edge<W>>, e: Edge<W>, u: int, v: int)
    requires
        linked(edges.push(e), u, v),
    ensures
        linked(edges, u, v) || (e.source.0 == u && e.target.0 == v) || (e.source.0 == v
            && e.target.0 == u),
{
    let es = edges.push(e);
    let k = choose|k: int|
        0 <= k < es.len() && ((#[trigger] es[k].source.0 == u && es[k].target.0 == v) || (
        es[k].source.0 == v && es[k].target.0 == u));
    if k < edges.len() {
        assert(es[k] == edges[k]);
    }
}

proof fn lemma_walk_through_new_edge<W>(edges: Seq<Edge<W>>, e: Edge<W>, p: Seq<int>)
    requires
        is_walk(edges.push(e), p),
    ensures
        joined_through(edges, e.source.0 as int, e.target.0 as int, p[0], p.last()),
    decreases p.len(),
{
    let a = e.source.0 as int;
    let b = e.target.0 as int;
    let x = p[0];
    if p.len() == 1 {
        lemma_connected_refl(edges, x);
    } else {
        let q = p.drop_last();
        assert(is_walk(edges.push(e), q)) by {
            assert forall|i: int| 0 <= i < q.len() - 1 implies linked(
                edges.push(e),
                #[trigger] q[i],
                q[i + 1],
            ) by {
                assert(q[i] == p[i] && q[i + 1] == p[i + 1]);
            }
        }
        lemma_walk_through_new_edge(edges, e, q);
        let z = q.last();
        let y = p.last();
        assert(z == p[p.len() - 2]);
        assert(linked(edges.push(e), p[p.len() - 2], p[p.len() - 1]));
        lemma_linked_new(edges, e, z, y);
        if linked(edges, z, y) {
            lemma_connected_link(edges, z, y);
            if connected(edges, x, z) {
                lemma_connected_trans(edges, x, z, y);
            } else if connected(edges, x, a) && connected(edges, b, z) {
                lemma_connected_trans(edges, b, z, y);
            } else {
                lemma_connected_trans(edges, a, z, y);
            }
        } else if z == a && y == b {
            lemma_connected_refl(edges, b);
            if connected(edges, x, z) {
            } else if connected(edges, x, a) && connected(edges, b, z) {
                lemma_connected_symm(edges, b, z);
                lemma_connected_trans(edges, x, a, b);
                lemma_connected_trans(edges, x, b, b);
            }
        } else {
            assert(z == b && y == a);
            lemma_connected_refl(edges, a);
            if connected(edges, x, z) {
            } else if connected(edges, x, a) && connected(edges, b, z) {
                lemma_connected_trans(edges, x, a, a);
            } else {
                lemma_connected_symm(edges, a, z);
                lemma_connected_trans(edges, x, b, a);
            }
        }
    }
}

/// A connection after adding `e = (a, b)` existed before or runs through
/// the new edge.
proof fn lemma_connected_new<W>(edges: Seq<Edge<W>>, e: Edge<W>, x: int, y: int)
    requires
        connected(edges.push(e), x, y),
    ensures
        joined_through(edges, e.source.0 as int, e.target.0 as int, x, y),
{
    let p = choose|p: Seq<int>| #[trigger] is_walk(edges.push(e), p) && p[0] == x && p.last() == y;
    lemma_walk_through_new_edge(edges, e, p);
}

/// The labelling invariant: every node `x < n` carries the smallest node of
/// its component as its label.
pub open spec fn labels_are_leaders<W>(edges: Seq<Edge<W>>, labels: Seq<usize>, n: int) -> bool {
    &&& labels.len() == n
    &&& forall|x: int|
        0 <= x < n ==> {
            &&& (#[trigger] labels[x]) < n
            &&& connected(edges, x, labels[x] as int)
            &&& forall|y: int| 0 <= y < labels[x] ==> !connected(edges, x, y)
        }
}

/// Connected nodes carry the same label.
proof fn lemma_same_label<W>(edges: Seq<Edge<W>>, labels: Seq<usize>, n: int, x: int, y: int)
    requires
        labels_are_leaders(edges, labels, n),
        0 <= x < n,
        0 <= y < n,
        connected(edges, x, y),
    ensures
        labels[x] == labels[y],
{
    let lx = labels[x] as int;
    let ly = labels[y] as int;
    lemma_connected_symm(edges, x, y);
    lemma_connected_trans(edges, y, x, lx);
    lemma_connected_trans(edges, x, y, ly);
    if lx < ly {
        assert(!connected(edges, y, lx));
    } else if ly < lx {
        assert(!connected(edges, x, ly));
    }
}

/// A node connected to `a` lies at or above `a`'s label.
proof fn lemma_above_label<W>(edges: Seq<Edge<W>>, labels: Seq<usize>, n: int, a: int, y: int)
    requires
        labels_are_leaders(edges, labels, n),
        0 <= a < n,
        connected(edges, y, a),
        y >= 0,
    ensures
        y >= labels[a],
{
    lemma_connected_symm(edges, y, a);
    if y < labels[a] {
        assert(!connected(edges, a, y));
    }
}

/// Adding an edge whose endpoints already share a label changes no
/// connection.
proof fn lemma_merge_same<W>(edges: Seq<Edge<W>>, labels: Seq<usize>, n: int, e: Edge<W>)
    requires
        labels_are_leaders(edges, labels, n),
        e.source.0 < n,
        e.target.0 < n,
        labels[e.source.0 as int] == labels[e.target.0 as int],
    ensures
        labels_are_leaders(edges.push(e), labels, n),
{
    let a = e.source.0 as int;
    let b = e.target.0 as int;
    let es = edges.push(e);
    let l = labels[a] as int;
    lemma_connected_symm(edges, b, l);
    lemma_connected_trans(edges, a, l, b);
    assert forall|x: int| 0 <= x < n implies {
        &&& (#[trigger] labels[x]) < n
        &&& connected(es, x, labels[x] as int)
        &&& forall|y: int| 0 <= y < labels[x] ==> !connected(es, x, y)
    } by {
        lemma_connected_extend(edges, e, x, labels[x] as int);
        assert forall|y: int| 0 <= y < labels[x] implies !connected(es, x, y) by {
            if connected(es, x, y) {
                lemma_connected_new(edges, e, x, y);
                if connected(edges, x, a) && connected(edges, b, y) {
                    lemma_connected_trans(edges, x, a, b);
                    lemma_connected_trans(edges, x, b, y);
                } else if connected(edges, x, b) && connected(edges, a, y) {
                    lemma_connected_symm(edges, a, b);
                    lemma_connected_trans(edges, x, b, a);
                    lemma_connected_trans(edges, x, a, y);
                }
                assert(!connected(edges, x, y));
            }
        }
    }
}

/// Adding an edge between components labelled `lo < hi` relabels the `hi`
/// component to `lo`.
proof fn lemma_merge_distinct<W>(
    edges: Seq<Edge<W>>,
    labels: Seq<usize>,
    new_labels: Seq<usize>,
    n: int,
    e: Edge<W>,
)
    requires
        labels_are_leaders(edges, labels, n),
        e.source.0 < n,
        e.target.0 < n,
        labels[e.source.0 as int] != labels[e.target.0 as int],
        new_labels.len() == n,
        forall|x: int|
            0 <= x < n ==> #[trigger] new_labels[x] == if labels[x] == vstd::math::max(
                labels[e.source.0 as int] as int,
                labels[e.target.0 as int] as int,
            ) {
                vstd::math::min(
                    labels[e.source.0 as int] as int,
                    labels[e.target.0 as int] as int,
                ) as usize
            } else {
                labels[x]
            },
    ensures
        labels_are_leaders(edges.push(e), new_labels, n),
{
    let a = e.source.0 as int;
    let b = e.target.0 as int;
    let es = edges.push(e);
    let la = labels[a] as int;
    let lb = labels[b] as int;
    let lo = vstd::math::min(la, lb);
    let hi = vstd::math::max(la, lb);
    assert(linked(es, a, b)) by {
        assert(es[edges.len() as int] == e);
    }
    lemma_connected_link(es, a, b);
    lemma_connected_symm(es, a, b);
    lemma_connected_extend(edges, e, a, la);
    lemma_connected_extend(edges, e, b, lb);
    assert forall|x: int| 0 <= x < n implies {
        &&& (#[trigger] new_labels[x]) < n
        &&& connected(es, x, new_labels[x] as int)
        &&& forall|y: int| 0 <= y < new_labels[x] ==> !connected(es, x, y)
    } by {
        let lx = labels[x] as int;
        lemma_connected_extend(edges, e, x, lx);
        if lx == la || lx == lb {
            // x belongs to one of the two merged components.
            if lx == la {
                lemma_connected_symm(edges, a, la);
                lemma_connected_trans(edges, x, la, a);
                lemma_connected_extend(edges, e, x, a);
                lemma_connected_trans(es, x, a, b);
                lemma_connected_trans(es, x, b, lb);
            } else {
                lemma_connected_symm(edges, b, lb);
                lemma_connected_trans(edges, x, lb, b);
                lemma_connected_extend(edges, e, x, b);
                lemma_connected_trans(es, x, b, a);
                lemma_connected_trans(es, x, a, la);
            }
            assert(new_labels[x] as int == lo);
            assert forall|y: int| 0 <= y < new_labels[x] implies !connected(es, x, y) by {
                if connected(es, x, y) {
                    lemma_connected_new(edges, e, x, y);
                    // y is connected (before the edge) to x, a, or b.
                    if connected(edges, x, y) {
                        lemma_connected_symm(edges, x, y);
                        if lx == la {
                            lemma_connected_symm(edges, a, la);
                            lemma_connected_trans(edges, y, x, la);
                            lemma_connected_trans(edges, y, la, a);
                            lemma_above_label(edges, labels, n, a, y);
                        } else {
                            lemma_connected_symm(edges, b, lb);
                            lemma_connected_trans(edges, y, x, lb);
                            lemma_connected_trans(edges, y, lb, b);
                            lemma_above_label(edges, labels, n, b, y);
                        }
                    } else if connected(edges, b, y) {
                        lemma_connected_symm(edges, b, y);
                        lemma_above_label(edges, labels, n, b, y);
                    } else {
                        assert(connected(edges, a, y));
                        lemma_connected_symm(edges, a, y);
                        lemma_above_label(edges, labels, n, a, y);
                    }
                }
            }
        } else {
            // x's component is untouched: x reaches neither endpoint.
            assert(!connected(edges, x, a)) by {
                if connected(edges, x, a) {
                    lemma_same_label(edges, labels, n, x, a);
                }
            }
            assert(!connected(edges, x, b)) by {
                if connected(edges, x, b) {
                    lemma_same_label(edges, labels, n, x, b);
                }
            }
            assert(new_labels[x] == labels[x]);
            assert forall|y: int| 0 <= y < new_labels[x] implies !connected(es, x, y) by {
                if connected(es, x, y) {
                    lemma_connected_new(edges, e, x, y);
                }
            }
        }
    }
}

/// Whether a node's label is the node itself: exactly when it is a leader.
proof fn lemma_label_self_iff_leader<W>(edges: Seq<Edge<W>>, labels: Seq<usize>, n: int, x: int)
    requires
        labels_are_leaders(edges, labels, n),
        0 <= x < n,
    ensures
        (labels[x] == x) == is_leader(edges, x),
{
    lemma_connected_refl(edges, x);
    if labels[x] == x {
    } else {
        let l = labels[x] as int;
        if l > x {
            assert(!connected(edges, x, x));
        }
        assert(connected(edges, x, l));
        assert(!is_leader(edges, x));
    }
}

proof fn lemma_connected_empty<W>(edges: Seq<Edge<W>>, x: int, y: int)
    requires
        edges.len() == 0,
        connected(edges, x, y),
    ensures
        x == y,
{
    let p = choose|p: Seq<int>| #[trigger] is_walk(edges, p) && p[0] == x && p.last() == y;
    if p.len() > 1 {
        assert(linked(edges, p[0], p[1]));
    }
}

/// The number of connected components in the subgraph induced by
/// `relation`. An isolated node (no edges of that relation) is its own
/// component; an empty graph has none.
pub fn connected_components<W>(graph: &FinancialGraph<W>, relation: RelationType) -> (c: usize)
    requires
        graph.wf(),
    ensures
        c == component_count(
            edges_with_relation(graph.edge_seq(), relation),
            graph.node_seq().len() as int,
        ),
{
    proof {
        graph.lemma_wf_facts();
    }
    let n = graph.num_nodes();
    let edges = graph.edges_of_relation(relation);
    let ghost es = edges_with_relation(graph.edge_seq(), relation);
    proof {
        lemma_edges_with_relation_valid(graph.edge_seq(), relation, n as int);
    }
    let mut labels: Vec<usize> = Vec::new();
    let mut i: usize = 0;
    while i < n
        invariant
            i <= n,
            labels@.len() == i,
            forall|x: int| 0 <= x < i ==> #[trigger] labels@[x] == x,
        decreases n - i,
    {
        labels.push(i);
        i = i + 1;
    }
    proof {
        assert forall|x: int| 0 <= x < n implies {
            &&& (#[trigger] labels@[x]) < n
            &&& connected(es.take(0), x, labels@[x] as int)
            &&& forall|y: int| 0 <= y < labels@[x] ==> !connected(es.take(0), x, y)
        } by {
            lemma_connected_refl(es.take(0), x);
            assert forall|y: int| 0 <= y < labels@[x] implies !connected(es.take(0), x, y) by {
                if connected(es.take(0), x, y) {
                    lemma_connected_empty(es.take(0), x, y);
                }
            }
        }
    }
    let mut k: usize = 0;
    while k < edges.len()
        invariant
            edges@.map_values(|e: &Edge<W>| *e) == es,
            edges_valid(es, n as int),
            k <= edges@.len(),
            labels_are_leaders(es.take(k as int), labels@, n as int),
        decreases edges@.len() - k,
    {
        let e = edges[k];
        let a = e.source.0 as usize;
        let b = e.target.0 as usize;
        assert(*e == es[k as int]);
        assert(es.take(k + 1) == es.take(k as int).push(*e));
        let la = labels[a];
        let lb = labels[b];
        if la == lb {
            proof {
                lemma_merge_same(es.take(k as int), labels@, n as int, *e);
            }
        } else {
            let lo = if la < lb { la } else { lb };
            let hi = if la < lb { lb } else { la };
            let ghost old_labels = labels@;
            let mut x: usize = 0;
            while x < n
                invariant
                    x <= n,
                    labels@.len() == n,
                    old_labels.len() == n,
                    forall|y: int| x <= y < n ==> #[trigger] labels@[y] == old_labels[y],
                    forall|y: int|
                        0 <= y < x ==> #[trigger] labels@[y] == if old_labels[y] == hi {
                            lo
                        } else {
                            old_labels[y]
                        },
                decreases n - x,
            {
                if labels[x] == hi {
                    labels.set(x, lo);
                }
                x = x + 1;
            }
            proof {
                lemma_merge_distinct(es.take(k as int), old_labels, labels@, n as int, *e);
            }
        }
        k = k + 1;
    }
    assert(es.take(edges@.len() as int) == es);
    let mut count: usize = 0;
    let mut x: usize = 0;
    while x < n
        invariant
            x <= n,
            labels_are_leaders(es, labels@, n as int),
            count == leader_count(es, x as int),
            count <= x,
        decreases n - x,
    {
        proof {
            lemma_label_self_iff_leader(es, labels@, n as int, x as int);
        }
        if labels[x] == x {
            count = count + 1;
        }
        x = x + 1;
    }
    count
}

/// The edges of one relation are edges of the graph, so they are valid too.
pub proof fn lemma_edges_with_relation_valid<W>(edges: Seq<Edge<W>>, relation: RelationType, n: int)
    requires
        edges_valid(edges, n),
    ensures
        edges_valid(edges_with_relation(edges, relation), n),
    decreases edges.len(),
{
    if edges.len() > 0 {
        let d = edges.drop_last();
        assert forall|k: int| 0 <= k < d.len() implies {
            &&& (#[trigger] d[k]).source.0 < n
            &&& d[k].target.0 < n
            &&& d[k].source != d[k].target
        } by {
            assert(d[k] == edges[k]);
        }
        lemma_edges_with_relation_valid(d, relation, n);
        assert(edges.last() == edges[edges.len() - 1]);
    }
}

/// Connectivity is an equivalence relation: every node reaches itself, and
/// connections are symmetric and transitive.
pub proof fn lemma_connected_is_equivalence<W>(edges: Seq<Edge<W>>, x: int, y: int, z: int)
    ensures
        connected(edges, x, x),
        connected(edges, x, y) ==> connected(edges, y, x),
        connected(edges, x, y) && connected(edges, y, z) ==> connected(edges, x, z),
{
    lemma_connected_refl(edges, x);
    if connected(edges, x, y) {
        lemma_connected_symm(edges, x, y);
        if connected(edges, y, z) {
            lemma_connected_trans(edges, x, y, z);
        }
    }
}

/// With no edges every node is its own component: `n` nodes give `n`
/// components.
pub proof fn lemma_no_edges_all_isolated<W>(edges: Seq<Edge<W>>, n: int)
    requires
        edges.len() == 0,
        n >= 0,
    ensures
        component_count(edges, n) == n,
    decreases n,
{
    if n > 0 {
        lemma_no_edges_all_isolated(edges, n - 1);
        assert forall|y: int| 0 <= y < n - 1 implies !#[trigger] connected(edges, n - 1, y) by {
            if connected(edges, n - 1, y) {
                lemma_connected_empty(edges, n - 1, y);
            }
        }
    }
}

} // verus!
