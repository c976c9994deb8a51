//! Bookkeeping for topology persistence across time: node-pair keys that
//! identify an undirected edge by entity identity (not by position), the
//! diff between two persisted topologies (edges created, deleted,
//! persisted), reading the learned edges of a topology by key, and
//! building the persisted topology from weighted keys. Blending the
//! weights themselves is real-valued arithmetic done by the caller.

use crate::components::lemma_edges_with_relation_valid;
use crate::graph::{distinct_entities, edges_with_relation, Edge, FinancialGraph, NodeId, RelationType};
use crate::identifiers::{bytes_le, entity_bytes, entity_le, EntityId};
use crate::timestamp::Timestamp;
use vstd::prelude::*;

verus! {

/// An undirected node pair, identified by entity, in canonical order.
pub type PairKey = (EntityId, EntityId);

/// The text of both entities of a key.
pub open spec fn key_view(k: PairKey) -> (Seq<char>, Seq<char>) {
    (k.0@, k.1@)
}

/// The canonical key of the pair `{a, b}`: the identifier that sorts
/// first comes first.
pub open spec fn canonical_view(a: Seq<char>, b: Seq<char>) -> (Seq<char>, Seq<char>) {
    if bytes_le(vstd::utf8::encode_utf8(a), vstd::utf8::encode_utf8(b)) {
        (a, b)
    } else {
        (b, a)
    }
}

/// The key of the pair `{a, b}`, with the smaller identifier first.
pub fn canonical_key(a: &EntityId, b: &EntityId) -> (k: PairKey)
    ensures
        key_view(k) == canonical_view(a@, b@),
{
    if entity_le(a, b) {
        (a.copied(), b.copied())
    } else {
        (b.copied(), a.copied())
    }
}

proof fn lemma_bytes_le_total(x: Seq<u8>, y: Seq<u8>)
    ensures
        bytes_le(x, y) || bytes_le(y, x),
        bytes_le(x, y) && bytes_le(y, x) ==> x == y,
    decreases x.len(),
{
    if x.len() > 0 && y.len() > 0 && x[0] == y[0] {
        lemma_bytes_le_total(x.drop_first(), y.drop_first());
        if x.drop_first() == y.drop_first() {
            assert(x == seq![x[0]] + x.drop_first());
            assert(y == seq![y[0]] + y.drop_first());
        }
    }
}

/// The key of a pair does not depend on the order its endpoints are given
/// in.
pub proof fn lemma_canonical_key_symmetric(a: Seq<char>, b: Seq<char>)
    ensures
        canonical_view(a, b) == canonical_view(b, a),
{
    let x = vstd::utf8::encode_utf8(a);
    let y = vstd::utf8::encode_utf8(b);
    lemma_bytes_le_total(x, y);
    if bytes_le(x, y) && bytes_le(y, x) {
        vstd::utf8::encode_utf8_decode_utf8(a);
        vstd::utf8::encode_utf8_decode_utf8(b);
    }
}

/// What changed between two persisted topologies.
#[derive(Debug, Clone, Default, PartialEq)]
pub struct TopologyDiff {
    pub created: Vec<PairKey>,
    pub deleted: Vec<PairKey>,
    pub persisted: Vec<PairKey>,
}

/// The keys of `ks`, as text pairs.
pub open spec fn key_views(ks: Seq<PairKey>) -> Seq<(Seq<char>, Seq<char>)> {
    ks.map_values(|k: PairKey| key_view(k))
}

/// The keys of `from` that are (`keep == true`) or are not
/// (`keep == false`) among `other`, in the order of `from`.
pub open spec fn keys_filtered(
    from: Seq<(Seq<char>, Seq<char>)>,
    other: Seq<(Seq<char>, Seq<char>)>,
    keep: bool,
) -> Seq<(Seq<char>, Seq<char>)>
    decreases from.len(),
{
    if from.len() == 0 {
        Seq::empty()
    } else if other.contains(from.last()) == keep {
        keys_filtered(from.drop_last(), other, keep).push(from.last())
    } else {
        keys_filtered(from.drop_last(), other, keep)
    }
}

fn key_eq(x: &PairKey, y: &PairKey) -> (b: bool)
    ensures
        b == (key_view(*x) == key_view(*y)),
{
    x.0 == y.0 && x.1 == y.1
}

fn contains_key(ks: &[PairKey], k: &PairKey) -> (b: bool)
    ensures
        b == key_views(ks@).contains(key_view(*k)),
{
    let mut i: usize = 0;
    while i < ks.len()
        invariant
            i <= ks@.len(),
            forall|j: int| 0 <= j < i ==> key_view(ks@[j]) != key_view(*k),
        decreases ks@.len() - i,
    {
        if key_eq(&ks[i], k) {
            assert(key_views(ks@)[i as int] == key_view(*k));
            return true;
        }
        i = i + 1;
    }
    assert forall|j: int| 0 <= j < key_views(ks@).len() implies key_views(ks@)[j] != key_view(*k) by {
        assert(key_views(ks@)[j] == key_view(ks@[j]));
    }
    false
}

fn copy_key(k: &PairKey) -> (r: PairKey)
    ensures
        key_view(r) == key_view(*k),
{
    (k.0.copied(), k.1.copied())
}

/// The keys of `from` that are (or are not) among `other`, copied, in order.
fn select_keys(from: &[PairKey], other: &[PairKey], keep: bool) -> (r: Vec<PairKey>)
    ensures
        key_views(r@) == keys_filtered(key_views(from@), key_views(other@), keep),
{
    let mut r: Vec<PairKey> = Vec::new();
    let mut i: usize = 0;
    while i < from.len()
        invariant
            i <= from@.len(),
            key_views(r@) == keys_filtered(key_views(from@.take(i as int)), key_views(other@), keep),
        decreases from@.len() - i,
    {
        let found = contains_key(other, &from[i]);
        let ghost before = r@;
        assert(key_views(from@.take(i + 1)).drop_last() == key_views(from@.take(i as int)));
        assert(key_views(from@.take(i + 1)).last() == key_view(from@[i as int]));
        if found == keep {
            r.push(copy_key(&from[i]));
            assert(key_views(r@) == key_views(before).push(key_view(from@[i as int])));
        }
        i = i + 1;
    }
    assert(from@.take(from@.len() as int) == from@);
    r
}

/// The diff from topology `before` to topology `after`, given by their edge
/// keys: `created` holds the keys of `after` missing from `before` (in the
/// order of `after`), `deleted` the keys of `before` missing from `after`,
/// and `persisted` the keys of `before` also in `after` (both in the order
/// of `before`).
pub fn topology_diff(before: &[PairKey], after: &[PairKey]) -> (d: TopologyDiff)
    ensures
        key_views(d.created@) == keys_filtered(key_views(after@), key_views(before@), false),
        key_views(d.deleted@) == keys_filtered(key_views(before@), key_views(after@), false),
        key_views(d.persisted@) == keys_filtered(key_views(before@), key_views(after@), true),
{
    TopologyDiff {
        created: select_keys(after, before, false),
        deleted: select_keys(before, after, false),
        persisted: select_keys(before, after, true),
    }
}

proof fn lemma_keys_filtered_membership(
    from: Seq<(Seq<char>, Seq<char>)>,
    other: Seq<(Seq<char>, Seq<char>)>,
    keep: bool,
    k: (Seq<char>, Seq<char>),
)
    ensures
        keys_filtered(from, other, keep).contains(k) <==> (from.contains(k) && other.contains(k)
            == keep),
    decreases from.len(),
{
    if from.len() > 0 {
        let d = from.drop_last();
        lemma_keys_filtered_membership(d, other, keep, k);
        let rest = keys_filtered(d, other, keep);
        if from.contains(k) && !d.contains(k) {
            assert(from.last() == k) by {
                let i = choose|i: int| 0 <= i < from.len() && from[i] == k;
                if i < from.len() - 1 {
                    assert(d[i] == k);
                }
            }
        }
        if d.contains(k) {
            let i = choose|i: int| 0 <= i < d.len() && d[i] == k;
            assert(from[i] == k);
        }
        if other.contains(from.last()) == keep {
            assert(rest.push(from.last()).last() == from.last());
            if rest.push(from.last()).contains(k) && !rest.contains(k) {
                let i = choose|i: int| 0 <= i < rest.len() + 1 && rest.push(from.last())[i] == k;
                if i < rest.len() {
                    assert(rest[i] == k);
                }
            }
            if rest.contains(k) {
                let i = choose|i: int| 0 <= i < rest.len() && rest[i] == k;
                assert(rest.push(from.last())[i] == k);
            }
        }
        assert(from[from.len() - 1] == from.last());
    }
}

/// Every key of either topology is accounted for exactly as the diff
/// promises: a key of `after` is created or persisted, never both; a key of
/// `before` is deleted or persisted, never both; and persisted keys are
/// exactly those in both.
pub proof fn lemma_diff_partitions_keys(
    before: Seq<(Seq<char>, Seq<char>)>,
    after: Seq<(Seq<char>, Seq<char>)>,
    k: (Seq<char>, Seq<char>),
)
    ensures
        keys_filtered(after, before, false).contains(k) <==> (after.contains(k) && !before.contains(
            k,
        )),
        keys_filtered(before, after, false).contains(k) <==> (before.contains(k) && !after.contains(
            k,
        )),
        keys_filtered(before, after, true).contains(k) <==> (before.contains(k) && after.contains(
            k,
        )),
{
    lemma_keys_filtered_membership(after, before, false, k);
    lemma_keys_filtered_membership(before, after, false, k);
    lemma_keys_filtered_membership(before, after, true, k);
}

/// A key and weight, as text and weight.
pub open spec fn pair_weight_views<W>(ps: Seq<(PairKey, W)>) -> Seq<((Seq<char>, Seq<char>), W)> {
    ps.map_values(|p: (PairKey, W)| (key_view(p.0), p.1))
}

/// The canonical key and the weight of every edge of `edges`, in order,
/// over a graph whose node identities are `nodes`.
pub open spec fn edge_pair_weights<W>(nodes: Seq<Seq<char>>, edges: Seq<Edge<W>>) -> Seq<
    ((Seq<char>, Seq<char>), W),
> {
    edges.map_values(
        |e: Edge<W>| (canonical_view(nodes[e.source.0 as int], nodes[e.target.0 as int]), e.weight),
    )
}

/// The position of identity `e` among `nodes`.
pub open spec fn node_index(nodes: Seq<Seq<char>>, e: Seq<char>) -> int {
    choose|i: int| 0 <= i < nodes.len() && nodes[i] == e
}

/// The edges a persisted topology over `nodes` holds for the weighted
/// keys `pairs`: one `Learned` edge per key whose two entities are both
/// nodes, in the order of `pairs`, stamped with `timestamp`.
pub open spec fn persisted_edges<W>(
    nodes: Seq<Seq<char>>,
    pairs: Seq<((Seq<char>, Seq<char>), W)>,
    timestamp: Timestamp,
) -> Seq<Edge<W>>
    decreases pairs.len(),
{
    if pairs.len() == 0 {
        Seq::empty()
    } else {
        let rest = persisted_edges(nodes, pairs.drop_last(), timestamp);
        let k = pairs.last().0;
        if nodes.contains(k.0) && nodes.contains(k.1) {
            rest.push(
                Edge {
                    source: NodeId(node_index(nodes, k.0) as u32),
                    target: NodeId(node_index(nodes, k.1) as u32),
                    relation: RelationType::Learned,
                    weight: pairs.last().1,
                    timestamp,
                },
            )
        } else {
            rest
        }
    }
}

/// The canonical key and weight of every `Learned` edge of `graph`, in
/// edge order: what a topology contributes to the next persisted one.
pub fn learned_pair_weights<W: Copy>(graph: &FinancialGraph<W>) -> (r: Vec<(PairKey, W)>)
    requires
        graph.wf(),
    ensures
        pair_weight_views(r@) == edge_pair_weights(
            graph.node_seq(),
            edges_with_relation(graph.edge_seq(), RelationType::Learned),
        ),
{
    let learned = graph.edges_of_relation(RelationType::Learned);
    let ghost es = edges_with_relation(graph.edge_seq(), RelationType::Learned);
    proof {
        graph.lemma_wf_facts();
        lemma_edges_with_relation_valid(
            graph.edge_seq(),
            RelationType::Learned,
            graph.node_seq().len() as int,
        );
        assert(learned@.len() == es.len());
    }
    let mut r: Vec<(PairKey, W)> = Vec::new();
    let mut i: usize = 0;
    while i < learned.len()
        invariant
            graph.wf(),
            learned@.map_values(|e: &Edge<W>| *e) == es,
            es == edges_with_relation(graph.edge_seq(), RelationType::Learned),
            crate::graph::edges_valid(es, graph.node_seq().len() as int),
            i <= learned@.len(),
            pair_weight_views(r@) == edge_pair_weights(graph.node_seq(), es.take(i as int)),
        decreases learned@.len() - i,
    {
        let e = learned[i];
        assert(*e == es[i as int]);
        let ghost before = r@;
        match (graph.entity(e.source), graph.entity(e.target)) {
            (Some(a), Some(b)) => {
                r.push((canonical_key(a, b), e.weight));
            },
            _ => {
                assert(false);
            },
        }
        assert(es.take(i + 1) == es.take(i as int).push(es[i as int]));
        assert(pair_weight_views(r@) == pair_weight_views(before).push(
            pair_weight_views(r@).last(),
        ));
        i = i + 1;
    }
    assert(es.take(es.len() as int) == es);
    r
}

/// The persisted topology over `nodes`: one `Learned` edge, stamped with
/// `timestamp`, for each weighted key of `pairs` whose two entities are
/// both nodes; a key naming an entity outside `nodes` is left out. The
/// node identities must be distinct, no key may name the same node twice
/// (that would be a self-loop), and the edges must fit the graph's `u32`
/// edge ids.
pub fn persisted_graph<W: Copy>(nodes: Vec<EntityId>, pairs: &[(PairKey, W)], timestamp: Timestamp) -> (g:
    FinancialGraph<W>)
    requires
        distinct_entities(nodes@.map_values(|e: EntityId| e@)),
        nodes@.len() <= u32::MAX,
        persisted_edges(nodes@.map_values(|e: EntityId| e@), pair_weight_views(pairs@), timestamp).len()
            <= u32::MAX,
        forall|i: int|
            0 <= i < pairs@.len() && (#[trigger] pairs@[i]).0.0@ == pairs@[i].0.1@ ==> !nodes@.map_values(
                |e: EntityId| e@,
            ).contains(pairs@[i].0.0@),
    ensures
        g.wf(),
        g.node_seq() == nodes@.map_values(|e: EntityId| e@),
        g.edge_seq() == persisted_edges(g.node_seq(), pair_weight_views(pairs@), timestamp),
{
    let ghost ns = nodes@.map_values(|e: EntityId| e@);
    let mut g: FinancialGraph<W> = FinancialGraph::new(nodes);
    let mut i: usize = 0;
    while i < pairs.len()
        invariant
            g.wf(),
            g.node_seq() == ns,
            distinct_entities(ns),
            i <= pairs@.len(),
            persisted_edges(ns, pair_weight_views(pairs@), timestamp).len() <= u32::MAX,
            forall|j: int|
                0 <= j < pairs@.len() && (#[trigger] pairs@[j]).0.0@ == pairs@[j].0.1@ ==> !ns.contains(
                    pairs@[j].0.0@,
                ),
            g.edge_seq() == persisted_edges(ns, pair_weight_views(pairs@).take(i as int), timestamp),
        decreases pairs@.len() - i,
    {
        let ghost pv = pair_weight_views(pairs@);
        assert(pv.take(i + 1).drop_last() == pv.take(i as int));
        assert(pv.take(i + 1).last() == pv[i as int]);
        proof {
            lemma_persisted_edges_len_mono(ns, pv, i + 1, pv.len() as int, timestamp);
            assert(pv.take(pv.len() as int) == pv);
        }
        let (key, weight) = &pairs[i];
        let a = g.node_id(&key.0);
        let b = g.node_id(&key.1);
        match (a, b) {
            (Some(s), Some(t)) => {
                proof {
                    assert(ns.contains(key.0@));
                    assert(ns.contains(key.1@));
                    let ia = node_index(ns, key.0@);
                    let ib = node_index(ns, key.1@);
                    assert(ns[s.0 as int] == key.0@);
                    assert(ns[t.0 as int] == key.1@);
                    assert(ns[ia] == key.0@ && 0 <= ia < ns.len());
                    assert(ns[ib] == key.1@ && 0 <= ib < ns.len());
                    if s.0 == t.0 {
                        assert(key.0@ == key.1@);
                        assert(!ns.contains(key.0@));
                    }
                }
                let _ = g.add_edge(
                    Edge { source: s, target: t, relation: RelationType::Learned, weight: *weight, timestamp },
                );
            },
            _ => {
                proof {
                    if ns.contains(key.0@) {
                        let j = choose|j: int| 0 <= j < ns.len() && ns[j] == key.0@;
                        assert(a.is_some());
                    }
                    if ns.contains(key.1@) {
                        let j = choose|j: int| 0 <= j < ns.len() && ns[j] == key.1@;
                        assert(b.is_some());
                    }
                }
            },
        }
        i = i + 1;
    }
    assert(pair_weight_views(pairs@).take(pairs@.len() as int) == pair_weight_views(pairs@));
    g
}

proof fn lemma_persisted_edges_len_mono<W>(
    nodes: Seq<Seq<char>>,
    pairs: Seq<((Seq<char>, Seq<char>), W)>,
    i: int,
    j: int,
    timestamp: Timestamp,
)
    requires
        0 <= i <= j <= pairs.len(),
    ensures
        persisted_edges(nodes, pairs.take(i), timestamp).len() <= persisted_edges(
            nodes,
            pairs.take(j),
            timestamp,
        ).len(),
    decreases j - i,
{
    if i < j {
        lemma_persisted_edges_len_mono(nodes, pairs, i, j - 1, timestamp);
        assert(pairs.take(j).drop_last() == pairs.take(j - 1));
    }
}

/// A key is canonical when its entities are in canonical order.
pub open spec fn is_canonical(k: (Seq<char>, Seq<char>)) -> bool {
    k == canonical_view(k.0, k.1)
}

/// Whether both entities of a weighted key are among `nodes`.
pub open spec fn within_nodes<W>(nodes: Seq<Seq<char>>) -> spec_fn(((Seq<char>, Seq<char>), W)) -> bool {
    |p: ((Seq<char>, Seq<char>), W)| nodes.contains(p.0.0) && nodes.contains(p.0.1)
}

/// A persisted topology reads back as the weighted keys it was built from:
/// every edge it holds is `Learned`, and the canonical keys and weights of
/// its edges, in order, are exactly those of `pairs` whose two entities are
/// both nodes. So what one update writes is what the next update reads.
pub proof fn lemma_persisted_topology_reads_back<W>(
    nodes: Seq<Seq<char>>,
    pairs: Seq<((Seq<char>, Seq<char>), W)>,
    timestamp: Timestamp,
)
    requires
        nodes.len() <= u32::MAX,
        forall|i: int| 0 <= i < pairs.len() ==> is_canonical(#[trigger] pairs[i].0),
    ensures
        edges_with_relation(persisted_edges(nodes, pairs, timestamp), RelationType::Learned)
            == persisted_edges(nodes, pairs, timestamp),
        edge_pair_weights(nodes, persisted_edges(nodes, pairs, timestamp)) == pairs.filter(
            within_nodes::<W>(nodes),
        ),
    decreases pairs.len(),
{
    reveal(Seq::filter);
    if pairs.len() > 0 {
        let d = pairs.drop_last();
        assert forall|i: int| 0 <= i < d.len() implies is_canonical(#[trigger] d[i].0) by {
            assert(d[i] == pairs[i]);
        }
        lemma_persisted_topology_reads_back(nodes, d, timestamp);
        let rest = persisted_edges(nodes, d, timestamp);
        let k = pairs.last().0;
        assert(is_canonical(pairs[pairs.len() - 1].0));
        if nodes.contains(k.0) && nodes.contains(k.1) {
            let ia = node_index(nodes, k.0);
            let ib = node_index(nodes, k.1);
            assert(0 <= ia < nodes.len() && nodes[ia] == k.0);
            assert(0 <= ib < nodes.len() && nodes[ib] == k.1);
            let e = Edge {
                source: NodeId(ia as u32),
                target: NodeId(ib as u32),
                relation: RelationType::Learned,
                weight: pairs.last().1,
                timestamp,
            };
            assert(persisted_edges(nodes, pairs, timestamp) == rest.push(e));
            assert(rest.push(e).drop_last() == rest);
            assert(edge_pair_weights(nodes, rest.push(e)) == edge_pair_weights(nodes, rest).push(
                (canonical_view(nodes[ia], nodes[ib]), e.weight),
            ));
            assert(within_nodes::<W>(nodes)(pairs.last()));
        } else {
            assert(!within_nodes::<W>(nodes)(pairs.last()));
        }
    }
}

/// Every key that `canonical_key` produces is canonical, so the keys read
/// from a topology satisfy what reading a persisted topology back needs.
pub proof fn lemma_canonical_view_is_canonical(a: Seq<char>, b: Seq<char>)
    ensures
        is_canonical(canonical_view(a, b)),
{
    lemma_canonical_key_symmetric(a, b);
}

} // verus!
