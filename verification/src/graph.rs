//! `FinancialGraph`: a sparse, multi-relational, undirected graph over
//! financial entities.
//!
//! Storage is a flat edge list plus per-node adjacency lists of
//! `(neighbor, edge index)` pairs; there is no `N x N` matrix anywhere in
//! this type. Every edge is stored once and is reachable from both of its
//! endpoints. An edge carries a relation-specific weight of type `W`
//! (e.g. `1` for a sector co-membership edge, a correlation coefficient for
//! a correlation edge), which the graph stores but never inspects.

use crate::identifiers::EntityId;
use crate::timestamp::Timestamp;
use vstd::prelude::*;

verus! {

/// Index into a [`FinancialGraph`]'s node table.
#[derive(Debug, Clone, Copy, PartialEq, Eq, Hash, PartialOrd, Ord, Structural)]
pub struct NodeId(pub u32);

/// Index into a [`FinancialGraph`]'s edge table.
#[derive(Debug, Clone, Copy, PartialEq, Eq, Hash, PartialOrd, Ord, Structural)]
pub struct EdgeId(pub u32);

/// The kind of relationship an edge represents.
#[derive(Debug, Clone, Copy, PartialEq, Eq, Hash, Structural)]
pub enum RelationType {
    Sector,
    Industry,
    Correlation,
    Fundamental,
    Macro,
    News,
    Learned,
}

/// One undirected edge between two nodes.
#[derive(Debug, Clone, PartialEq)]
pub struct Edge<W> {
    pub source: NodeId,
    pub target: NodeId,
    pub relation: RelationType,
    /// Relation-specific weight.
    pub weight: W,
    /// When this edge was computed or observed.
    pub timestamp: Timestamp,
}

#[derive(Debug, Clone, Copy, PartialEq, Eq, Structural)]
pub enum GraphError {
    /// The node index is out of range for a graph of the given node count.
    NodeOutOfRange(NodeId, usize),
    /// Source and target are the same node.
    SelfLoop(NodeId),
}

/// Whether an edge passes an optional relation filter.
pub open spec fn relation_matches<W>(e: Edge<W>, relation: Option<RelationType>) -> bool {
    match relation {
        Some(r) => e.relation == r,
        None => true,
    }
}

/// The `(neighbor, edge)` pairs of node `i` among `edges` whose relation
/// passes `relation`, in edge order. An edge `(s, t)` makes `t` a neighbor
/// of `s` and `s` a neighbor of `t`.
pub open spec fn neighbor_list<W>(edges: Seq<Edge<W>>, i: int, relation: Option<RelationType>) -> Seq<
    (NodeId, Edge<W>),
>
    decreases edges.len(),
{
    if edges.len() == 0 {
        Seq::empty()
    } else {
        let e = edges.last();
        let rest = neighbor_list(edges.drop_last(), i, relation);
        if relation_matches(e, relation) && e.source.0 == i {
            rest.push((e.target, e))
        } else if relation_matches(e, relation) && e.target.0 == i {
            rest.push((e.source, e))
        } else {
            rest
        }
    }
}

/// The `(neighbor, edge index)` pairs of node `i`, in edge order.
pub open spec fn incident<W>(edges: Seq<Edge<W>>, i: int) -> Seq<(NodeId, usize)>
    decreases edges.len(),
{
    if edges.len() == 0 {
        Seq::empty()
    } else {
        let e = edges.last();
        let k = (edges.len() - 1) as usize;
        let rest = incident(edges.drop_last(), i);
        if e.source.0 == i {
            rest.push((e.target, k))
        } else if e.target.0 == i {
            rest.push((e.source, k))
        } else {
            rest
        }
    }
}

/// The edges of `edges` whose relation is `relation`, in order.
pub open spec fn edges_with_relation<W>(edges: Seq<Edge<W>>, relation: RelationType) -> Seq<Edge<W>>
    decreases edges.len(),
{
    if edges.len() == 0 {
        Seq::empty()
    } else if edges.last().relation == relation {
        edges_with_relation(edges.drop_last(), relation).push(edges.last())
    } else {
        edges_with_relation(edges.drop_last(), relation)
    }
}

/// No two entities share the same text.
pub open spec fn distinct_entities(nodes: Seq<Seq<char>>) -> bool {
    forall|i: int, j: int| 0 <= i < nodes.len() && 0 <= j < nodes.len() && i != j ==> nodes[i] != nodes[j]
}

/// Every edge joins two distinct nodes of a graph with `n` nodes.
pub open spec fn edges_valid<W>(edges: Seq<Edge<W>>, n: int) -> bool {
    forall|k: int|
        0 <= k < edges.len() ==> {
            &&& (#[trigger] edges[k]).source.0 < n
            &&& edges[k].target.0 < n
            &&& edges[k].source != edges[k].target
        }
}

#[derive(Debug, Clone)]
pub struct FinancialGraph<W> {
    /// `NodeId(i)` indexes this directly.
    nodes: Vec<EntityId>,
    edges: Vec<Edge<W>>,
    /// `adjacency[i]` holds `(neighbor, edge index)` pairs for node `i`,
    /// populated for both endpoints of every edge.
    adjacency: Vec<Vec<(NodeId, usize)>>,
}

impl<W> FinancialGraph<W> {
    /// The node identities, in `NodeId` order.
    pub closed spec fn node_seq(&self) -> Seq<Seq<char>> {
        self.nodes@.map_values(|e: EntityId| e@)
    }

    /// The edges, in insertion (`EdgeId`) order.
    pub closed spec fn edge_seq(&self) -> Seq<Edge<W>> {
        self.edges@
    }

    pub closed spec fn wf(&self) -> bool {
        &&& self.nodes@.len() <= u32::MAX
        &&& self.edges@.len() <= u32::MAX
        &&& distinct_entities(self.node_seq())
        &&& edges_valid(self.edges@, self.nodes@.len() as int)
        &&& self.adjacency@.len() == self.nodes@.len()
        &&& forall|i: int|
            0 <= i < self.adjacency@.len() ==> (#[trigger] self.adjacency@[i])@ == incident(
                self.edges@,
                i,
            )
    }

    /// The facts every well-formed graph guarantees to its users.
    pub proof fn lemma_wf_facts(&self)
        requires
            self.wf(),
        ensures
            distinct_entities(self.node_seq()),
            edges_valid(self.edge_seq(), self.node_seq().len() as int),
            self.node_seq().len() <= u32::MAX,
            self.edge_seq().len() <= u32::MAX,
    {
    }

    /// Node identity is unique: looking a node's entity up again finds that
    /// same node, so `node_id` and `entity` are inverse to each other.
    pub proof fn lemma_node_lookup_round_trips(&self, i: int, j: int)
        requires
            self.wf(),
            0 <= i < self.node_seq().len(),
            0 <= j < self.node_seq().len(),
            self.node_seq()[i] == self.node_seq()[j],
        ensures
            i == j,
    {
    }

    /// A graph over `nodes`, with no edges. Node identities must be
    /// distinct.
    pub fn new(nodes: Vec<EntityId>) -> (g: Self)
        requires
            distinct_entities(nodes@.map_values(|e: EntityId| e@)),
            nodes@.len() <= u32::MAX,
        ensures
            g.wf(),
            g.node_seq() == nodes@.map_values(|e: EntityId| e@),
            g.edge_seq() == Seq::<Edge<W>>::empty(),
    {
        let n = nodes.len();
        let mut adjacency: Vec<Vec<(NodeId, usize)>> = Vec::new();
        let mut i: usize = 0;
        while i < n
            invariant
                i <= n,
                adjacency@.len() == i,
                forall|j: int| 0 <= j < i ==> (#[trigger] adjacency@[j])@ == Seq::<
                    (NodeId, usize),
                >::empty(),
            decreases n - i,
        {
            adjacency.push(Vec::new());
            i = i + 1;
        }
        let g = FinancialGraph { nodes, edges: Vec::new(), adjacency };
        assert forall|j: int| 0 <= j < g.adjacency@.len() implies (#[trigger] g.adjacency@[j])@
            == incident(g.edges@, j) by {
            assert(g.edges@.len() == 0);
        }
        g
    }

    pub fn num_nodes(&self) -> (n: usize)
        ensures
            n == self.node_seq().len(),
    {
        self.nodes.len()
    }

    pub fn num_edges(&self) -> (n: usize)
        ensures
            n == self.edge_seq().len(),
    {
        self.edges.len()
    }

    /// The node whose identity is `entity`, if any.
    pub fn node_id(&self, entity: &EntityId) -> (r: Option<NodeId>)
        requires
            self.wf(),
        ensures
            match r {
                Some(id) => id.0 < self.node_seq().len() && self.node_seq()[id.0 as int] == entity@,
                None => forall|i: int|
                    0 <= i < self.node_seq().len() ==> self.node_seq()[i] != entity@,
            },
    {
        let mut i: usize = 0;
        while i < self.nodes.len()
            invariant
                self.wf(),
                i <= self.nodes@.len(),
                forall|j: int| 0 <= j < i ==> self.node_seq()[j] != entity@,
            decreases self.nodes@.len() - i,
        {
            if self.nodes[i] == *entity {
                return Some(NodeId(i as u32));
            }
            i = i + 1;
        }
        None
    }

    /// The identity of `node`, if it is in range.
    pub fn entity(&self, node: NodeId) -> (r: Option<&EntityId>)
        ensures
            match r {
                Some(e) => node.0 < self.node_seq().len() && e@ == self.node_seq()[node.0 as int],
                None => node.0 >= self.node_seq().len(),
            },
    {
        let i = node.0 as usize;
        if i < self.nodes.len() {
            Some(&self.nodes[i])
        } else {
            None
        }
    }

    /// Adds an undirected edge. Rejects an out-of-range source, then an
    /// out-of-range target, then a self-loop; otherwise appends the edge.
    pub fn add_edge(&mut self, edge: Edge<W>) -> (r: Result<EdgeId, GraphError>)
        requires
            old(self).wf(),
            old(self).edge_seq().len() < u32::MAX,
        ensures
            final(self).wf(),
            final(self).node_seq() == old(self).node_seq(),
            ({
                let n = old(self).node_seq().len();
                if edge.source.0 >= n {
                    r == Err::<EdgeId, GraphError>(GraphError::NodeOutOfRange(edge.source, n as usize))
                        && final(self).edge_seq() == old(self).edge_seq()
                } else if edge.target.0 >= n {
                    r == Err::<EdgeId, GraphError>(GraphError::NodeOutOfRange(edge.target, n as usize))
                        && final(self).edge_seq() == old(self).edge_seq()
                } else if edge.source == edge.target {
                    r == Err::<EdgeId, GraphError>(GraphError::SelfLoop(edge.source))
                        && final(self).edge_seq() == old(self).edge_seq()
                } else {
                    r == Ok::<EdgeId, GraphError>(EdgeId(old(self).edge_seq().len() as u32))
                        && final(self).edge_seq() == old(self).edge_seq().push(edge)
                }
            }),
    {
        let n = self.nodes.len();
        if edge.source.0 as usize >= n {
            return Err(GraphError::NodeOutOfRange(edge.source, n));
        }
        if edge.target.0 as usize >= n {
            return Err(GraphError::NodeOutOfRange(edge.target, n));
        }
        if edge.source == edge.target {
            return Err(GraphError::SelfLoop(edge.source));
        }
        let index = self.edges.len();
        let s = edge.source.0 as usize;
        let t = edge.target.0 as usize;
        let ghost old_edges = self.edges@;
        let ghost old_adj = self.adjacency@;
        self.adjacency[s].push((edge.target, index));
        self.adjacency[t].push((edge.source, index));
        self.edges.push(edge);
        proof {
            let new_edges = self.edges@;
            assert(new_edges.drop_last() == old_edges);
            assert(new_edges.last() == edge);
            assert forall|i: int| 0 <= i < self.adjacency@.len() implies (#[trigger]
                self.adjacency@[i])@ == incident(self.edges@, i) by {
                if i != s && i != t {
                    assert(self.adjacency@[i] == old_adj[i]);
                }
            }
            assert forall|k: int| 0 <= k < new_edges.len() implies {
                &&& (#[trigger] new_edges[k]).source.0 < n
                &&& new_edges[k].target.0 < n
                &&& new_edges[k].source != new_edges[k].target
            } by {
                if k < old_edges.len() {
                    assert(new_edges[k] == old_edges[k]);
                }
            }
            assert(self.node_seq() == old(self).node_seq());
        }
        Ok(EdgeId(index as u32))
    }

    pub fn edge(&self, id: EdgeId) -> (r: Option<&Edge<W>>)
        ensures
            match r {
                Some(e) => id.0 < self.edge_seq().len() && *e == self.edge_seq()[id.0 as int],
                None => id.0 >= self.edge_seq().len(),
            },
    {
        let i = id.0 as usize;
        if i < self.edges.len() {
            Some(&self.edges[i])
        } else {
            None
        }
    }

    /// Neighbors of `node`, optionally restricted to one relation type, in
    /// edge order. A node out of range has none.
    pub fn neighbors(&self, node: NodeId, relation: Option<RelationType>) -> (r: Vec<
        (NodeId, &Edge<W>),
    >)
        requires
            self.wf(),
        ensures
            r@.map_values(|p: (NodeId, &Edge<W>)| (p.0, *p.1)) == neighbor_list(
                self.edge_seq(),
                node.0 as int,
                relation,
            ),
    {
        let mut result: Vec<(NodeId, &Edge<W>)> = Vec::new();
        let i = node.0 as usize;
        if i >= self.adjacency.len() {
            proof {
                lemma_no_neighbors_outside(self.edges@, node.0 as int, relation, self.nodes@.len() as int);
                assert(result@.map_values(|p: (NodeId, &Edge<W>)| (p.0, *p.1)) =~= Seq::empty());
            }
            return result;
        }
        let list = &self.adjacency[i];
        let mut j: usize = 0;
        while j < list.len()
            invariant
                self.wf(),
                i < self.adjacency@.len(),
                i == node.0,
                *list == self.adjacency@[i as int],
                j <= list@.len(),
                result@.map_values(|p: (NodeId, &Edge<W>)| (p.0, *p.1)) == neighbor_list(
                    self.edges@.take(prefix_len(list@, j as int)),
                    i as int,
                    relation,
                ),
            decreases list@.len() - j,
        {
            let (nbr, idx) = list[j];
            proof {
                lemma_incident_entry(self.edges@, i as int, j as int);
            }
            let e = &self.edges[idx];
            let keep = match relation {
                Some(r) => e.relation == r,
                None => true,
            };
            let ghost before = result@;
            if keep {
                result.push((nbr, e));
            }
            proof {
                lemma_neighbor_step(self.edges@, i as int, j as int, relation);
                if keep {
                    assert(result@.map_values(|p: (NodeId, &Edge<W>)| (p.0, *p.1)) == before.map_values(
                        |p: (NodeId, &Edge<W>)| (p.0, *p.1),
                    ).push((nbr, *e)));
                } else {
                    assert(result@ == before);
                }
            }
            j = j + 1;
        }
        proof {
            lemma_prefix_len_full(self.edges@, i as int);
            assert(self.edges@.take(self.edges@.len() as int) == self.edges@);
        }
        result
    }

    /// The number of neighbors of `node` (optionally restricted to one
    /// relation type).
    pub fn degree(&self, node: NodeId, relation: Option<RelationType>) -> (d: usize)
        requires
            self.wf(),
        ensures
            d == neighbor_list(self.edge_seq(), node.0 as int, relation).len(),
    {
        let r = self.neighbors(node, relation);
        r.len()
    }

    /// The edges of one relation type, in insertion order.
    pub fn edges_of_relation(&self, relation: RelationType) -> (r: Vec<&Edge<W>>)
        ensures
            r@.map_values(|e: &Edge<W>| *e) == edges_with_relation(self.edge_seq(), relation),
    {
        let mut result: Vec<&Edge<W>> = Vec::new();
        let mut k: usize = 0;
        while k < self.edges.len()
            invariant
                k <= self.edges@.len(),
                result@.map_values(|e: &Edge<W>| *e) == edges_with_relation(
                    self.edges@.take(k as int),
                    relation,
                ),
            decreases self.edges@.len() - k,
        {
            let e = &self.edges[k];
            let ghost before = result@;
            if e.relation == relation {
                result.push(e);
                assert(result@.map_values(|e: &Edge<W>| *e) == before.map_values(|e: &Edge<W>| *e).push(
                    *e,
                ));
            }
            assert(self.edges@.take(k + 1).drop_last() == self.edges@.take(k as int));
            k = k + 1;
        }
        assert(self.edges@.take(self.edges@.len() as int) == self.edges@);
        result
    }

    /// The node identities, in `NodeId` order.
    pub fn nodes(&self) -> (r: &[EntityId])
        ensures
            r@.map_values(|e: EntityId| e@) == self.node_seq(),
    {
        self.nodes.as_slice()
    }
}

/// The length of the edge prefix covered by the first `j` entries of an
/// adjacency list: one past the edge index of entry `j - 1`.
pub open spec fn prefix_len(list: Seq<(NodeId, usize)>, j: int) -> int {
    if j == 0 {
        0
    } else {
        list[j - 1].1 + 1
    }
}

proof fn lemma_incident_indices<W>(edges: Seq<Edge<W>>, i: int)
    requires
        edges.len() <= usize::MAX,
    ensures
        forall|a: int|
            0 <= a < incident(edges, i).len() ==> {
                let (nbr, k) = #[trigger] incident(edges, i)[a];
                &&& 0 <= k < edges.len()
                &&& (edges[k as int].source.0 == i && nbr == edges[k as int].target)
                    || (edges[k as int].source.0 != i && edges[k as int].target.0 == i && nbr
                    == edges[k as int].source)
            },
        forall|a: int, b: int|
            0 <= a < b < incident(edges, i).len() ==> #[trigger] incident(edges, i)[a].1
                < #[trigger] incident(edges, i)[b].1,
    decreases edges.len(),
{
    if edges.len() > 0 {
        let d = edges.drop_last();
        lemma_incident_indices(d, i);
        let rest = incident(d, i);
        let inc = incident(edges, i);
        let last = (edges.len() - 1) as usize;
        assert(last as int == edges.len() - 1);
        assert forall|a: int| 0 <= a < inc.len() implies {
            let (nbr, k) = #[trigger] inc[a];
            &&& 0 <= k < edges.len()
            &&& (edges[k as int].source.0 == i && nbr == edges[k as int].target) || (
            edges[k as int].source.0 != i && edges[k as int].target.0 == i && nbr
                == edges[k as int].source)
        } by {
            if a < rest.len() {
                assert(inc[a] == rest[a]);
                assert(edges[rest[a].1 as int] == d[rest[a].1 as int]);
            } else {
                assert(edges[last as int] == edges.last());
            }
        }
        assert forall|a: int, b: int| 0 <= a < b < inc.len() implies #[trigger] inc[a].1
            < #[trigger] inc[b].1 by {
            assert(inc[a] == rest[a]);
            if b < rest.len() {
                assert(inc[b] == rest[b]);
            }
        }
    }
}

proof fn lemma_incident_entry<W>(edges: Seq<Edge<W>>, i: int, j: int)
    requires
        edges.len() <= usize::MAX,
        0 <= j < incident(edges, i).len(),
    ensures
        ({
            let (nbr, k) = incident(edges, i)[j];
            &&& 0 <= k < edges.len()
            &&& (edges[k as int].source.0 == i && nbr == edges[k as int].target) || (
            edges[k as int].source.0 != i && edges[k as int].target.0 == i && nbr
                == edges[k as int].source)
        }),
{
    lemma_incident_indices(edges, i);
    let _ = incident(edges, i)[j];
}

/// An edge that does not touch node `i` adds nothing to its neighbor list.
proof fn lemma_neighbor_list_skip<W>(edges: Seq<Edge<W>>, i: int, relation: Option<RelationType>, lo: int, hi: int)
    requires
        0 <= lo <= hi <= edges.len(),
        forall|k: int| lo <= k < hi ==> (#[trigger] edges[k]).source.0 != i && edges[k].target.0 != i,
    ensures
        neighbor_list(edges.take(hi), i, relation) == neighbor_list(edges.take(lo), i, relation),
    decreases hi - lo,
{
    if hi > lo {
        lemma_neighbor_list_skip(edges, i, relation, lo, hi - 1);
        assert(edges.take(hi).drop_last() == edges.take(hi - 1));
        assert(edges.take(hi).last() == edges[hi - 1]);
    }
}

/// Edge indices in `incident(edges, i)` list exactly the edges touching
/// `i`: between consecutive listed indices, no edge touches `i`.
proof fn lemma_incident_complete<W>(edges: Seq<Edge<W>>, i: int)
    requires
        edges.len() <= usize::MAX,
    ensures
        forall|k: int|
            0 <= k < edges.len() && (edges[k].source.0 == i || edges[k].target.0 == i) ==> exists|
                a: int,
            |
                0 <= a < incident(edges, i).len() && #[trigger] incident(edges, i)[a].1 == k,
    decreases edges.len(),
{
    if edges.len() > 0 {
        lemma_incident_complete(edges.drop_last(), i);
        let rest = incident(edges.drop_last(), i);
        assert forall|k: int|
            0 <= k < edges.len() && (edges[k].source.0 == i || edges[k].target.0 == i) implies exists|
                a: int,
            |
                0 <= a < incident(edges, i).len() && #[trigger] incident(edges, i)[a].1 == k by {
            if k < edges.len() - 1 {
                assert(edges[k] == edges.drop_last()[k]);
                let a = choose|a: int| 0 <= a < rest.len() && #[trigger] rest[a].1 == k;
                assert(incident(edges, i)[a] == rest[a]);
            } else {
                let a = rest.len() as int;
                let last = (edges.len() - 1) as usize;
                assert(last as int == k);
                assert(incident(edges, i)[a].1 == last);
            }
        }
    }
}

/// Processing the `j`-th incident entry of node `i` extends the neighbor
/// list over the edge prefix up to and including that entry's edge.
proof fn lemma_neighbor_step<W>(edges: Seq<Edge<W>>, i: int, j: int, relation: Option<RelationType>)
    requires
        edges.len() <= usize::MAX,
        0 <= j < incident(edges, i).len(),
    ensures
        ({
            let (nbr, k) = incident(edges, i)[j];
            let e = edges[k as int];
            let before = neighbor_list(edges.take(prefix_len(incident(edges, i), j)), i, relation);
            let after = neighbor_list(edges.take(prefix_len(incident(edges, i), j + 1)), i, relation);
            &&& prefix_len(incident(edges, i), j + 1) == k + 1
            &&& relation_matches(e, relation) ==> after == before.push((nbr, e))
            &&& !relation_matches(e, relation) ==> after == before
        }),
{
    lemma_incident_indices(edges, i);
    lemma_incident_complete(edges, i);
    let inc = incident(edges, i);
    let (nbr, k) = inc[j];
    let lo = prefix_len(inc, j);
    assert(lo <= k) by {
        if j > 0 {
            assert(inc[j - 1].1 < inc[j].1);
        }
    }
    assert forall|m: int| lo <= m < k implies (#[trigger] edges[m]).source.0 != i && edges[m].target.0
        != i by {
        if edges[m].source.0 == i || edges[m].target.0 == i {
            let a = choose|a: int| 0 <= a < inc.len() && #[trigger] inc[a].1 == m;
            if a < j {
                if a < j - 1 {
                    assert(inc[a].1 < inc[j - 1].1);
                }
            } else if a > j {
                assert(inc[j].1 < inc[a].1);
            }
        }
    }
    lemma_neighbor_list_skip(edges, i, relation, lo, k as int);
    assert(edges.take(k + 1).drop_last() == edges.take(k as int));
    assert(edges.take(k + 1).last() == edges[k as int]);
}

/// Once every entry of node `i` has been processed, the processed edge
/// prefix covers every edge touching `i`.
proof fn lemma_prefix_len_full<W>(edges: Seq<Edge<W>>, i: int)
    requires
        edges.len() <= usize::MAX,
    ensures
        neighbor_list(edges.take(prefix_len(incident(edges, i), incident(edges, i).len() as int)), i, None)
            == neighbor_list(edges, i, None),
        forall|relation: Option<RelationType>| #[trigger] neighbor_list(
            edges.take(prefix_len(incident(edges, i), incident(edges, i).len() as int)),
            i,
            relation,
        ) == neighbor_list(edges, i, relation),
{
    lemma_incident_indices(edges, i);
    lemma_incident_complete(edges, i);
    let inc = incident(edges, i);
    let lo = prefix_len(inc, inc.len() as int);
    assert(0 <= lo <= edges.len());
    assert forall|m: int| lo <= m < edges.len() implies (#[trigger] edges[m]).source.0 != i
        && edges[m].target.0 != i by {
        if edges[m].source.0 == i || edges[m].target.0 == i {
            let a = choose|a: int| 0 <= a < inc.len() && #[trigger] inc[a].1 == m;
            if a < inc.len() - 1 {
                assert(inc[a].1 < inc[inc.len() - 1].1);
            }
        }
    }
    assert forall|relation: Option<RelationType>| #[trigger] neighbor_list(edges.take(lo), i, relation)
        == neighbor_list(edges, i, relation) by {
        lemma_neighbor_list_skip(edges, i, relation, lo, edges.len() as int);
        assert(edges.take(edges.len() as int) == edges);
    }
}

proof fn lemma_no_neighbors_outside<W>(edges: Seq<Edge<W>>, i: int, relation: Option<RelationType>, n: int)
    requires
        edges_valid(edges, n),
        i >= n,
    ensures
        neighbor_list(edges, i, relation) == Seq::<(NodeId, Edge<W>)>::empty(),
    decreases edges.len(),
{
    if edges.len() > 0 {
        let d = edges.drop_last();
        assert forall|k: int| 0 <= k < d.len() implies {
            &&& (#[trigger] d[k]).source.0 < n
            &&& d[k].target.0 < n
            &&& d[k].source != d[k].target
        } by {
            assert(d[k] == edges[k]);
        }
        lemma_no_neighbors_outside(d, i, relation, n);
        assert(edges[edges.len() - 1] == edges.last());
    }
}


/// Adding an edge between two distinct nodes makes each endpoint a neighbor
/// of the other (with that edge), and leaves every other node's neighbors
/// unchanged.
pub proof fn lemma_new_edge_seen_from_both_endpoints<W>(
    edges: Seq<Edge<W>>,
    e: Edge<W>,
    i: int,
    relation: Option<RelationType>,
)
    requires
        e.source != e.target,
        relation_matches(e, relation),
    ensures
        neighbor_list(edges.push(e), e.source.0 as int, relation) == neighbor_list(
            edges,
            e.source.0 as int,
            relation,
        ).push((e.target, e)),
        neighbor_list(edges.push(e), e.target.0 as int, relation) == neighbor_list(
            edges,
            e.target.0 as int,
            relation,
        ).push((e.source, e)),
        i != e.source.0 && i != e.target.0 ==> neighbor_list(edges.push(e), i, relation)
            == neighbor_list(edges, i, relation),
{
    assert(edges.push(e).drop_last() == edges);
    assert(e.source.0 != e.target.0);
}

/// The sum of the neighbor-list lengths of nodes `0..n`.
pub open spec fn degree_sum<W>(edges: Seq<Edge<W>>, n: int, relation: Option<RelationType>) -> int
    decreases n,
{
    if n <= 0 {
        0
    } else {
        degree_sum(edges, n - 1, relation) + neighbor_list(edges, n - 1, relation).len()
    }
}

/// The number of edges among `edges` that pass `relation`.
pub open spec fn matching_edge_count<W>(edges: Seq<Edge<W>>, relation: Option<RelationType>) -> int
    decreases edges.len(),
{
    if edges.len() == 0 {
        0
    } else {
        matching_edge_count(edges.drop_last(), relation) + if relation_matches(
            edges.last(),
            relation,
        ) {
            1int
        } else {
            0int
        }
    }
}

proof fn lemma_degree_sum_push<W>(
    edges: Seq<Edge<W>>,
    e: Edge<W>,
    n: int,
    m: int,
    relation: Option<RelationType>,
)
    requires
        0 <= m <= n,
        e.source.0 < n,
        e.target.0 < n,
        e.source != e.target,
    ensures
        degree_sum(edges.push(e), m, relation) == degree_sum(edges, m, relation) + if relation_matches(
            e,
            relation,
        ) {
            (if e.source.0 < m {
                1int
            } else {
                0int
            }) + (if e.target.0 < m {
                1int
            } else {
                0int
            })
        } else {
            0int
        },
    decreases m,
{
    assert(edges.push(e).drop_last() == edges);
    assert(edges.push(e).last() == e);
    assert(e.source.0 != e.target.0);
    if m > 0 {
        lemma_degree_sum_push(edges, e, n, m - 1, relation);
    }
}

/// Handshake: every edge is reachable from exactly its two endpoints, so the
/// degrees of all nodes add up to twice the number of (matching) edges.
pub proof fn lemma_degrees_sum_to_twice_edges<W>(
    edges: Seq<Edge<W>>,
    n: int,
    relation: Option<RelationType>,
)
    requires
        n >= 0,
        edges_valid(edges, n),
    ensures
        degree_sum(edges, n, relation) == 2 * matching_edge_count(edges, relation),
    decreases edges.len(),
{
    if edges.len() == 0 {
        lemma_degree_sum_empty(edges, n, relation);
    } else {
        let d = edges.drop_last();
        assert forall|k: int| 0 <= k < d.len() implies {
            &&& (#[trigger] d[k]).source.0 < n
            &&& d[k].target.0 < n
            &&& d[k].source != d[k].target
        } by {
            assert(d[k] == edges[k]);
        }
        lemma_degrees_sum_to_twice_edges(d, n, relation);
        let e = edges.last();
        assert(e == edges[edges.len() - 1]);
        assert(d.push(e) == edges);
        lemma_degree_sum_push(d, e, n, n, relation);
    }
}

proof fn lemma_degree_sum_empty<W>(edges: Seq<Edge<W>>, n: int, relation: Option<RelationType>)
    requires
        edges.len() == 0,
    ensures
        degree_sum(edges, n, relation) == 0,
    decreases n,
{
    if n > 0 {
        lemma_degree_sum_empty(edges, n - 1, relation);
    }
}

/// The edges of one relation are exactly the edges of that relation, in
/// their original order: an edge is kept precisely when its relation
/// matches, and kept edges keep their relative order.
pub proof fn lemma_edges_with_relation_members<W>(edges: Seq<Edge<W>>, relation: RelationType, e: Edge<W>)
    ensures
        edges_with_relation(edges, relation).contains(e) <==> (edges.contains(e) && e.relation
            == relation),
        edges_with_relation(edges, relation).len() <= edges.len(),
    decreases edges.len(),
{
    if edges.len() > 0 {
        let d = edges.drop_last();
        lemma_edges_with_relation_members(d, relation, e);
        let rest = edges_with_relation(d, relation);
        if edges.contains(e) && !d.contains(e) {
            let i = choose|i: int| 0 <= i < edges.len() && edges[i] == e;
            if i < d.len() {
                assert(d[i] == e);
            }
        }
        if d.contains(e) {
            let i = choose|i: int| 0 <= i < d.len() && d[i] == e;
            assert(edges[i] == e);
        }
        if edges.last().relation == relation {
            let r = rest.push(edges.last());
            if r.contains(e) && !rest.contains(e) {
                let i = choose|i: int| 0 <= i < r.len() && r[i] == e;
                if i < rest.len() {
                    assert(rest[i] == e);
                }
            }
            if rest.contains(e) {
                let i = choose|i: int| 0 <= i < rest.len() && rest[i] == e;
                assert(r[i] == e);
            }
            assert(r[rest.len() as int] == edges.last());
        }
        assert(edges[edges.len() - 1] == edges.last());
    }
}

} // verus!
