//! Sector graph builder: company → sector, expressed as asset-asset edges
//! between every pair of assets sharing a sector.
//!
//! Sector membership is static, so there is no `as_of` here; the timestamp
//! on each edge records when the graph was built.

use crate::graph::{distinct_entities, Edge, FinancialGraph, NodeId, RelationType};
use crate::identifiers::{EntityId, Symbol};
use crate::timestamp::Timestamp;
use crate::topk::{edge_pairs, endpoints};
use vstd::prelude::*;

verus! {

/// The pairs `(i, j)` with `i < j < m` whose sectors agree, for a fixed
/// `i`, in increasing `j`.
pub open spec fn sector_row(sectors: Seq<Seq<char>>, i: int, m: int) -> Seq<(int, int)>
    decreases m - i,
{
    if m <= i + 1 {
        Seq::empty()
    } else if sectors[i] == sectors[m - 1] {
        sector_row(sectors, i, m - 1).push((i, m - 1))
    } else {
        sector_row(sectors, i, m - 1)
    }
}

/// Every same-sector pair `(i, j)` with `i < j` and `i < rows`, ordered by
/// `i`, then `j`.
pub open spec fn sector_pairs(sectors: Seq<Seq<char>>, rows: int) -> Seq<(int, int)>
    decreases rows,
{
    if rows <= 0 {
        Seq::empty()
    } else {
        sector_pairs(sectors, rows - 1) + sector_row(sectors, rows - 1, sectors.len() as int)
    }
}

/// The symbol texts of an assignment.
pub open spec fn assignment_symbols(a: Seq<(Symbol, EntityId)>) -> Seq<Seq<char>> {
    a.map_values(|p: (Symbol, EntityId)| p.0@)
}

/// The sector texts of an assignment.
pub open spec fn assignment_sectors(a: Seq<(Symbol, EntityId)>) -> Seq<Seq<char>> {
    a.map_values(|p: (Symbol, EntityId)| p.1@)
}

proof fn lemma_sector_row_facts(sectors: Seq<Seq<char>>, i: int, m: int)
    requires
        0 <= i,
        m <= sectors.len(),
    ensures
        sector_row(sectors, i, m).len() <= if m > i + 1 {
            m - i - 1
        } else {
            0
        },
        forall|p: (int, int)|
            #![trigger sector_row(sectors, i, m).contains(p)]
            sector_row(sectors, i, m).contains(p) <==> (p.0 == i && i < p.1 < m && sectors[i]
                == sectors[p.1]),
    decreases m - i,
{
    if m > i + 1 {
        lemma_sector_row_facts(sectors, i, m - 1);
        let rest = sector_row(sectors, i, m - 1);
        let cur = sector_row(sectors, i, m);
        assert forall|p: (int, int)| #![trigger cur.contains(p)] cur.contains(p) <==> (p.0 == i && i
            < p.1 < m && sectors[i] == sectors[p.1]) by {
            if cur.contains(p) && !rest.contains(p) {
                let q = choose|q: int| 0 <= q < cur.len() && cur[q] == p;
                if q < rest.len() {
                    assert(rest[q] == p);
                }
            }
            if p.0 == i && i < p.1 < m && sectors[i] == sectors[p.1] {
                if p.1 < m - 1 {
                    assert(rest.contains(p));
                    let q = choose|q: int| 0 <= q < rest.len() && rest[q] == p;
                    assert(cur[q] == p);
                } else {
                    assert(cur[rest.len() as int] == p);
                }
            }
            if rest.contains(p) {
                let q = choose|q: int| 0 <= q < rest.len() && rest[q] == p;
                if sectors[i] == sectors[m - 1] {
                    assert(cur[q] == p);
                }
            }
        }
    }
}

proof fn lemma_sector_pairs_facts(sectors: Seq<Seq<char>>, rows: int)
    requires
        0 <= rows <= sectors.len(),
    ensures
        sector_pairs(sectors, rows).len() <= rows * sectors.len(),
        forall|p: (int, int)|
            #![trigger sector_pairs(sectors, rows).contains(p)]
            sector_pairs(sectors, rows).contains(p) <==> (0 <= p.0 < rows && p.0 < p.1 < sectors.len()
                && sectors[p.0] == sectors[p.1]),
    decreases rows,
{
    if rows > 0 {
        lemma_sector_pairs_facts(sectors, rows - 1);
        lemma_sector_row_facts(sectors, rows - 1, sectors.len() as int);
        let prev = sector_pairs(sectors, rows - 1);
        let row = sector_row(sectors, rows - 1, sectors.len() as int);
        let all = prev + row;
        assert((rows - 1) * sectors.len() + sectors.len() == rows * sectors.len()) by (nonlinear_arith);
        assert forall|p: (int, int)| #![trigger all.contains(p)] all.contains(p) <==> (0 <= p.0 < rows
            && p.0 < p.1 < sectors.len() && sectors[p.0] == sectors[p.1]) by {
            if all.contains(p) {
                let q = choose|q: int| 0 <= q < all.len() && all[q] == p;
                if q < prev.len() {
                    assert(prev[q] == p);
                    assert(prev.contains(p));
                } else {
                    assert(row[q - prev.len()] == p);
                    assert(row.contains(p));
                }
            }
            if 0 <= p.0 < rows && p.0 < p.1 < sectors.len() && sectors[p.0] == sectors[p.1] {
                if p.0 < rows - 1 {
                    assert(prev.contains(p));
                    let q = choose|q: int| 0 <= q < prev.len() && prev[q] == p;
                    assert(all[q] == p);
                } else {
                    assert(row.contains(p));
                    let q = choose|q: int| 0 <= q < row.len() && row[q] == p;
                    assert(all[prev.len() + q] == p);
                }
            }
        }
    }
}

/// A row prefix is no longer than a longer prefix of the same row, and
/// strictly shorter when the longer one adds a same-sector pair.
proof fn lemma_sector_row_len_mono(sectors: Seq<Seq<char>>, i: int, j: int, m: int)
    requires
        0 <= i < j <= m,
    ensures
        sector_row(sectors, i, j).len() <= sector_row(sectors, i, m).len(),
        j < m && sectors[i] == sectors[j] ==> sector_row(sectors, i, j).len() + 1 <= sector_row(
            sectors,
            i,
            m,
        ).len(),
    decreases m - j,
{
    if j < m {
        lemma_sector_row_len_mono(sectors, i, j, m - 1);
        if j == m - 1 {
            assert(sector_row(sectors, i, j) == sector_row(sectors, i, m - 1));
        }
    }
}

/// Taking more rows never yields fewer pairs.
proof fn lemma_sector_pairs_len_mono(sectors: Seq<Seq<char>>, a: int, b: int)
    requires
        0 <= a <= b,
    ensures
        sector_pairs(sectors, a).len() <= sector_pairs(sectors, b).len(),
    decreases b - a,
{
    if a < b {
        lemma_sector_pairs_len_mono(sectors, a, b - 1);
    }
}

/// Pairs in increasing lexicographic order.
spec fn lex_increasing(ps: Seq<(int, int)>) -> bool {
    forall|a: int, b: int|
        0 <= a < b < ps.len() ==> (#[trigger] ps[a]).0 < (#[trigger] ps[b]).0 || (ps[a].0 == ps[b].0
            && ps[a].1 < ps[b].1)
}

proof fn lemma_sector_row_increasing(sectors: Seq<Seq<char>>, i: int, m: int)
    ensures
        lex_increasing(sector_row(sectors, i, m)),
        forall|a: int|
            0 <= a < sector_row(sectors, i, m).len() ==> (#[trigger] sector_row(sectors, i, m)[a]).0
                == i && sector_row(sectors, i, m)[a].1 < m,
    decreases m - i,
{
    if m > i + 1 {
        lemma_sector_row_increasing(sectors, i, m - 1);
        let rest = sector_row(sectors, i, m - 1);
        let cur = sector_row(sectors, i, m);
        if sectors[i] == sectors[m - 1] {
            assert forall|a: int| 0 <= a < cur.len() implies (#[trigger] cur[a]).0 == i && cur[a].1 < m by {
                if a < rest.len() {
                    assert(cur[a] == rest[a]);
                }
            }
            assert forall|a: int, b: int| 0 <= a < b < cur.len() implies (#[trigger] cur[a]).0 < (
            #[trigger] cur[b]).0 || (cur[a].0 == cur[b].0 && cur[a].1 < cur[b].1) by {
                assert(cur[a] == rest[a]);
                if b < rest.len() {
                    assert(cur[b] == rest[b]);
                }
            }
        }
    }
}

proof fn lemma_sector_pairs_increasing(sectors: Seq<Seq<char>>, rows: int)
    ensures
        lex_increasing(sector_pairs(sectors, rows)),
        forall|a: int|
            0 <= a < sector_pairs(sectors, rows).len() ==> (#[trigger] sector_pairs(sectors, rows)[a]).0
                < rows,
    decreases rows,
{
    if rows > 0 {
        lemma_sector_pairs_increasing(sectors, rows - 1);
        lemma_sector_row_increasing(sectors, rows - 1, sectors.len() as int);
        let prev = sector_pairs(sectors, rows - 1);
        let row = sector_row(sectors, rows - 1, sectors.len() as int);
        let all = prev + row;
        assert forall|a: int| 0 <= a < all.len() implies (#[trigger] all[a]).0 < rows by {
            if a < prev.len() {
                assert(all[a] == prev[a]);
            } else {
                assert(all[a] == row[a - prev.len()]);
            }
        }
        assert forall|a: int, b: int| 0 <= a < b < all.len() implies (#[trigger] all[a]).0 < (
        #[trigger] all[b]).0 || (all[a].0 == all[b].0 && all[a].1 < all[b].1) by {
            if b < prev.len() {
                assert(all[a] == prev[a] && all[b] == prev[b]);
            } else if a < prev.len() {
                assert(all[a] == prev[a] && all[b] == row[b - prev.len()]);
            } else {
                assert(all[a] == row[a - prev.len()] && all[b] == row[b - prev.len()]);
            }
        }
    }
}

/// Builds a graph whose nodes are the assignment's symbols (as entities,
/// in order), with exactly one `Sector` edge carrying `weight` between
/// every pair of assets in the same sector. Symbols must be distinct, and
/// the edges must fit the graph's `u32` edge ids.
pub fn build_sector_graph<W: Copy>(
    sector_assignment: &[(Symbol, EntityId)],
    timestamp: Timestamp,
    weight: W,
) -> (g: FinancialGraph<W>)
    requires
        distinct_entities(assignment_symbols(sector_assignment@)),
        sector_assignment@.len() <= u32::MAX,
        sector_pairs(assignment_sectors(sector_assignment@), sector_assignment@.len() as int).len()
            <= u32::MAX,
    ensures
        g.wf(),
        g.node_seq() == assignment_symbols(sector_assignment@),
        edge_pairs(g.edge_seq()) == sector_pairs(
            assignment_sectors(sector_assignment@),
            sector_assignment@.len() as int,
        ),
        forall|p: (int, int)|
            #[trigger] edge_pairs(g.edge_seq()).contains(p) <==> (0 <= p.0 < p.1
                < sector_assignment@.len() && sector_assignment@[p.0].1@ == sector_assignment@[p.1].1@),
        edge_pairs(g.edge_seq()).no_duplicates(),
        forall|a: int|
            0 <= a < g.edge_seq().len() ==> {
                let e = #[trigger] g.edge_seq()[a];
                &&& e.relation == RelationType::Sector
                &&& e.weight == weight
                &&& e.timestamp == timestamp
            },
{
    let n = sector_assignment.len();
    let ghost sectors = assignment_sectors(sector_assignment@);
    let mut nodes: Vec<EntityId> = Vec::new();
    let mut i: usize = 0;
    while i < n
        invariant
            i <= n,
            n == sector_assignment@.len(),
            nodes@.map_values(|e: EntityId| e@) == assignment_symbols(sector_assignment@).take(i as int),
        decreases n - i,
    {
        let ghost before = nodes@;
        nodes.push(sector_assignment[i].0.to_entity());
        assert(nodes@.map_values(|e: EntityId| e@) == before.map_values(|e: EntityId| e@).push(
            sector_assignment@[i as int].0@,
        ));
        assert(assignment_symbols(sector_assignment@).take(i + 1) == assignment_symbols(
            sector_assignment@,
        ).take(i as int).push(sector_assignment@[i as int].0@));
        i = i + 1;
    }
    assert(assignment_symbols(sector_assignment@).take(n as int) == assignment_symbols(sector_assignment@));
    let mut graph: FinancialGraph<W> = FinancialGraph::new(nodes);
    let ghost node_view = graph.node_seq();
    proof {
        lemma_sector_pairs_facts(sectors, n as int);
    }
    let mut i: usize = 0;
    while i < n
        invariant
            i <= n,
            n == sector_assignment@.len(),
            sectors == assignment_sectors(sector_assignment@),
            n <= u32::MAX,
            sector_pairs(sectors, n as int).len() <= u32::MAX,
            graph.wf(),
            graph.node_seq() == node_view,
            node_view.len() == n,
            edge_pairs(graph.edge_seq()) == sector_pairs(sectors, i as int),
            forall|a: int|
                0 <= a < graph.edge_seq().len() ==> {
                    let e = #[trigger] graph.edge_seq()[a];
                    &&& e.relation == RelationType::Sector
                    &&& e.weight == weight
                    &&& e.timestamp == timestamp
                },
        decreases n - i,
    {
        let mut j: usize = i + 1;
        proof {
            lemma_sector_pairs_facts(sectors, i as int);
            lemma_sector_row_facts(sectors, i as int, (i + 1) as int);
        }
        while j < n
            invariant
                i < n,
                i + 1 <= j <= n,
                n == sector_assignment@.len(),
                sectors == assignment_sectors(sector_assignment@),
                n <= u32::MAX,
                sector_pairs(sectors, n as int).len() <= u32::MAX,
                graph.wf(),
                graph.node_seq() == node_view,
                node_view.len() == n,
                edge_pairs(graph.edge_seq()) == sector_pairs(sectors, i as int) + sector_row(
                    sectors,
                    i as int,
                    j as int,
                ),
                forall|a: int|
                    0 <= a < graph.edge_seq().len() ==> {
                        let e = #[trigger] graph.edge_seq()[a];
                        &&& e.relation == RelationType::Sector
                        &&& e.weight == weight
                        &&& e.timestamp == timestamp
                    },
            decreases n - j,
        {
            let same = sector_assignment[i].1 == sector_assignment[j].1;
            assert(same == (sectors[i as int] == sectors[j as int]));
            let ghost before = graph.edge_seq();
            proof {
                assert(sectors.len() == n);
                lemma_sector_row_len_mono(sectors, i as int, j as int, n as int);
                lemma_sector_pairs_len_mono(sectors, i + 1, n as int);
                assert(sector_pairs(sectors, i + 1) == sector_pairs(sectors, i as int) + sector_row(
                    sectors,
                    i as int,
                    n as int,
                ));
                assert(graph.edge_seq().len() == edge_pairs(graph.edge_seq()).len());
            }
            if same {
                let e = Edge {
                    source: NodeId(i as u32),
                    target: NodeId(j as u32),
                    relation: RelationType::Sector,
                    weight,
                    timestamp,
                };
                let _ = graph.add_edge(e);
                proof {
                    assert(graph.edge_seq() == before.push(e));
                    assert(edge_pairs(graph.edge_seq()) == edge_pairs(before).push((i as int, j as int)));
                    assert(sector_row(sectors, i as int, j + 1) == sector_row(sectors, i as int, j as int).push(
                        (i as int, j as int),
                    ));
                    assert(sector_pairs(sectors, i as int) + sector_row(sectors, i as int, j + 1) == (
                    sector_pairs(sectors, i as int) + sector_row(sectors, i as int, j as int)).push(
                        (i as int, j as int),
                    ));
                    assert forall|a: int| 0 <= a < graph.edge_seq().len() implies {
                        let e = #[trigger] graph.edge_seq()[a];
                        &&& e.relation == RelationType::Sector
                        &&& e.weight == weight
                        &&& e.timestamp == timestamp
                    } by {
                        if a < before.len() {
                            assert(graph.edge_seq()[a] == before[a]);
                        }
                    }
                }
            } else {
                assert(sector_row(sectors, i as int, j + 1) == sector_row(sectors, i as int, j as int));
            }
            j = j + 1;
        }
        proof {
            assert(sector_pairs(sectors, i + 1) == sector_pairs(sectors, i as int) + sector_row(
                sectors,
                i as int,
                n as int,
            ));
        }
        i = i + 1;
    }
    proof {
        lemma_sector_pairs_facts(sectors, n as int);
        lemma_sector_pairs_increasing(sectors, n as int);
        let es = graph.edge_seq();
        let ps = sector_pairs(sectors, n as int);
        assert forall|a: int, b: int| 0 <= a < ps.len() && 0 <= b < ps.len() && a != b implies ps[a]
            != ps[b] by {
            if a < b {
                assert(ps[a].0 < ps[b].0 || (ps[a].0 == ps[b].0 && ps[a].1 < ps[b].1));
            } else {
                assert(ps[b].0 < ps[a].0 || (ps[b].0 == ps[a].0 && ps[b].1 < ps[a].1));
            }
        }
        assert forall|p: (int, int)| #[trigger] edge_pairs(es).contains(p) <==> (0 <= p.0 < p.1
            < sector_assignment@.len() && sector_assignment@[p.0].1@ == sector_assignment@[p.1].1@) by {
            assert(edge_pairs(es).contains(p) == sector_pairs(sectors, n as int).contains(p));
            if 0 <= p.0 < p.1 < n {
                assert(sectors[p.0] == sector_assignment@[p.0].1@);
                assert(sectors[p.1] == sector_assignment@[p.1].1@);
            }
        }
    }
    graph
}

} // verus!
