//! Which asset pairs a correlation graph considers at all.
//!
//! Each asset contributes its trailing window of returns; a pair is a
//! candidate for a correlation edge only when *both* assets have at least
//! `min_periods` returns. Assets with less history stay isolated. Whether a
//! candidate becomes an edge depends on the pair's correlation, computed
//! where the returns live.

use vstd::prelude::*;

verus! {

/// Candidate pairs `(i, j)` with `i < j < m`, for a fixed `i`, in
/// increasing `j`.
pub open spec fn candidate_row(lens: Seq<usize>, min_periods: int, i: int, m: int) -> Seq<(int, int)>
    decreases m - i,
{
    if m <= i + 1 {
        Seq::empty()
    } else if lens[i] >= min_periods && lens[m - 1] >= min_periods {
        candidate_row(lens, min_periods, i, m - 1).push((i, m - 1))
    } else {
        candidate_row(lens, min_periods, i, m - 1)
    }
}

/// All candidate pairs `(i, j)` with `i < j` and `i < rows`, ordered by
/// `i`, then `j`.
pub open spec fn candidate_pairs(lens: Seq<usize>, min_periods: int, rows: int) -> Seq<(int, int)>
    decreases rows,
{
    if rows <= 0 {
        Seq::empty()
    } else {
        candidate_pairs(lens, min_periods, rows - 1) + candidate_row(
            lens,
            min_periods,
            rows - 1,
            lens.len() as int,
        )
    }
}

/// The pairs as integers.
pub open spec fn pair_view(r: Seq<(usize, usize)>) -> Seq<(int, int)> {
    r.map_values(|p: (usize, usize)| (p.0 as int, p.1 as int))
}

proof fn lemma_candidate_row_facts(lens: Seq<usize>, min_periods: int, i: int, m: int)
    requires
        0 <= i,
        m <= lens.len(),
    ensures
        forall|p: (int, int)|
            #![trigger candidate_row(lens, min_periods, i, m).contains(p)]
            candidate_row(lens, min_periods, i, m).contains(p) <==> (p.0 == i && i < p.1 < m
                && lens[i] >= min_periods && lens[p.1] >= min_periods),
    decreases m - i,
{
    if m > i + 1 {
        lemma_candidate_row_facts(lens, min_periods, i, m - 1);
        let rest = candidate_row(lens, min_periods, i, m - 1);
        let cur = candidate_row(lens, min_periods, i, m);
        assert forall|p: (int, int)| #![trigger cur.contains(p)] cur.contains(p) <==> (p.0 == i && i
            < p.1 < m && lens[i] >= min_periods && lens[p.1] >= min_periods) by {
            if cur.contains(p) && !rest.contains(p) {
                let q = choose|q: int| 0 <= q < cur.len() && cur[q] == p;
                if q < rest.len() {
                    assert(rest[q] == p);
                }
            }
            if p.0 == i && i < p.1 < m && lens[i] >= min_periods && lens[p.1] >= min_periods {
                if p.1 < m - 1 {
                    assert(rest.contains(p));
                    let q = choose|q: int| 0 <= q < rest.len() && rest[q] == p;
                    assert(cur[q] == p);
                } else {
                    assert(cur[rest.len() as int] == p);
                }
            }
            if rest.contains(p) {
                let q = choose|q: int| 0 <= q < rest.len() && rest[q] == p;
                if lens[i] >= min_periods && lens[m - 1] >= min_periods {
                    assert(cur[q] == p);
                }
            }
        }
    }
}

/// A pair is a candidate exactly when both of its assets have enough
/// history: `(i, j)` with `i < j` appears iff both trailing windows hold at
/// least `min_periods` returns.
pub proof fn lemma_candidates_need_history_on_both_sides(
    lens: Seq<usize>,
    min_periods: int,
    rows: int,
)
    requires
        0 <= rows <= lens.len(),
    ensures
        forall|p: (int, int)|
            #![trigger candidate_pairs(lens, min_periods, rows).contains(p)]
            candidate_pairs(lens, min_periods, rows).contains(p) <==> (0 <= p.0 < rows && p.0 < p.1
                < lens.len() && lens[p.0] >= min_periods && lens[p.1] >= min_periods),
    decreases rows,
{
    if rows > 0 {
        lemma_candidates_need_history_on_both_sides(lens, min_periods, rows - 1);
        lemma_candidate_row_facts(lens, min_periods, rows - 1, lens.len() as int);
        let prev = candidate_pairs(lens, min_periods, rows - 1);
        let row = candidate_row(lens, min_periods, rows - 1, lens.len() as int);
        let all = prev + row;
        assert forall|p: (int, int)| #![trigger all.contains(p)] all.contains(p) <==> (0 <= p.0 < rows
            && p.0 < p.1 < lens.len() && lens[p.0] >= min_periods && lens[p.1] >= min_periods) by {
            if all.contains(p) {
                let q = choose|q: int| 0 <= q < all.len() && all[q] == p;
                if q < prev.len() {
                    assert(prev[q] == p);
                    assert(prev.contains(p));
                } else {
                    assert(row[q - prev.len()] == p);
                    assert(row.contains(p));
                }
            }
            if 0 <= p.0 < rows && p.0 < p.1 < lens.len() && lens[p.0] >= min_periods && lens[p.1]
                >= min_periods {
                if p.0 < rows - 1 {
                    assert(prev.contains(p));
                    let q = choose|q: int| 0 <= q < prev.len() && prev[q] == p;
                    assert(all[q] == p);
                } else {
                    assert(row.contains(p));
                    let q = choose|q: int| 0 <= q < row.len() && row[q] == p;
                    assert(all[prev.len() + q] == p);
                }
            }
        }
    }
}

/// The asset pairs `(i, j)`, `i < j`, whose trailing windows (of lengths
/// `tail_lens`) both hold at least `min_periods` returns, ordered by `i`,
/// then `j`.
pub fn correlation_candidates(tail_lens: &[usize], min_periods: usize) -> (r: Vec<(usize, usize)>)
    ensures
        pair_view(r@) == candidate_pairs(tail_lens@, min_periods as int, tail_lens@.len() as int),
{
    let n = tail_lens.len();
    let ghost lens = tail_lens@;
    let ghost mp = min_periods as int;
    let mut r: Vec<(usize, usize)> = Vec::new();
    let mut i: usize = 0;
    while i < n
        invariant
            n == lens.len(),
            lens == tail_lens@,
            mp == min_periods,
            i <= n,
            pair_view(r@) == candidate_pairs(lens, mp, i as int),
        decreases n - i,
    {
        let mut j: usize = i + 1;
        while j < n
            invariant
                n == lens.len(),
                lens == tail_lens@,
                mp == min_periods,
                i < n,
                i + 1 <= j <= n,
                pair_view(r@) == candidate_pairs(lens, mp, i as int) + candidate_row(
                    lens,
                    mp,
                    i as int,
                    j as int,
                ),
            decreases n - j,
        {
            let ghost before = r@;
            if tail_lens[i] >= min_periods && tail_lens[j] >= min_periods {
                r.push((i, j));
                assert(pair_view(r@) == pair_view(before).push((i as int, j as int)));
                assert(candidate_row(lens, mp, i as int, j + 1) == candidate_row(
                    lens,
                    mp,
                    i as int,
                    j as int,
                ).push((i as int, j as int)));
                assert(candidate_pairs(lens, mp, i as int) + candidate_row(lens, mp, i as int, j + 1)
                    == (candidate_pairs(lens, mp, i as int) + candidate_row(
                    lens,
                    mp,
                    i as int,
                    j as int,
                )).push((i as int, j as int)));
            }
            j = j + 1;
        }
        assert(candidate_pairs(lens, mp, i + 1) == candidate_pairs(lens, mp, i as int) + candidate_row(
            lens,
            mp,
            i as int,
            n as int,
        ));
        i = i + 1;
    }
    r
}

} // verus!
