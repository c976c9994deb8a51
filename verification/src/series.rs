//! Extracting one symbol's chronologically ordered observations from a
//! flat collection of per-symbol observations.
//!
//! Callers are expected to have restricted the collection to what is
//! knowable as of some prediction time (see
//! [`crate::point_in_time::PointInTimeDataset::as_of`]) first; this module
//! only filters and orders.

use crate::identifiers::Symbol;
use crate::point_in_time::{
    available_by, is_stable_availability_sort, lemma_stable_sort_keeps_members, records_of,
    sorted_by_availability, PointInTimeDataset,
};
use crate::timestamp::Timestamp;
use vstd::prelude::*;

verus! {

/// The positions `i < m` whose symbol is `symbol`, each paired with its
/// timestamp, in position order.
pub open spec fn matching_positions(
    symbols: Seq<Seq<char>>,
    times: Seq<Timestamp>,
    symbol: Seq<char>,
    m: int,
) -> Seq<(Timestamp, usize)>
    decreases m,
{
    if m <= 0 {
        Seq::empty()
    } else if symbols[m - 1] == symbol {
        matching_positions(symbols, times, symbol, m - 1).push((times[m - 1], (m - 1) as usize))
    } else {
        matching_positions(symbols, times, symbol, m - 1)
    }
}

/// The texts of a slice of symbols.
pub open spec fn symbol_texts(s: Seq<Symbol>) -> Seq<Seq<char>> {
    s.map_values(|x: Symbol| x@)
}

proof fn lemma_available_by_everything<T>(s: Seq<(Timestamp, T)>)
    ensures
        available_by(s, i128::MAX) == s,
    decreases s.len(),
{
    if s.len() > 0 {
        lemma_available_by_everything(s.drop_last());
        assert(s.drop_last().push(s.last()) == s);
    }
}

/// The positions of `symbol`'s observations, ordered by timestamp
/// (observations with equal timestamps keep their position order).
/// `times[i]` is the timestamp of observation `i`.
pub fn positions_for_symbol(symbols: &[Symbol], times: &[Timestamp], symbol: &Symbol) -> (r: Vec<
    usize,
>)
    requires
        symbols@.len() == times@.len(),
    ensures
        exists|sorted: Seq<(Timestamp, usize)>|
            is_stable_availability_sort(
                matching_positions(symbol_texts(symbols@), times@, symbol@, symbols@.len() as int),
                sorted,
            ) && r@ == records_of(sorted),
{
    let mut timed: Vec<(Timestamp, usize)> = Vec::new();
    let mut i: usize = 0;
    while i < symbols.len()
        invariant
            symbols@.len() == times@.len(),
            i <= symbols@.len(),
            timed@ == matching_positions(symbol_texts(symbols@), times@, symbol@, i as int),
        decreases symbols@.len() - i,
    {
        assert(symbol_texts(symbols@)[i as int] == symbols@[i as int]@);
        if symbols[i] == *symbol {
            timed.push((times[i], i));
        }
        i = i + 1;
    }
    let dataset = PointInTimeDataset::with_availability(timed);
    let all = dataset.as_of(i128::MAX);
    proof {
        lemma_available_by_everything(dataset@);
    }
    let mut r: Vec<usize> = Vec::new();
    let mut k: usize = 0;
    while k < all.len()
        invariant
            k <= all@.len(),
            r@ == all@.take(k as int),
        decreases all@.len() - k,
    {
        r.push(all[k]);
        assert(all@.take(k + 1) == all@.take(k as int).push(all@[k as int]));
        k = k + 1;
    }
    assert(all@.take(all@.len() as int) == all@);
    r
}

/// The matching positions are exactly the observations of `symbol` among
/// the first `m`, each with its own timestamp, in increasing position.
pub proof fn lemma_matching_positions_are_the_symbols_own(
    symbols: Seq<Seq<char>>,
    times: Seq<Timestamp>,
    symbol: Seq<char>,
    m: int,
)
    requires
        0 <= m <= symbols.len(),
        m <= times.len(),
        m <= usize::MAX,
    ensures
        forall|p: (Timestamp, usize)|
            #[trigger] matching_positions(symbols, times, symbol, m).contains(p) <==> (p.1 < m
                && symbols[p.1 as int] == symbol && p.0 == times[p.1 as int]),
        forall|a: int, b: int|
            0 <= a < b < matching_positions(symbols, times, symbol, m).len() ==> (#[trigger] matching_positions(
                symbols,
                times,
                symbol,
                m,
            )[a]).1 < (#[trigger] matching_positions(symbols, times, symbol, m)[b]).1,
    decreases m,
{
    if m > 0 {
        lemma_matching_positions_are_the_symbols_own(symbols, times, symbol, m - 1);
        let rest = matching_positions(symbols, times, symbol, m - 1);
        let cur = matching_positions(symbols, times, symbol, m);
        assert forall|p: (Timestamp, usize)| #[trigger] cur.contains(p) <==> (p.1 < m && symbols[p.1 as int]
            == symbol && p.0 == times[p.1 as int]) by {
            if symbols[m - 1] == symbol {
                let x = (times[m - 1], (m - 1) as usize);
                assert(cur == rest.push(x));
                if cur.contains(p) && !rest.contains(p) {
                    let q = choose|q: int| 0 <= q < cur.len() && cur[q] == p;
                    if q < rest.len() {
                        assert(rest[q] == p);
                    }
                }
                if rest.contains(p) {
                    let q = choose|q: int| 0 <= q < rest.len() && rest[q] == p;
                    assert(cur[q] == p);
                }
                if p == x {
                    assert(cur[rest.len() as int] == x);
                }
            }
        }
        if symbols[m - 1] == symbol {
            let x = (times[m - 1], (m - 1) as usize);
            assert forall|a: int| 0 <= a < rest.len() implies (#[trigger] rest[a]).1 < m - 1 by {
                assert(rest.contains(rest[a]));
            }
            assert forall|a: int, b: int| 0 <= a < b < cur.len() implies (#[trigger] cur[a]).1 < (
            #[trigger] cur[b]).1 by {
                assert(cur[a] == rest[a]);
                if b < rest.len() {
                    assert(cur[b] == rest[b]);
                } else {
                    assert(rest[a].1 < m - 1);
                }
            }
        }
    }
}

/// What `positions_for_symbol` returns (the records of a stable
/// availability sort of the matching positions) holds exactly the
/// positions of `symbol`'s own observations, in nondecreasing time order.
pub proof fn lemma_positions_are_exactly_the_symbols(
    symbols: Seq<Seq<char>>,
    times: Seq<Timestamp>,
    symbol: Seq<char>,
    sorted: Seq<(Timestamp, usize)>,
)
    requires
        symbols.len() == times.len(),
        symbols.len() <= usize::MAX,
        is_stable_availability_sort(
            matching_positions(symbols, times, symbol, symbols.len() as int),
            sorted,
        ),
    ensures
        forall|i: usize|
            #[trigger] records_of(sorted).contains(i) <==> (i < symbols.len() && symbols[i as int] == symbol),
        forall|a: int, b: int|
            0 <= a <= b < records_of(sorted).len() ==> times[(#[trigger] records_of(sorted)[a]) as int]
                <= times[(#[trigger] records_of(sorted)[b]) as int],
{
    let n = symbols.len() as int;
    let mp = matching_positions(symbols, times, symbol, n);
    lemma_matching_positions_are_the_symbols_own(symbols, times, symbol, n);
    assert forall|a: int| 0 <= a < sorted.len() implies (#[trigger] sorted[a]).1 < n && symbols[sorted[
        a].1 as int] == symbol && sorted[a].0 == times[sorted[a].1 as int] by {
        assert(sorted.contains(sorted[a]));
        lemma_stable_sort_keeps_members(mp, sorted, sorted[a]);
    }
    assert forall|i: usize| #[trigger] records_of(sorted).contains(i) <==> (i < symbols.len()
        && symbols[i as int] == symbol) by {
        if records_of(sorted).contains(i) {
            let a = choose|a: int| 0 <= a < records_of(sorted).len() && records_of(sorted)[a] == i;
            assert(records_of(sorted)[a] == sorted[a].1);
        }
        if i < symbols.len() && symbols[i as int] == symbol {
            let x = (times[i as int], i);
            assert(mp.contains(x));
            lemma_stable_sort_keeps_members(mp, sorted, x);
            let a = choose|a: int| 0 <= a < sorted.len() && sorted[a] == x;
            assert(records_of(sorted)[a] == i);
        }
    }
    assert forall|a: int, b: int| 0 <= a <= b < records_of(sorted).len() implies times[(
    #[trigger] records_of(sorted)[a]) as int] <= times[(#[trigger] records_of(sorted)[b]) as int] by {
        assert(records_of(sorted)[a] == sorted[a].1);
        assert(records_of(sorted)[b] == sorted[b].1);
        assert(sorted_by_availability(sorted));
        assert(sorted[a].0 <= sorted[b].0);
    }
}

} // verus!
