//! Causal trailing windows: the windowing discipline every rolling feature
//! follows.
//!
//! The window for index `i` always ends at `i` (inclusive) and reaches back
//! at most `window` observations; it is used only once it holds at least
//! `min_periods` observations. No window is centered, and none reaches a
//! later index, so computing on a prefix of a series reproduces, index for
//! index, what computing on the full series gives.

use vstd::prelude::*;

verus! {

/// The half-open index range `[start, end)` of the trailing window at
/// index `i`, or `None` while it holds fewer than `min_periods`
/// observations.
pub open spec fn window_at(i: int, window: int, min_periods: int) -> Option<(int, int)> {
    let start = if i + 1 >= window {
        i + 1 - window
    } else {
        0
    };
    if i + 1 - start >= min_periods {
        Some((start, i + 1))
    } else {
        None
    }
}

/// The trailing window of every index of a series of length `len`.
pub open spec fn windows_of(len: int, window: int, min_periods: int) -> Seq<Option<(int, int)>> {
    Seq::new(len as nat, |i: int| window_at(i, window, min_periods))
}

/// The window ranges of a view of usize pairs.
pub open spec fn ranges_view(r: Seq<Option<(usize, usize)>>) -> Seq<Option<(int, int)>> {
    r.map_values(
        |w: Option<(usize, usize)>|
            match w {
                Some((a, b)) => Some((a as int, b as int)),
                None => None,
            },
    )
}

/// The trailing window, as an index range, of each of `len` positions.
/// Requires `0 < min_periods <= window`.
pub fn trailing_windows(len: usize, window: usize, min_periods: usize) -> (r: Vec<
    Option<(usize, usize)>,
>)
    requires
        window > 0,
        min_periods > 0,
        min_periods <= window,
    ensures
        ranges_view(r@) == windows_of(len as int, window as int, min_periods as int),
{
    let mut r: Vec<Option<(usize, usize)>> = Vec::new();
    let mut i: usize = 0;
    while i < len
        invariant
            i <= len,
            ranges_view(r@) == windows_of(i as int, window as int, min_periods as int),
        decreases len - i,
    {
        let start = if i + 1 >= window {
            i + 1 - window
        } else {
            0
        };
        let w = if i + 1 - start >= min_periods {
            Some((start, i + 1))
        } else {
            None
        };
        let ghost before = r@;
        r.push(w);
        assert(ranges_view(r@) == ranges_view(before).push(window_at(i as int, window as int, min_periods as int)));
        assert(windows_of(i + 1, window as int, min_periods as int) == windows_of(
            i as int,
            window as int,
            min_periods as int,
        ).push(window_at(i as int, window as int, min_periods as int)));
        i = i + 1;
    }
    r
}

/// Causality: every window ends at its own index and holds at most
/// `window` and at least `min_periods` observations, so it never reaches a
/// later index; and the windows of a prefix of a series are the prefix of
/// the windows of the whole series.
pub proof fn lemma_windows_are_causal(len: int, m: int, window: int, min_periods: int, i: int)
    requires
        0 <= m <= len,
        0 <= i < len,
        window > 0,
        min_periods > 0,
    ensures
        windows_of(m, window, min_periods) == windows_of(len, window, min_periods).take(m),
        windows_of(len, window, min_periods)[i] matches Some((s, e)) ==> 0 <= s <= i && e == i + 1
            && min_periods <= e - s <= window,
{
    assert(windows_of(m, window, min_periods) =~= windows_of(len, window, min_periods).take(m));
}

/// Once the series is long enough, the window is full: at index
/// `i >= window - 1` it covers exactly the last `window` observations.
pub proof fn lemma_full_windows(window: int, min_periods: int, i: int)
    requires
        window > 0,
        0 < min_periods <= window,
        i >= window - 1,
    ensures
        window_at(i, window, min_periods) == Some((i + 1 - window, i + 1)),
{
}

/// What applying `f` at one index yields: nothing while the trailing
/// window is not yet full enough, and otherwise a value `f` may return
/// when called on exactly the window's values.
pub open spec fn applied_at<T, F: Fn(&[T]) -> T>(
    f: F,
    values: Seq<T>,
    w: Option<(int, int)>,
    out: Option<T>,
) -> bool {
    match w {
        None => out is None,
        Some(se) => out is Some && exists|x: &[T]|
            x@ == values.subrange(se.0, se.1) && #[trigger] call_ensures(f, (x,), out->0),
    }
}

/// Applies `f` to the trailing window of every index of `values`, honoring
/// `window` and `min_periods`: `f` sees only `values[start..=i]`, never a
/// later value. `f` must accept any window.
pub fn rolling_apply<T, F: Fn(&[T]) -> T>(values: &[T], window: usize, min_periods: usize, f: F) -> (r:
    Vec<Option<T>>)
    requires
        window > 0,
        min_periods > 0,
        min_periods <= window,
        forall|x: &[T]| #[trigger] call_requires(f, (x,)),
    ensures
        r@.len() == values@.len(),
        forall|i: int|
            0 <= i < values@.len() ==> applied_at(
                f,
                values@,
                window_at(i, window as int, min_periods as int),
                #[trigger] r@[i],
            ),
{
    let ranges = trailing_windows(values.len(), window, min_periods);
    assert(ranges_view(ranges@).len() == ranges@.len());
    let mut r: Vec<Option<T>> = Vec::new();
    let mut i: usize = 0;
    while i < ranges.len()
        invariant
            ranges_view(ranges@) == windows_of(values@.len() as int, window as int, min_periods as int),
            ranges@.len() == values@.len(),
            forall|x: &[T]| #[trigger] call_requires(f, (x,)),
            i <= ranges@.len(),
            r@.len() == i,
            forall|j: int|
                0 <= j < i ==> applied_at(
                    f,
                    values@,
                    window_at(j, window as int, min_periods as int),
                    #[trigger] r@[j],
                ),
        decreases ranges@.len() - i,
    {
        assert(ranges_view(ranges@)[i as int] == window_at(i as int, window as int, min_periods as int));
        let out = match ranges[i] {
            Some((s, e)) => {
                assert(0 <= s <= e <= values@.len());
                let x = &values[s..e];
                let o = f(x);
                assert(ranges_view(ranges@)[i as int] == Some((s as int, e as int)));
                assert(x@ == values@.subrange(s as int, e as int));
                assert(call_ensures(f, (x,), o));
                assert(exists|y: &[T]| y@ == values@.subrange(s as int, e as int) && #[trigger] call_ensures(f, (y,), o));
                assert(Some(o)->0 == o);
                assert(applied_at(f, values@, Some((s as int, e as int)), Some(o)));
                Some(o)
            },
            None => {
                assert(ranges_view(ranges@)[i as int] == None::<(int, int)>);
                None
            },
        };
        assert(applied_at(f, values@, window_at(i as int, window as int, min_periods as int), out));
        let ghost before = r@;
        r.push(out);
        proof {
            assert forall|j: int| 0 <= j < i + 1 implies applied_at(
                f,
                values@,
                window_at(j, window as int, min_periods as int),
                #[trigger] r@[j],
            ) by {
                if j < i {
                    assert(r@[j] == before[j]);
                } else {
                    assert(r@[j] == out);
                }
            }
        }
        i = i + 1;
    }
    r
}

/// What `rolling_apply` hands `f` at index `i` is drawn from `values[..=i]`
/// alone: it is the same window whether the series is cut at any later
/// point or not, so a rolling value never depends on the future.
pub proof fn lemma_rolling_windows_read_only_the_past<T>(
    values: Seq<T>,
    m: int,
    i: int,
    window: int,
    min_periods: int,
)
    requires
        0 <= i < m <= values.len(),
        window > 0,
        min_periods > 0,
    ensures
        window_at(i, window, min_periods) matches Some((s, e)) ==> 0 <= s <= e && e == i + 1
            && values.subrange(s, e) == values.take(m).subrange(s, e),
{
    if let Some((s, e)) = window_at(i, window, min_periods) {
        assert(values.subrange(s, e) =~= values.take(m).subrange(s, e));
    }
}

/// A window is as long as the history allows: at index `i` it ends right
/// after `i`, holds `min(i + 1, window)` observations, and exists exactly
/// when that many reach `min_periods`.
pub proof fn lemma_window_is_as_long_as_history_allows(i: int, window: int, min_periods: int)
    requires
        i >= 0,
        window > 0,
        min_periods > 0,
    ensures
        window_at(i, window, min_periods) is Some <==> (if i + 1 < window {
            i + 1
        } else {
            window
        }) >= min_periods,
        window_at(i, window, min_periods) matches Some((s, e)) ==> e == i + 1 && e - s == (if i + 1
            < window {
            i + 1
        } else {
            window
        }) && s >= 0,
{
}

} // verus!
