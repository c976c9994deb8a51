//! The point-in-time access contract.
//!
//! > The model may only access information whose availability timestamp is
//! > `<= prediction timestamp`.
//!
//! [`PointInTime`] separates *when a fact describes* (`observation_time`)
//! from *when a fact became knowable* (`availability_time`).
//! [`PointInTimeDataset`] is the one sanctioned way to query a collection
//! of such records "as of" a given time: it keeps its records sorted by
//! availability and exposes them only through
//! [`PointInTimeDataset::as_of`], which never reaches a record whose
//! availability lies after the query time.

use crate::timestamp::Timestamp;
use vstd::prelude::*;

verus! {

/// Implemented by every record type that can appear in a
/// [`PointInTimeDataset`].
pub trait PointInTime {
    /// The moment this record became knowable to a model, as contracts
    /// speak of it.
    spec fn availability(&self) -> Timestamp;

    /// The moment this record's value describes.
    fn observation_time(&self) -> Timestamp;

    /// The moment this record became knowable to a model.
    fn availability_time(&self) -> (t: Timestamp)
        ensures
            t == self.availability(),
    ;
}

/// Each record paired with the availability it reports.
pub open spec fn with_availabilities<T: PointInTime>(records: Seq<T>) -> Seq<(Timestamp, T)> {
    Seq::new(records.len(), |i: int| (records[i].availability(), records[i]))
}

/// Availability never decreases along `s`.
pub open spec fn sorted_by_availability<T>(s: Seq<(Timestamp, T)>) -> bool {
    forall|i: int, j: int| 0 <= i <= j < s.len() ==> #[trigger] s[i].0 <= #[trigger] s[j].0
}

/// The records of `s` that became available exactly at `c`, in the order
/// they appear in `s`.
pub open spec fn available_exactly<T>(s: Seq<(Timestamp, T)>, c: Timestamp) -> Seq<(Timestamp, T)>
    decreases s.len(),
{
    if s.len() == 0 {
        Seq::empty()
    } else if s.last().0 == c {
        available_exactly(s.drop_last(), c).push(s.last())
    } else {
        available_exactly(s.drop_last(), c)
    }
}

/// The records of `s` available at or before `t`, in the order they appear
/// in `s`.
pub open spec fn available_by<T>(s: Seq<(Timestamp, T)>, t: Timestamp) -> Seq<(Timestamp, T)>
    decreases s.len(),
{
    if s.len() == 0 {
        Seq::empty()
    } else if s.last().0 <= t {
        available_by(s.drop_last(), t).push(s.last())
    } else {
        available_by(s.drop_last(), t)
    }
}

/// `sorted` holds the records of `input`, ordered by availability, with
/// records of equal availability kept in their input order.
pub open spec fn is_stable_availability_sort<T>(
    input: Seq<(Timestamp, T)>,
    sorted: Seq<(Timestamp, T)>,
) -> bool {
    &&& sorted_by_availability(sorted)
    &&& forall|c: Timestamp| #[trigger] available_exactly(sorted, c) == available_exactly(input, c)
}

/// Each record paired with its availability time.
pub open spec fn with_times<T>(times: Seq<Timestamp>, records: Seq<T>) -> Seq<(Timestamp, T)> {
    Seq::new(records.len(), |i: int| (times[i], records[i]))
}

/// The records of timed pairs.
pub open spec fn records_of<T>(s: Seq<(Timestamp, T)>) -> Seq<T> {
    s.map_values(|p: (Timestamp, T)| p.1)
}

/// A collection of point-in-time records, queryable only through
/// [`PointInTimeDataset::as_of`].
#[derive(Debug)]
pub struct PointInTimeDataset<T> {
    /// Availability time of each record, ascending.
    times: Vec<Timestamp>,
    records: Vec<T>,
}

proof fn lemma_available_exactly_add<T>(a: Seq<(Timestamp, T)>, b: Seq<(Timestamp, T)>, c: Timestamp)
    ensures
        available_exactly(a + b, c) == available_exactly(a, c) + available_exactly(b, c),
    decreases b.len(),
{
    if b.len() == 0 {
        assert(a + b == a);
        assert(available_exactly(b, c) == Seq::<(Timestamp, T)>::empty());
        assert(available_exactly(a, c) + Seq::<(Timestamp, T)>::empty() == available_exactly(a, c));
    } else {
        lemma_available_exactly_add(a, b.drop_last(), c);
        assert((a + b).drop_last() == a + b.drop_last());
        assert((a + b).last() == b.last());
        if b.last().0 == c {
            assert(available_exactly(a, c) + available_exactly(b.drop_last(), c).push(b.last())
                == (available_exactly(a, c) + available_exactly(b.drop_last(), c)).push(b.last()));
        }
    }
}

proof fn lemma_available_exactly_all_later<T>(s: Seq<(Timestamp, T)>, c: Timestamp)
    requires
        forall|j: int| 0 <= j < s.len() ==> #[trigger] s[j].0 > c,
    ensures
        available_exactly(s, c) == Seq::<(Timestamp, T)>::empty(),
    decreases s.len(),
{
    if s.len() > 0 {
        lemma_available_exactly_all_later(s.drop_last(), c);
    }
}

proof fn lemma_available_exactly_single<T>(x: (Timestamp, T), c: Timestamp)
    ensures
        available_exactly(seq![x], c) == (if x.0 == c {
            seq![x]
        } else {
            Seq::<(Timestamp, T)>::empty()
        }),
{
    assert(seq![x].drop_last() == Seq::<(Timestamp, T)>::empty());
    assert(available_exactly(Seq::<(Timestamp, T)>::empty(), c) == Seq::<(Timestamp, T)>::empty());
    assert(seq![x].last() == x);
    assert(Seq::<(Timestamp, T)>::empty().push(x) == seq![x]);
}

/// Inserting `x` right after every record available no later than `x`
/// appends `x` to its own availability group and leaves every other group
/// unchanged.
proof fn lemma_insert_keeps_groups<T>(s: Seq<(Timestamp, T)>, p: int, x: (Timestamp, T), c: Timestamp)
    requires
        0 <= p <= s.len(),
        forall|j: int| 0 <= j < p ==> #[trigger] s[j].0 <= x.0,
        forall|j: int| p <= j < s.len() ==> #[trigger] s[j].0 > x.0,
    ensures
        available_exactly(s.insert(p, x), c) == (if x.0 == c {
            available_exactly(s, c).push(x)
        } else {
            available_exactly(s, c)
        }),
{
    let pre = s.take(p);
    let post = s.skip(p);
    assert(s == pre + post);
    assert(s.insert(p, x) == pre + seq![x] + post);
    lemma_available_exactly_add(pre, post, c);
    lemma_available_exactly_add(pre + seq![x], post, c);
    lemma_available_exactly_add(pre, seq![x], c);
    lemma_available_exactly_single(x, c);
    if x.0 == c {
        assert forall|j: int| 0 <= j < post.len() implies #[trigger] post[j].0 > c by {
            assert(post[j] == s[p + j]);
        }
        lemma_available_exactly_all_later(post, c);
        assert(available_exactly(pre, c) + seq![x] == available_exactly(pre, c).push(x));
        assert(available_exactly(post, c) == Seq::<(Timestamp, T)>::empty());
        assert(available_exactly(pre, c) + Seq::<(Timestamp, T)>::empty() == available_exactly(pre, c));
        assert(available_exactly(pre, c).push(x) + Seq::<(Timestamp, T)>::empty() == available_exactly(
            pre,
            c,
        ).push(x));
    } else {
        assert(available_exactly(pre, c) + Seq::<(Timestamp, T)>::empty() == available_exactly(pre, c));
    }
}

/// On a sorted sequence whose first `idx` records are exactly those
/// available no later than `t`, the records available by `t` are its first
/// `idx` records.
proof fn lemma_available_by_sorted_prefix<T>(s: Seq<(Timestamp, T)>, t: Timestamp, idx: int)
    requires
        0 <= idx <= s.len(),
        forall|j: int| 0 <= j < idx ==> #[trigger] s[j].0 <= t,
        forall|j: int| idx <= j < s.len() ==> #[trigger] s[j].0 > t,
    ensures
        available_by(s, t) == s.take(idx),
    decreases s.len(),
{
    if s.len() == 0 {
        assert(s.take(idx) == Seq::<(Timestamp, T)>::empty());
    } else if idx == s.len() {
        lemma_available_by_sorted_prefix(s.drop_last(), t, idx - 1);
        assert(s.drop_last().take(idx - 1).push(s.last()) == s.take(idx));
    } else {
        lemma_available_by_sorted_prefix(s.drop_last(), t, idx);
        assert(s.drop_last().take(idx) == s.take(idx));
    }
}

impl<T> PointInTimeDataset<T> {
    #[verifier::type_invariant]
    spec fn inv(self) -> bool {
        &&& self.times@.len() == self.records@.len()
        &&& sorted_by_availability(with_times(self.times@, self.records@))
    }

    /// The records with their availability times, in ascending
    /// availability order.
    pub closed spec fn view(&self) -> Seq<(Timestamp, T)> {
        with_times(self.times@, self.records@)
    }

    /// The first index of the ascending `times` whose time is after `t`.
    fn upper_bound(times: &Vec<Timestamp>, t: Timestamp) -> (idx: usize)
        requires
            forall|i: int, j: int| 0 <= i <= j < times@.len() ==> times@[i] <= times@[j],
        ensures
            idx <= times@.len(),
            forall|j: int| 0 <= j < idx ==> #[trigger] times@[j] <= t,
            forall|j: int| idx <= j < times@.len() ==> #[trigger] times@[j] > t,
    {
        let mut lo: usize = 0;
        let mut hi: usize = times.len();
        while lo < hi
            invariant
                forall|i: int, j: int| 0 <= i <= j < times@.len() ==> times@[i] <= times@[j],
                0 <= lo <= hi <= times@.len(),
                forall|j: int| 0 <= j < lo ==> #[trigger] times@[j] <= t,
                forall|j: int| hi <= j < times@.len() ==> #[trigger] times@[j] > t,
            decreases hi - lo,
        {
            let mid = lo + (hi - lo) / 2;
            if times[mid] <= t {
                assert forall|j: int| 0 <= j < mid + 1 implies #[trigger] times@[j] <= t by {
                    assert(times@[j] <= times@[mid as int]);
                }
                lo = mid + 1;
            } else {
                assert forall|j: int| mid <= j < times@.len() implies #[trigger] times@[j] > t by {
                    assert(times@[mid as int] <= times@[j]);
                }
                hi = mid;
            }
        }
        lo
    }

    /// Sorts records that come paired with their availability times.
    /// Records of equal availability keep their input order.
    pub fn with_availability(timed: Vec<(Timestamp, T)>) -> (d: Self)
        ensures
            is_stable_availability_sort(timed@, d@),
    {
        let ghost orig = timed@;
        let mut input = timed;
        let mut times: Vec<Timestamp> = Vec::new();
        let mut records: Vec<T> = Vec::new();
        let ghost mut i: int = 0;
        while input.len() > 0
            invariant
                0 <= i <= orig.len(),
                input@ == orig.skip(i),
                times@.len() == records@.len(),
                sorted_by_availability(with_times(times@, records@)),
                forall|c: Timestamp| #[trigger]
                    available_exactly(with_times(times@, records@), c) == available_exactly(
                        orig.take(i),
                        c,
                    ),
            decreases input@.len(),
        {
            let (k, x) = input.remove(0);
            assert((k, x) == orig[i]);
            let ghost before = with_times(times@, records@);
            proof {
                assert forall|a: int, b: int| 0 <= a <= b < times@.len() implies times@[a]
                    <= times@[b] by {
                    assert(before[a].0 == times@[a] && before[b].0 == times@[b]);
                }
            }
            let p = Self::upper_bound(&times, k);
            proof {
                assert forall|j: int| 0 <= j < p implies #[trigger] before[j].0 <= k by {
                    assert(before[j].0 == times@[j]);
                }
                assert forall|j: int| p <= j < before.len() implies #[trigger] before[j].0 > k by {
                    assert(before[j].0 == times@[j]);
                }
            }
            times.insert(p, k);
            records.insert(p, x);
            proof {
                let after = with_times(times@, records@);
                assert(after == before.insert(p as int, (k, x)));
                assert forall|c: Timestamp| #[trigger]
                    available_exactly(after, c) == available_exactly(orig.take(i + 1), c) by {
                    lemma_insert_keeps_groups(before, p as int, (k, x), c);
                    assert(orig.take(i + 1).drop_last() == orig.take(i));
                    assert(orig.take(i + 1).last() == (k, x));
                }
                assert forall|a: int, b: int| 0 <= a <= b < after.len() implies #[trigger] after[a].0
                    <= #[trigger] after[b].0 by {
                    if a < p && b > p {
                        assert(after[a] == before[a]);
                        assert(after[b] == before[b - 1]);
                    } else if a < p && b == p {
                        assert(after[a] == before[a]);
                    } else if a < p {
                        assert(after[a] == before[a]);
                        assert(after[b] == before[b]);
                    } else if a == p && b > p {
                        assert(after[b] == before[b - 1]);
                    } else if a > p {
                        assert(after[a] == before[a - 1]);
                        assert(after[b] == before[b - 1]);
                    }
                }
                assert(orig.skip(i).remove(0) == orig.skip(i + 1));
                i = i + 1;
            }
        }
        assert(orig.take(i) == orig);
        PointInTimeDataset { times, records }
    }

    /// All records whose availability time is at or before `as_of`, in
    /// ascending availability order (input order among equal
    /// availabilities). This is the only read path the dataset exposes.
    pub fn as_of(&self, as_of: Timestamp) -> (r: &[T])
        ensures
            r@ == records_of(available_by(self@, as_of)),
    {
        proof {
            use_type_invariant(self);
            let v = self@;
            assert forall|a: int, b: int| 0 <= a <= b < self.times@.len() implies self.times@[a]
                <= self.times@[b] by {
                assert(v[a].0 == self.times@[a] && v[b].0 == self.times@[b]);
            }
        }
        let idx = Self::upper_bound(&self.times, as_of);
        proof {
            let v = self@;
            assert forall|j: int| 0 <= j < idx implies #[trigger] v[j].0 <= as_of by {
                assert(v[j].0 == self.times@[j]);
            }
            assert forall|j: int| idx <= j < v.len() implies #[trigger] v[j].0 > as_of by {
                assert(v[j].0 == self.times@[j]);
            }
            lemma_available_by_sorted_prefix(v, as_of, idx as int);
            assert(records_of(v.take(idx as int)) == self.records@.take(idx as int));
        }
        let all = self.records.as_slice();
        &all[0..idx]
    }

    pub fn len(&self) -> (n: usize)
        ensures
            n == self@.len(),
    {
        self.records.len()
    }

    pub fn is_empty(&self) -> (b: bool)
        ensures
            b == (self@.len() == 0),
    {
        self.records.len() == 0
    }
}

impl<T: PointInTime> PointInTimeDataset<T> {
    /// Sorts `records` by the availability time each reports. Records of
    /// equal availability keep their input order.
    pub fn new(records: Vec<T>) -> (d: Self)
        ensures
            is_stable_availability_sort(with_availabilities(records@), d@),
    {
        let ghost orig = records@;
        let mut input = records;
        let mut timed: Vec<(Timestamp, T)> = Vec::new();
        while input.len() > 0
            invariant
                timed@.len() + input@.len() == orig.len(),
                input@ == orig.skip(timed@.len() as int),
                timed@ == with_availabilities(orig.take(timed@.len() as int)),
            decreases input@.len(),
        {
            let ghost n = timed@.len() as int;
            let x = input.remove(0);
            assert(x == orig[n]);
            let t = x.availability_time();
            timed.push((t, x));
            proof {
                assert(orig.skip(n).remove(0) == orig.skip(n + 1));
                assert(timed@ =~= with_availabilities(orig.take(n + 1)));
            }
        }
        assert(orig.take(timed@.len() as int) == orig);
        Self::with_availability(timed)
    }
}

impl<T> Default for PointInTimeDataset<T> {
    fn default() -> (d: Self)
        ensures
            d@ == Seq::<(Timestamp, T)>::empty(),
    {
        PointInTimeDataset { times: Vec::new(), records: Vec::new() }
    }
}

/// Every record returned as of `t` became available no later than `t`.
pub proof fn lemma_as_of_never_reaches_the_future<T>(s: Seq<(Timestamp, T)>, t: Timestamp, i: int)
    requires
        0 <= i < available_by(s, t).len(),
    ensures
        available_by(s, t)[i].0 <= t,
    decreases s.len(),
{
    if s.len() > 0 {
        if s.last().0 <= t && i == available_by(s, t).len() - 1 {
        } else {
            lemma_as_of_never_reaches_the_future(s.drop_last(), t, i);
        }
    }
}

proof fn lemma_available_exactly_of_available_by<T>(s: Seq<(Timestamp, T)>, t: Timestamp, c: Timestamp)
    ensures
        available_exactly(available_by(s, t), c) == (if c <= t {
            available_exactly(s, c)
        } else {
            Seq::<(Timestamp, T)>::empty()
        }),
    decreases s.len(),
{
    if s.len() > 0 {
        lemma_available_exactly_of_available_by(s.drop_last(), t, c);
        let rest = available_by(s.drop_last(), t);
        if s.last().0 <= t {
            let r = rest.push(s.last());
            assert(r.drop_last() == rest);
            assert(r.last() == s.last());
        }
    }
}

/// A dataset built from `input` answers a query as of `t` with exactly the
/// input records available no later than `t`: for every availability time
/// `c`, the records returned with availability `c` are the input's records
/// with availability `c` (in input order) when `c <= t`, and none when
/// `c > t`.
pub proof fn lemma_as_of_returns_exactly_the_known_input<T>(
    input: Seq<(Timestamp, T)>,
    sorted: Seq<(Timestamp, T)>,
    t: Timestamp,
    c: Timestamp,
)
    requires
        is_stable_availability_sort(input, sorted),
    ensures
        available_exactly(available_by(sorted, t), c) == (if c <= t {
            available_exactly(input, c)
        } else {
            Seq::<(Timestamp, T)>::empty()
        }),
{
    lemma_available_exactly_of_available_by(sorted, t, c);
    assert(available_exactly(sorted, c) == available_exactly(input, c));
}

/// Queries against a sorted dataset are ordered by availability, and a
/// query at an earlier time returns a prefix of a query at a later time.
pub proof fn lemma_as_of_is_ordered_and_monotone<T>(
    s: Seq<(Timestamp, T)>,
    t1: Timestamp,
    t2: Timestamp,
)
    requires
        sorted_by_availability(s),
        t1 <= t2,
    ensures
        sorted_by_availability(available_by(s, t1)),
        available_by(s, t1).is_prefix_of(available_by(s, t2)),
{
    let i1 = choose_upper_bound(s, t1);
    let i2 = choose_upper_bound(s, t2);
    lemma_available_by_sorted_prefix(s, t1, i1);
    lemma_available_by_sorted_prefix(s, t2, i2);
    if i1 > i2 {
        assert(s[i2].0 > t2);
        assert(s[i2].0 <= t1);
    }
}

/// The number of leading records of a sorted `s` available by `t`.
proof fn choose_upper_bound<T>(s: Seq<(Timestamp, T)>, t: Timestamp) -> (idx: int)
    requires
        sorted_by_availability(s),
    ensures
        0 <= idx <= s.len(),
        forall|j: int| 0 <= j < idx ==> #[trigger] s[j].0 <= t,
        forall|j: int| idx <= j < s.len() ==> #[trigger] s[j].0 > t,
    decreases s.len(),
{
    if s.len() == 0 {
        0
    } else {
        let d = s.drop_last();
        assert(sorted_by_availability(d)) by {
            assert forall|a: int, b: int| 0 <= a <= b < d.len() implies #[trigger]
                d[a].0 <= #[trigger] d[b].0 by {
                assert(d[a] == s[a] && d[b] == s[b]);
            }
        }
        let k = choose_upper_bound(d, t);
        if s.last().0 <= t {
            assert forall|j: int| 0 <= j < s.len() implies #[trigger] s[j].0 <= t by {
                assert(s[j].0 <= s[s.len() - 1].0);
            }
            s.len() as int
        } else {
            assert forall|j: int| 0 <= j < k implies #[trigger] s[j].0 <= t by {
                assert(s[j] == d[j]);
            }
            assert forall|j: int| k <= j < s.len() implies #[trigger] s[j].0 > t by {
                if j < s.len() - 1 {
                    assert(s[j] == d[j]);
                }
            }
            k
        }
    }
}

proof fn lemma_available_exactly_has_member<T>(s: Seq<(Timestamp, T)>, c: Timestamp)
    requires
        available_exactly(s, c).len() > 0,
    ensures
        exists|i: int| 0 <= i < s.len() && (#[trigger] s[i]).0 == c,
    decreases s.len(),
{
    if s.last().0 == c {
        assert(s[s.len() - 1].0 == c);
    } else {
        lemma_available_exactly_has_member(s.drop_last(), c);
        let i = choose|i: int| 0 <= i < s.drop_last().len() && (#[trigger] s.drop_last()[i]).0 == c;
        assert(s[i] == s.drop_last()[i]);
    }
}

proof fn lemma_sorted_drop_last<T>(s: Seq<(Timestamp, T)>)
    requires
        sorted_by_availability(s),
        s.len() > 0,
    ensures
        sorted_by_availability(s.drop_last()),
{
    let d = s.drop_last();
    assert forall|a: int, b: int| 0 <= a <= b < d.len() implies #[trigger] d[a].0 <= #[trigger] d[b].0 by {
        assert(d[a] == s[a] && d[b] == s[b]);
    }
}

/// A record of `s` is available no later than its last record's time.
proof fn lemma_last_is_latest<T>(s: Seq<(Timestamp, T)>, c: Timestamp)
    requires
        sorted_by_availability(s),
        s.len() > 0,
        available_exactly(s, c).len() > 0,
    ensures
        c <= s.last().0,
{
    lemma_available_exactly_has_member(s, c);
    let i = choose|i: int| 0 <= i < s.len() && (#[trigger] s[i]).0 == c;
    assert(s[i].0 <= s[s.len() - 1].0);
}

proof fn lemma_same_groups_same_sequence<T>(a: Seq<(Timestamp, T)>, b: Seq<(Timestamp, T)>)
    requires
        sorted_by_availability(a),
        sorted_by_availability(b),
        forall|c: Timestamp| #[trigger] available_exactly(a, c) == available_exactly(b, c),
    ensures
        a == b,
    decreases a.len(),
{
    if a.len() == 0 || b.len() == 0 {
        if a.len() > 0 {
            assert(available_exactly(a, a.last().0).len() > 0);
            assert(available_exactly(b, a.last().0) == Seq::<(Timestamp, T)>::empty());
        }
        if b.len() > 0 {
            assert(available_exactly(b, b.last().0).len() > 0);
            assert(available_exactly(a, b.last().0) == Seq::<(Timestamp, T)>::empty());
        }
        assert(a =~= b);
    } else {
        let ta = a.last().0;
        let tb = b.last().0;
        assert(available_exactly(a, ta).len() > 0);
        assert(available_exactly(b, tb).len() > 0);
        assert(available_exactly(b, ta) == available_exactly(a, ta));
        assert(available_exactly(a, tb) == available_exactly(b, tb));
        lemma_last_is_latest(b, ta);
        lemma_last_is_latest(a, tb);
        let t = ta;
        let ad = a.drop_last();
        let bd = b.drop_last();
        assert(available_exactly(a, t) == available_exactly(ad, t).push(a.last()));
        assert(available_exactly(b, t) == available_exactly(bd, t).push(b.last()));
        assert(available_exactly(a, t).last() == a.last());
        assert(available_exactly(b, t).last() == b.last());
        assert(available_exactly(a, t).drop_last() == available_exactly(ad, t));
        assert(available_exactly(b, t).drop_last() == available_exactly(bd, t));
        assert forall|c: Timestamp| #[trigger] available_exactly(ad, c) == available_exactly(bd, c) by {
            assert(available_exactly(a, c) == available_exactly(b, c));
        }
        lemma_sorted_drop_last(a);
        lemma_sorted_drop_last(b);
        lemma_same_groups_same_sequence(ad, bd);
        assert(a == ad.push(a.last()));
        assert(b == bd.push(b.last()));
    }
}

/// The stable sort by availability is unique: the sorted dataset of an
/// input is fully determined by it, ties included.
pub proof fn lemma_stable_availability_sort_is_unique<T>(
    input: Seq<(Timestamp, T)>,
    a: Seq<(Timestamp, T)>,
    b: Seq<(Timestamp, T)>,
)
    requires
        is_stable_availability_sort(input, a),
        is_stable_availability_sort(input, b),
    ensures
        a == b,
{
    assert forall|c: Timestamp| #[trigger] available_exactly(a, c) == available_exactly(b, c) by {
        assert(available_exactly(a, c) == available_exactly(input, c));
        assert(available_exactly(b, c) == available_exactly(input, c));
    }
    lemma_same_groups_same_sequence(a, b);
}

/// A record is available exactly at `c` in `s` when it is in `s` and its
/// time is `c`.
pub proof fn lemma_available_exactly_contains<T>(s: Seq<(Timestamp, T)>, c: Timestamp, x: (Timestamp, T))
    ensures
        available_exactly(s, c).contains(x) <==> (s.contains(x) && x.0 == c),
    decreases s.len(),
{
    if s.len() > 0 {
        let d = s.drop_last();
        lemma_available_exactly_contains(d, c, x);
        let rest = available_exactly(d, c);
        if s.contains(x) && !d.contains(x) {
            let i = choose|i: int| 0 <= i < s.len() && s[i] == x;
            if i < d.len() {
                assert(d[i] == x);
            }
        }
        if d.contains(x) {
            let i = choose|i: int| 0 <= i < d.len() && d[i] == x;
            assert(s[i] == x);
        }
        if s.last().0 == c {
            let r = rest.push(s.last());
            if r.contains(x) && !rest.contains(x) {
                let i = choose|i: int| 0 <= i < r.len() && r[i] == x;
                if i < rest.len() {
                    assert(rest[i] == x);
                }
            }
            if rest.contains(x) {
                let i = choose|i: int| 0 <= i < rest.len() && rest[i] == x;
                assert(r[i] == x);
            }
            assert(r[rest.len() as int] == s.last());
        }
        assert(s[s.len() - 1] == s.last());
    }
}

proof fn lemma_available_by_member<T>(s: Seq<(Timestamp, T)>, t: Timestamp, i: int)
    requires
        0 <= i < available_by(s, t).len(),
    ensures
        s.contains(available_by(s, t)[i]),
    decreases s.len(),
{
    if s.len() > 0 {
        let d = s.drop_last();
        if s.last().0 <= t && i == available_by(s, t).len() - 1 {
            assert(s[s.len() - 1] == s.last());
        } else {
            lemma_available_by_member(d, t, i);
            let j = choose|j: int| 0 <= j < d.len() && d[j] == available_by(d, t)[i];
            assert(s[j] == d[j]);
        }
    }
}

/// A dataset built from records never hands out a record before that record
/// reports being available: every record returned as of `t` reports an
/// availability no later than `t`.
pub proof fn lemma_records_never_seen_before_available<T: PointInTime>(
    records: Seq<T>,
    d: Seq<(Timestamp, T)>,
    t: Timestamp,
    i: int,
)
    requires
        is_stable_availability_sort(with_availabilities(records), d),
        0 <= i < available_by(d, t).len(),
    ensures
        available_by(d, t)[i].1.availability() <= t,
{
    let x = available_by(d, t)[i];
    lemma_as_of_never_reaches_the_future(d, t, i);
    lemma_available_by_member(d, t, i);
    lemma_available_exactly_contains(d, x.0, x);
    lemma_available_exactly_contains(with_availabilities(records), x.0, x);
    assert(available_exactly(d, x.0) == available_exactly(with_availabilities(records), x.0));
    let w = with_availabilities(records);
    let j = choose|j: int| 0 <= j < w.len() && w[j] == x;
    assert(w[j] == (records[j].availability(), records[j]));
}

/// Sorting by availability neither drops nor invents records: a record is
/// in the sorted sequence exactly when it is in the input.
pub proof fn lemma_stable_sort_keeps_members<T>(
    input: Seq<(Timestamp, T)>,
    sorted: Seq<(Timestamp, T)>,
    x: (Timestamp, T),
)
    requires
        is_stable_availability_sort(input, sorted),
    ensures
        sorted.contains(x) <==> input.contains(x),
{
    lemma_available_exactly_contains(sorted, x.0, x);
    lemma_available_exactly_contains(input, x.0, x);
    assert(available_exactly(sorted, x.0) == available_exactly(input, x.0));
}

} // verus!
