//! Baseline models over class-index histories: the reference points a
//! learned model has to beat before any claim of predictive value means
//! anything. Every baseline sees only the class-index history a real caller
//! would have as of each prediction day.

use std::collections::HashMap;
use vstd::prelude::*;

verus! {

/// Predicts whatever class was seen last. Regimes are persistent, so "no
/// change" is a genuinely competitive baseline.
#[derive(Debug, Default, Clone)]
pub struct NaivePersistenceBaseline {
    last_seen: Option<usize>,
}

impl NaivePersistenceBaseline {
    /// The last class observed, if any.
    pub closed spec fn last_seen(&self) -> Option<usize> {
        self.last_seen
    }

    /// What [`NaivePersistenceBaseline::predict`] returns.
    pub open spec fn prediction(&self, fallback: usize) -> usize {
        match self.last_seen() {
            Some(c) => c,
            None => fallback,
        }
    }

    pub fn new() -> (b: Self)
        ensures
            b.last_seen() == None::<usize>,
    {
        NaivePersistenceBaseline { last_seen: None }
    }

    /// The last class observed via [`NaivePersistenceBaseline::observe`],
    /// or `fallback` if nothing has been observed yet.
    pub fn predict(&self, fallback: usize) -> (c: usize)
        ensures
            c == self.prediction(fallback),
    {
        match self.last_seen {
            Some(c) => c,
            None => fallback,
        }
    }

    /// Records the true class for a day, for use in the next prediction.
    /// Call it only with the actual label, after the day's own prediction.
    pub fn observe(&mut self, true_class: usize)
        ensures
            final(self).last_seen() == Some(true_class),
    {
        self.last_seen = Some(true_class);
    }
}

/// After observing a class, the baseline predicts that class whatever the
/// fallback.
pub proof fn lemma_persistence_echoes_last_observation(
    after: NaivePersistenceBaseline,
    true_class: usize,
    fallback: usize,
)
    requires
        after.last_seen() == Some(true_class),
    ensures
        after.prediction(fallback) == true_class,
{
}

/// How often `c` occurs in `s`.
pub open spec fn occurrences(s: Seq<usize>, c: usize) -> nat
    decreases s.len(),
{
    if s.len() == 0 {
        0
    } else {
        occurrences(s.drop_last(), c) + if s.last() == c {
            1nat
        } else {
            0nat
        }
    }
}

/// `c` occurs in `s` at least as often as every other class, and it
/// appears no later than any other class that occurs as often.
pub open spec fn is_first_majority(s: Seq<usize>, c: usize) -> bool {
    &&& s.contains(c)
    &&& forall|d: usize| occurrences(s, d) <= occurrences(s, c)
    &&& forall|i: int|
        0 <= i < s.len() && occurrences(s, #[trigger] s[i]) == occurrences(s, c) ==> exists|j: int|
            0 <= j <= i && s[j] == c
}

/// Predicts whatever class was most frequent in a fixed training set; of
/// equally frequent classes, the one that appears first.
#[derive(Debug, Clone)]
pub struct MajorityClassBaseline {
    majority_class: usize,
}

proof fn lemma_occurrences_take(s: Seq<usize>, c: usize, i: int)
    requires
        0 <= i < s.len(),
    ensures
        occurrences(s.take(i + 1), c) == occurrences(s.take(i), c) + if s[i] == c {
            1nat
        } else {
            0nat
        },
{
    assert(s.take(i + 1).drop_last() == s.take(i));
}

proof fn lemma_occurrences_zero(s: Seq<usize>, c: usize)
    requires
        !s.contains(c),
    ensures
        occurrences(s, c) == 0,
    decreases s.len(),
{
    if s.len() > 0 {
        assert(!s.drop_last().contains(c)) by {
            if s.drop_last().contains(c) {
                let i = choose|i: int| 0 <= i < s.drop_last().len() && s.drop_last()[i] == c;
                assert(s[i] == c);
            }
        }
        lemma_occurrences_zero(s.drop_last(), c);
        assert(s[s.len() - 1] == s.last());
    }
}

impl MajorityClassBaseline {
    pub closed spec fn majority_class(&self) -> usize {
        self.majority_class
    }

    /// How often each class occurs in `s`, as a hash map from class to
    /// count; classes that do not occur are absent.
    fn class_counts(s: &[usize]) -> (counts: HashMap<usize, usize>)
        ensures
            forall|c: usize|
                #[trigger] counts@.contains_key(c) ==> counts@[c] == occurrences(s@, c),
            forall|c: usize| s@.contains(c) ==> #[trigger] counts@.contains_key(c),
    {
        broadcast use vstd::std_specs::hash::group_hash_axioms;

        let mut counts: HashMap<usize, usize> = HashMap::new();
        let mut i: usize = 0;
        while i < s.len()
            invariant
                i <= s@.len(),
                forall|c: usize|
                    #[trigger] counts@.contains_key(c) ==> counts@[c] == occurrences(
                        s@.take(i as int),
                        c,
                    ) && counts@[c] <= i,
                forall|j: int| 0 <= j < i ==> #[trigger] counts@.contains_key(s@[j]),
                forall|c: usize| !counts@.contains_key(c) ==> #[trigger] occurrences(s@.take(i as int), c) == 0,
            decreases s@.len() - i,
        {
            let c = s[i];
            let n = match counts.get(&c) {
                Some(v) => *v,
                None => 0,
            };
            proof {
                assert forall|d: usize| #[trigger] occurrences(s@.take(i + 1), d) == occurrences(
                    s@.take(i as int),
                    d,
                ) + if s@[i as int] == d {
                    1nat
                } else {
                    0nat
                } by {
                    lemma_occurrences_take(s@, d, i as int);
                }
            }
            counts.insert(c, n + 1);
            i = i + 1;
        }
        proof {
            assert(s@.take(s@.len() as int) == s@);
            assert forall|c: usize| s@.contains(c) implies #[trigger] counts@.contains_key(c) by {
                let j = choose|j: int| 0 <= j < s@.len() && s@[j] == c;
            }
        }
        counts
    }

    /// Fits on a training set of class indices (e.g. the walk-forward train
    /// window's labels only). The training set must not be empty: there is
    /// no majority of nothing.
    pub fn fit(train_classes: &[usize]) -> (b: Self)
        requires
            train_classes@.len() > 0,
        ensures
            is_first_majority(train_classes@, b.majority_class()),
    {
        broadcast use vstd::std_specs::hash::group_hash_axioms;

        let s = train_classes;
        let counts = Self::class_counts(s);
        proof {
            assert(s@.contains(s@[0]));
        }
        let mut best = s[0];
        let mut best_count: usize = match counts.get(&best) {
            Some(v) => *v,
            None => 0,
        };
        let mut best_at: usize = 0;
        let mut i: usize = 1;
        while i < s.len()
            invariant
                1 <= i <= s@.len(),
                best_at < i,
                s@[best_at as int] == best,
                best_count == occurrences(s@, best),
                forall|c: usize|
                    #[trigger] counts@.contains_key(c) ==> counts@[c] == occurrences(s@, c),
                forall|c: usize| s@.contains(c) ==> #[trigger] counts@.contains_key(c),
                forall|j: int| 0 <= j < i ==> occurrences(s@, #[trigger] s@[j]) <= best_count,
                forall|j: int| 0 <= j < best_at ==> occurrences(s@, #[trigger] s@[j]) < best_count,
            decreases s@.len() - i,
        {
            let c = s[i];
            proof {
                assert(s@.contains(s@[i as int]));
            }
            let n = match counts.get(&c) {
                Some(v) => *v,
                None => 0,
            };
            if n > best_count {
                best = c;
                best_count = n;
                best_at = i;
            }
            i = i + 1;
        }
        proof {
            assert(s@.contains(best));
            assert forall|d: usize| occurrences(s@, d) <= occurrences(s@, best) by {
                if s@.contains(d) {
                    let k = choose|k: int| 0 <= k < s@.len() && s@[k] == d;
                    assert(occurrences(s@, s@[k]) <= best_count);
                } else {
                    lemma_occurrences_zero(s@, d);
                }
            }
            assert forall|k: int|
                0 <= k < s@.len() && occurrences(s@, #[trigger] s@[k]) == occurrences(s@, best) implies exists|
                    j: int,
                | 0 <= j <= k && s@[j] == best by {
                assert(s@[best_at as int] == best);
            }
        }
        MajorityClassBaseline { majority_class: best }
    }

    pub fn predict(&self) -> (c: usize)
        ensures
            c == self.majority_class(),
    {
        self.majority_class
    }
}

} // verus!
