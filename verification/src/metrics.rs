//! Classification counts: the integer tallies behind accuracy and
//! per-class precision, recall and F1, computed from parallel
//! `predicted` / `actual` class-index slices.

use crate::baseline::occurrences;
use vstd::prelude::*;

verus! {

/// The tallies for one class.
#[derive(Debug, Clone, Copy, PartialEq, Eq)]
pub struct ClassCounts {
    /// Positions predicted as this class that truly are this class.
    pub true_positive: usize,
    /// Positions predicted as this class.
    pub predicted_positive: usize,
    /// Positions that truly are this class (the class's support).
    pub actual_positive: usize,
}

/// The tallies behind a classification report.
#[derive(Debug, Clone, PartialEq, Eq)]
pub struct ClassificationCounts {
    /// Positions where prediction and truth agree.
    pub correct: usize,
    /// The number of examples.
    pub total: usize,
    /// One entry per class `0..num_classes`, in class order.
    pub per_class: Vec<ClassCounts>,
}

/// The number of positions `i < len` with `p[i] == a[i]`.
pub open spec fn agreements(p: Seq<usize>, a: Seq<usize>, len: int) -> nat
    decreases len,
{
    if len <= 0 {
        0
    } else {
        agreements(p, a, len - 1) + if p[len - 1] == a[len - 1] {
            1nat
        } else {
            0nat
        }
    }
}

/// The number of positions `i < len` with `p[i] == c` and `a[i] == c`.
pub open spec fn hits(p: Seq<usize>, a: Seq<usize>, c: usize, len: int) -> nat
    decreases len,
{
    if len <= 0 {
        0
    } else {
        hits(p, a, c, len - 1) + if p[len - 1] == c && a[len - 1] == c {
            1nat
        } else {
            0nat
        }
    }
}

fn count_agreements(p: &[usize], a: &[usize]) -> (n: usize)
    requires
        p@.len() == a@.len(),
    ensures
        n == agreements(p@, a@, p@.len() as int),
{
    let mut n: usize = 0;
    let mut i: usize = 0;
    while i < p.len()
        invariant
            p@.len() == a@.len(),
            i <= p@.len(),
            n == agreements(p@, a@, i as int),
            n <= i,
        decreases p@.len() - i,
    {
        if p[i] == a[i] {
            n = n + 1;
        }
        i = i + 1;
    }
    n
}

fn count_hits(p: &[usize], a: &[usize], c: usize) -> (n: usize)
    requires
        p@.len() == a@.len(),
    ensures
        n == hits(p@, a@, c, p@.len() as int),
{
    let mut n: usize = 0;
    let mut i: usize = 0;
    while i < p.len()
        invariant
            p@.len() == a@.len(),
            i <= p@.len(),
            n == hits(p@, a@, c, i as int),
            n <= i,
        decreases p@.len() - i,
    {
        if p[i] == c && a[i] == c {
            n = n + 1;
        }
        i = i + 1;
    }
    n
}

fn count_class(s: &[usize], c: usize) -> (n: usize)
    ensures
        n == occurrences(s@, c),
{
    let mut n: usize = 0;
    let mut i: usize = 0;
    while i < s.len()
        invariant
            i <= s@.len(),
            n == occurrences(s@.take(i as int), c),
            n <= i,
        decreases s@.len() - i,
    {
        assert(s@.take(i + 1).drop_last() == s@.take(i as int));
        if s[i] == c {
            n = n + 1;
        }
        i = i + 1;
    }
    assert(s@.take(s@.len() as int) == s@);
    n
}

/// The tallies of a classification of `predicted` against `actual` over
/// classes `0..num_classes`. The slices must be equally long and
/// non-empty.
pub fn classification_counts(predicted: &[usize], actual: &[usize], num_classes: usize) -> (r:
    ClassificationCounts)
    requires
        predicted@.len() == actual@.len(),
        predicted@.len() > 0,
    ensures
        r.total == predicted@.len(),
        r.correct == agreements(predicted@, actual@, predicted@.len() as int),
        r.per_class@.len() == num_classes,
        forall|c: int|
            0 <= c < num_classes ==> {
                let k = #[trigger] r.per_class@[c];
                &&& k.true_positive == hits(predicted@, actual@, c as usize, predicted@.len() as int)
                &&& k.predicted_positive == occurrences(predicted@, c as usize)
                &&& k.actual_positive == occurrences(actual@, c as usize)
            },
{
    let correct = count_agreements(predicted, actual);
    let mut per_class: Vec<ClassCounts> = Vec::new();
    let mut c: usize = 0;
    while c < num_classes
        invariant
            c <= num_classes,
            predicted@.len() == actual@.len(),
            per_class@.len() == c,
            forall|d: int|
                0 <= d < c ==> {
                    let k = #[trigger] per_class@[d];
                    &&& k.true_positive == hits(predicted@, actual@, d as usize, predicted@.len() as int)
                    &&& k.predicted_positive == occurrences(predicted@, d as usize)
                    &&& k.actual_positive == occurrences(actual@, d as usize)
                },
        decreases num_classes - c,
    {
        let counts = ClassCounts {
            true_positive: count_hits(predicted, actual, c),
            predicted_positive: count_class(predicted, c),
            actual_positive: count_class(actual, c),
        };
        per_class.push(counts);
        c = c + 1;
    }
    ClassificationCounts { correct, total: predicted.len(), per_class }
}

/// Accuracy is one exactly when every prediction is right: all positions
/// agree iff the agreement count is the total.
pub proof fn lemma_all_correct_iff_full_agreement(p: Seq<usize>, a: Seq<usize>, len: int)
    requires
        0 <= len <= p.len(),
        len <= a.len(),
    ensures
        agreements(p, a, len) <= len,
        (agreements(p, a, len) == len) <==> (forall|i: int| 0 <= i < len ==> p[i] == a[i]),
    decreases len,
{
    if len > 0 {
        lemma_all_correct_iff_full_agreement(p, a, len - 1);
    }
}

/// A class's hits never exceed how often it is predicted, nor how often it
/// truly occurs, so precision and recall lie in `[0, 1]`.
pub proof fn lemma_hits_bounded(p: Seq<usize>, a: Seq<usize>, c: usize, len: int)
    requires
        0 <= len <= p.len(),
        len <= a.len(),
    ensures
        hits(p, a, c, len) <= occurrences(p.take(len), c),
        hits(p, a, c, len) <= occurrences(a.take(len), c),
    decreases len,
{
    if len > 0 {
        lemma_hits_bounded(p, a, c, len - 1);
        assert(p.take(len).drop_last() == p.take(len - 1));
        assert(a.take(len).drop_last() == a.take(len - 1));
    }
}

} // verus!
