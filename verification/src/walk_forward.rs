//! Walk-forward train/validation/test splitting: the only sanctioned way to
//! split time-ordered data for evaluation.
//!
//! Each split carries three non-overlapping, chronologically ordered
//! windows, each separated from the next by an `embargo` gap:
//!
//! ```text
//! [------- train -------][embargo][-- validation --][embargo][-- test --]
//! ```
//!
//! Successive splits roll the whole block forward by `test_period`. A split
//! whose test window would end after the requested end is never produced.
//! A window `(a, b)` covers the instants `a <= t < b`.

use crate::timestamp::{days, Duration, Timestamp, MAX_DAYS, MAX_DURATION, MAX_INSTANT, MIN_INSTANT, NANOS_PER_DAY};
use vstd::prelude::*;

verus! {

#[derive(Debug, Clone, Copy, PartialEq, Eq, Structural)]
pub enum WindowMode {
    /// The train window always starts at the requested start and grows with
    /// each successive split.
    Expanding,
    /// The train window has the fixed length `train_period` and slides
    /// forward with each split.
    Rolling,
}

#[derive(Debug, Clone, Copy, PartialEq, Eq)]
pub struct WalkForwardSplit {
    pub train: (Timestamp, Timestamp),
    pub validation: (Timestamp, Timestamp),
    pub test: (Timestamp, Timestamp),
}

/// The mathematical content of a split, in unbounded integers.
pub struct SplitSpec {
    pub train: (int, int),
    pub validation: (int, int),
    pub test: (int, int),
}

impl WalkForwardSplit {
    pub open spec fn view(self) -> SplitSpec {
        SplitSpec {
            train: (self.train.0 as int, self.train.1 as int),
            validation: (self.validation.0 as int, self.validation.1 as int),
            test: (self.test.0 as int, self.test.1 as int),
        }
    }
}

#[derive(Debug)]
pub struct WalkForwardValidator {
    train_period: Duration,
    validation_period: Duration,
    test_period: Duration,
    embargo: Duration,
    mode: WindowMode,
}

/// The `k`-th split (counting from 0) of a validator with the given
/// periods, starting at `start`.
pub open spec fn nth_split(
    train: int,
    validation: int,
    test: int,
    embargo: int,
    mode: WindowMode,
    start: int,
    k: int,
) -> SplitSpec {
    let train_end = start + train + k * test;
    let train_start = match mode {
        WindowMode::Expanding => start,
        WindowMode::Rolling => train_end - train,
    };
    let validation_start = train_end + embargo;
    let validation_end = validation_start + validation;
    let test_start = validation_end + embargo;
    let test_end = test_start + test;
    SplitSpec {
        train: (train_start, train_end),
        validation: (validation_start, validation_end),
        test: (test_start, test_end),
    }
}

impl Clone for WalkForwardValidator {
    fn clone(&self) -> (r: Self)
        ensures
            r == *self,
    {
        proof {
            use_type_invariant(self);
        }
        WalkForwardValidator {
            train_period: self.train_period,
            validation_period: self.validation_period,
            test_period: self.test_period,
            embargo: self.embargo,
            mode: self.mode,
        }
    }
}

impl WalkForwardValidator {
    #[verifier::type_invariant]
    spec fn inv(self) -> bool {
        &&& 0 < self.train_period <= MAX_DURATION
        &&& 0 < self.validation_period <= MAX_DURATION
        &&& 0 < self.test_period <= MAX_DURATION
        &&& 0 <= self.embargo <= MAX_DURATION
    }

    pub closed spec fn train_period(self) -> int {
        self.train_period as int
    }

    pub closed spec fn validation_period(self) -> int {
        self.validation_period as int
    }

    pub closed spec fn test_period(self) -> int {
        self.test_period as int
    }

    pub closed spec fn embargo(self) -> int {
        self.embargo as int
    }

    pub closed spec fn mode(self) -> WindowMode {
        self.mode
    }

    /// The `k`-th split this validator produces from `start`.
    pub open spec fn split_at(self, start: int, k: int) -> SplitSpec {
        nth_split(
            self.train_period(),
            self.validation_period(),
            self.test_period(),
            self.embargo(),
            self.mode(),
            start,
            k,
        )
    }

    /// The number of splits that fit in `[start, end]`: the first `k` whose
    /// test window would end after `end`.
    pub open spec fn fits(self, start: int, end: int, k: int) -> bool {
        self.split_at(start, k).test.1 <= end
    }

    /// Every split from `start` whose test window ends no later than `end`,
    /// in order.
    pub open spec fn spec_splits(self, start: int, end: int, count: nat) -> bool {
        &&& forall|k: int| 0 <= k < count ==> self.fits(start, end, k)
        &&& !self.fits(start, end, count as int)
    }

    /// Every period must be positive and the embargo non-negative; each is
    /// a span of time, so at most [`MAX_DURATION`].
    pub fn new(
        train_period: Duration,
        validation_period: Duration,
        test_period: Duration,
        embargo: Duration,
        mode: WindowMode,
    ) -> (v: Self)
        requires
            0 < train_period <= MAX_DURATION,
            0 < validation_period <= MAX_DURATION,
            0 < test_period <= MAX_DURATION,
            0 <= embargo <= MAX_DURATION,
        ensures
            v.train_period() == train_period,
            v.validation_period() == validation_period,
            v.test_period() == test_period,
            v.embargo() == embargo,
            v.mode() == mode,
    {
        WalkForwardValidator { train_period, validation_period, test_period, embargo, mode }
    }

    /// Periods given in years (of 365 days) and an embargo in days. Each
    /// period must be a span of days that a duration can hold.
    pub fn from_years(
        train_years: u32,
        validation_years: u32,
        test_years: u32,
        embargo_days: u32,
        mode: WindowMode,
    ) -> (v: Self)
        requires
            train_years > 0,
            validation_years > 0,
            test_years > 0,
            365 * train_years <= MAX_DAYS,
            365 * validation_years <= MAX_DAYS,
            365 * test_years <= MAX_DAYS,
        ensures
            v.train_period() == (365 * train_years) * NANOS_PER_DAY,
            v.validation_period() == (365 * validation_years) * NANOS_PER_DAY,
            v.test_period() == (365 * test_years) * NANOS_PER_DAY,
            v.embargo() == embargo_days * NANOS_PER_DAY,
            v.mode() == mode,
    {
        let train = days(365 * (train_years as i64));
        let validation = days(365 * (validation_years as i64));
        let test = days(365 * (test_years as i64));
        let embargo = days(embargo_days as i64);
        Self::new(train, validation, test, embargo, mode)
    }

    /// All splits fully contained in `[start, end]`, in order: the `k`-th
    /// element is [`WalkForwardValidator::split_at`]`(start, k)`, and the
    /// result stops right before the first split whose test window would
    /// end after `end`. `start` and `end` are instants, and so must be every
    /// instant computed on the way, up to the end of that first split that
    /// does not fit.
    pub fn splits(&self, start: Timestamp, end: Timestamp) -> (r: Vec<WalkForwardSplit>)
        requires
            MIN_INSTANT <= start <= MAX_INSTANT,
            MIN_INSTANT <= end <= MAX_INSTANT,
            forall|count: nat|
                #[trigger] self.spec_splits(start as int, end as int, count) ==> self.split_at(
                    start as int,
                    count as int,
                ).test.1 <= MAX_INSTANT,
        ensures
            self.spec_splits(start as int, end as int, r@.len()),
            forall|k: int| 0 <= k < r@.len() ==> #[trigger] r@[k]@ == self.split_at(start as int, k),
    {
        proof {
            use_type_invariant(self);
        }
        let ghost v = *self;
        let train = self.train_period;
        let validation = self.validation_period;
        let test = self.test_period;
        let embargo = self.embargo;
        let start_w = start;
        let end_w = end;
        let mut result: Vec<WalkForwardSplit> = Vec::new();
        let mut train_end: i128 = start_w + train;
        let ghost mut k: int = 0;
        loop
            invariant
                v == *self,
                v.train_period() == train,
                v.validation_period() == validation,
                v.test_period() == test,
                v.embargo() == embargo,
                0 < train <= MAX_DURATION,
                0 < validation <= MAX_DURATION,
                0 < test <= MAX_DURATION,
                0 <= embargo <= MAX_DURATION,
                MIN_INSTANT <= start <= MAX_INSTANT,
                MIN_INSTANT <= end <= MAX_INSTANT,
                start_w == start,
                end_w == end,
                result@.len() == k,
                train_end == start + train + k * test,
                k > 0 ==> train_end <= end + train,
                train_end >= start + train,
                k == 0 ==> train_end == start + train,
                forall|j: int| 0 <= j < k ==> v.fits(start as int, end as int, j),
                forall|j: int| 0 <= j < k ==> #[trigger] result@[j]@ == v.split_at(start as int, j),
            ensures
                v.spec_splits(start as int, end as int, result@.len()),
                forall|j: int| 0 <= j < result@.len() ==> #[trigger] result@[j]@ == v.split_at(
                    start as int,
                    j,
                ),
            decreases end + train - train_end,
        {
            let train_start = match self.mode {
                WindowMode::Expanding => start_w,
                WindowMode::Rolling => train_end - train,
            };
            let validation_start = train_end + embargo;
            let validation_end = validation_start + validation;
            let test_start = validation_end + embargo;
            let test_end = test_start + test;
            if test_end > end_w {
                break;
            }
            assert(v.fits(start as int, end as int, k as int));
            let split = WalkForwardSplit {
                train: (train_start, train_end),
                validation: (validation_start, validation_end),
                test: (test_start, test_end),
            };
            result.push(split);
            assert(result@[k as int]@ == v.split_at(start as int, k as int));
            assert(start + train + (k + 1) * test == start + train + k * test + test)
                by (nonlinear_arith);
            train_end = train_end + test;
            proof {
                k = k + 1;
            }
        }
        result
    }
}

/// Every window of every split is non-empty, the windows come in the order
/// train, validation, test, and consecutive windows are separated by
/// exactly the embargo.
pub proof fn lemma_windows_ordered_and_embargoed(
    v: WalkForwardValidator,
    start: int,
    end: int,
    count: nat,
    k: int,
)
    requires
        v.train_period() > 0,
        v.validation_period() > 0,
        v.test_period() > 0,
        v.embargo() >= 0,
        v.spec_splits(start, end, count),
        0 <= k < count,
    ensures
        ({
            let s = v.split_at(start, k);
            &&& start <= s.train.0 < s.train.1
            &&& s.train.1 + v.embargo() == s.validation.0
            &&& s.validation.0 < s.validation.1
            &&& s.validation.1 + v.embargo() == s.test.0
            &&& s.test.0 < s.test.1 <= end
        }),
{
    assert(k * v.test_period() >= 0) by (nonlinear_arith)
        requires
            k >= 0,
            v.test_period() > 0,
    ;
    assert(v.fits(start, end, k));
}

/// Successive splits roll forward by exactly one test period.
pub proof fn lemma_splits_roll_forward_by_test_period(v: WalkForwardValidator, start: int, k: int)
    ensures
        v.split_at(start, k + 1).train.1 == v.split_at(start, k).train.1 + v.test_period(),
        v.split_at(start, k + 1).test.1 == v.split_at(start, k).test.1 + v.test_period(),
{
    assert((k + 1) * v.test_period() == k * v.test_period() + v.test_period()) by (nonlinear_arith);
}

/// In expanding mode every train window starts at `start`, so each split's
/// train window is longer than the previous one.
pub proof fn lemma_expanding_train_window_grows(v: WalkForwardValidator, start: int, k: int)
    requires
        v.mode() == WindowMode::Expanding,
        v.test_period() > 0,
    ensures
        v.split_at(start, k).train.0 == start,
        v.split_at(start, k + 1).train.0 == start,
        v.split_at(start, k + 1).train.1 - v.split_at(start, k + 1).train.0 > v.split_at(
            start,
            k,
        ).train.1 - v.split_at(start, k).train.0,
{
    lemma_splits_roll_forward_by_test_period(v, start, k);
}

/// In rolling mode every train window has length `train_period`, and the
/// window slides forward by one test period per split.
pub proof fn lemma_rolling_train_window_fixed(v: WalkForwardValidator, start: int, k: int)
    requires
        v.mode() == WindowMode::Rolling,
    ensures
        v.split_at(start, k).train.1 - v.split_at(start, k).train.0 == v.train_period(),
        v.split_at(start, k + 1).train.0 == v.split_at(start, k).train.0 + v.test_period(),
{
    lemma_splits_roll_forward_by_test_period(v, start, k);
}

/// Every split's windows have the configured lengths: the validation window
/// lasts `validation_period`, the test window `test_period`, and the train
/// window ends `train_period` plus `k` test periods after `start` (so it
/// lasts `train_period` in rolling mode, and everything since `start` in
/// expanding mode).
pub proof fn lemma_window_lengths(v: WalkForwardValidator, start: int, k: int)
    ensures
        v.split_at(start, k).validation.1 - v.split_at(start, k).validation.0 == v.validation_period(),
        v.split_at(start, k).test.1 - v.split_at(start, k).test.0 == v.test_period(),
        v.split_at(start, k).train.1 == start + v.train_period() + k * v.test_period(),
        v.mode() == WindowMode::Expanding ==> v.split_at(start, k).train.0 == start,
        v.mode() == WindowMode::Rolling ==> v.split_at(start, k).train.1 - v.split_at(start, k).train.0
            == v.train_period(),
        v.split_at(start, k).validation.0 == v.split_at(start, k).train.1 + v.embargo(),
        v.split_at(start, k).test.0 == v.split_at(start, k).validation.1 + v.embargo(),
{
}

/// The splits returned are exactly those whose test window ends by `end`:
/// every returned split's test window ends no later than `end`, and the
/// next one's would end after it.
pub proof fn lemma_splits_stop_at_the_first_that_overruns(
    v: WalkForwardValidator,
    start: int,
    end: int,
    count: nat,
)
    requires
        v.spec_splits(start, end, count),
    ensures
        forall|k: int| 0 <= k < count ==> #[trigger] v.split_at(start, k).test.1 <= end,
        v.split_at(start, count as int).test.1 > end,
{
    assert forall|k: int| 0 <= k < count implies #[trigger] v.split_at(start, k).test.1 <= end by {
        assert(v.fits(start, end, k));
    }
}

} // verus!
