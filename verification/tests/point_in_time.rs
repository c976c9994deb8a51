use chrono::{TimeZone, Utc};
use neurofinance::point_in_time::{PointInTime, PointInTimeDataset};
use neurofinance::timestamp::Timestamp;

#[derive(Debug, Clone, PartialEq)]
struct Fact {
    id: u32,
    observation_time: Timestamp,
    availability_time: Timestamp,
}

impl PointInTime for Fact {
    /// The availability the library's contracts speak of: the same instant
    /// [`PointInTime::availability_time`] reports.
    fn availability(&self) -> Timestamp {
        self.availability_time()
    }

    fn observation_time(&self) -> Timestamp {
        self.observation_time
    }
    fn availability_time(&self) -> Timestamp {
        self.availability_time
    }
}

fn ts(day: u32) -> Timestamp {
    i128::from(Utc.with_ymd_and_hms(2020, 1, day, 0, 0, 0).unwrap().timestamp_nanos_opt().unwrap())
}

fn fact(id: u32, observed_day: u32, available_day: u32) -> Fact {
    Fact {
        id,
        observation_time: ts(observed_day),
        availability_time: ts(available_day),
    }
}

#[test]
fn as_of_excludes_records_available_after_query_time() {
    let dataset = PointInTimeDataset::new(vec![fact(1, 1, 1), fact(2, 1, 10), fact(3, 5, 5)]);

    let visible = dataset.as_of(ts(5)).iter().map(|f| f.id).collect::<Vec<_>>();
    assert_eq!(visible, vec![1, 3]);

    let visible_later = dataset.as_of(ts(10)).iter().map(|f| f.id).collect::<Vec<_>>();
    assert_eq!(visible_later, vec![1, 3, 2]);
}

#[test]
fn as_of_before_any_availability_returns_empty() {
    let dataset = PointInTimeDataset::new(vec![fact(1, 5, 5)]);
    assert_eq!(dataset.as_of(ts(1)).len(), 0);
}

#[test]
fn as_of_is_inclusive_of_exact_availability_time() {
    let dataset = PointInTimeDataset::new(vec![fact(1, 5, 5)]);
    assert_eq!(dataset.as_of(ts(5)).len(), 1);
}

#[test]
fn results_are_ordered_by_availability_time() {
    let dataset = PointInTimeDataset::new(vec![fact(1, 1, 9), fact(2, 1, 3), fact(3, 1, 6)]);
    let ids = dataset.as_of(ts(9)).iter().map(|f| f.id).collect::<Vec<_>>();
    assert_eq!(ids, vec![2, 3, 1]);
}

#[test]
fn empty_dataset_is_empty() {
    let dataset: PointInTimeDataset<Fact> = PointInTimeDataset::default();
    assert!(dataset.is_empty());
    assert_eq!(dataset.as_of(ts(1)).len(), 0);
}

#[test]
fn equal_availability_keeps_input_order() {
    let dataset = PointInTimeDataset::new(vec![
        fact(1, 1, 4),
        fact(2, 1, 2),
        fact(3, 2, 4),
        fact(4, 1, 2),
        fact(5, 3, 4),
    ]);
    assert_eq!(dataset.len(), 5);
    assert!(!dataset.is_empty());
    let ids = dataset.as_of(ts(4)).iter().map(|f| f.id).collect::<Vec<_>>();
    assert_eq!(ids, vec![2, 4, 1, 3, 5]);
    let early = dataset.as_of(ts(3)).iter().map(|f| f.id).collect::<Vec<_>>();
    assert_eq!(early, vec![2, 4]);
}

#[test]
fn an_earlier_query_is_a_prefix_of_a_later_one() {
    let dataset = PointInTimeDataset::new(vec![fact(1, 1, 7), fact(2, 1, 1), fact(3, 1, 3), fact(4, 1, 9)]);
    let mut previous: Vec<u32> = Vec::new();
    for day in 1..=10 {
        let now = dataset.as_of(ts(day)).iter().map(|f| f.id).collect::<Vec<_>>();
        assert!(now.starts_with(&previous));
        for f in dataset.as_of(ts(day)) {
            assert!(f.availability_time() <= ts(day));
        }
        previous = now;
    }
    assert_eq!(previous, vec![2, 3, 1, 4]);
}

#[test]
fn as_of_respects_sub_second_availability() {
    let base = ts(3);
    let half_second: Timestamp = 500_000_000;
    let record = Fact { id: 7, observation_time: base, availability_time: base + 10_000_000_000 + half_second };
    let dataset = PointInTimeDataset::new(vec![record]);
    assert!(dataset.as_of(base + 10_200_000_000).is_empty());
    assert_eq!(dataset.as_of(base + 10_500_000_000).len(), 1);
}
