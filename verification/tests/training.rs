use neurofinance::training::batch_ranges;

#[test]
fn batches_cover_examples_in_order_with_a_short_last_batch() {
    assert_eq!(batch_ranges(7, 3), vec![(0, 3), (3, 6), (6, 7)]);
}

#[test]
fn batches_divide_evenly_when_possible() {
    assert_eq!(batch_ranges(6, 2), vec![(0, 2), (2, 4), (4, 6)]);
    assert_eq!(batch_ranges(4, 4), vec![(0, 4)]);
}

#[test]
fn a_batch_larger_than_the_epoch_holds_everything() {
    assert_eq!(batch_ranges(3, 10), vec![(0, 3)]);
}

#[test]
fn no_examples_give_no_batches() {
    assert!(batch_ranges(0, 5).is_empty());
}
