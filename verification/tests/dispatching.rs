use block_fees::amount::FeeAmount;
use block_fees::dispatch::{Dispatcher, Slot};
use block_fees::error::{AppError, ErrorKind};

fn amount(mantissa: i128, scale: u32) -> FeeAmount {
    FeeAmount::new(mantissa, scale).expect("a fee amount")
}

fn network(text: &str) -> AppError {
    AppError::new(ErrorKind::NetworkError, text)
}

fn fees_of(dispatcher: &Dispatcher) -> Vec<FeeAmount> {
    match dispatcher.outcome() {
        Some(Ok(fees)) => fees,
        other => panic!("no fees: {other:?}"),
    }
}

fn failure_of(dispatcher: &Dispatcher) -> AppError {
    match dispatcher.outcome() {
        Some(Err(err)) => err,
        other => panic!("no failure: {other:?}"),
    }
}

#[test]
fn a_dispatch_without_units_is_complete() {
    let dispatcher = Dispatcher::new(0);
    assert_eq!(dispatcher.units(), 0);
    assert_eq!(dispatcher.pending(), 0);
    assert!(dispatcher.is_complete());
    assert!(fees_of(&dispatcher).is_empty());
}

#[test]
fn a_fresh_dispatch_awaits_every_unit() {
    let dispatcher = Dispatcher::new(3);
    assert_eq!(dispatcher.units(), 3);
    assert_eq!(dispatcher.pending(), 3);
    assert!(!dispatcher.is_complete());
    assert!(dispatcher.outcome().is_none());
}

#[test]
fn fees_are_joined_in_the_order_of_the_units() {
    let mut dispatcher = Dispatcher::new(3);
    assert!(dispatcher.record(2, Ok(amount(3, 4))));
    assert_eq!(dispatcher.pending(), 2);
    assert!(dispatcher.outcome().is_none());
    assert!(dispatcher.record(0, Ok(amount(1, 4))));
    assert!(!dispatcher.is_complete());
    assert!(dispatcher.record(1, Ok(amount(2, 4))));
    assert!(dispatcher.is_complete());
    assert_eq!(dispatcher.pending(), 0);
    assert_eq!(fees_of(&dispatcher), vec![amount(1, 4), amount(2, 4), amount(3, 4)]);
}

#[test]
fn every_order_of_arrival_joins_the_same_fees() {
    let fees = [amount(1, 4), amount(2, 4), amount(3, 4)];
    let orders = [[0, 1, 2], [0, 2, 1], [1, 0, 2], [1, 2, 0], [2, 0, 1], [2, 1, 0]];
    for order in orders {
        let mut dispatcher = Dispatcher::new(3);
        for index in order {
            assert!(dispatcher.record(index, Ok(fees[index])));
        }
        assert_eq!(fees_of(&dispatcher), fees.to_vec());
    }
}

#[test]
fn a_unit_counts_once() {
    let mut dispatcher = Dispatcher::new(2);
    assert!(dispatcher.record(0, Ok(amount(1, 0))));
    assert!(!dispatcher.record(0, Ok(amount(5, 0))));
    assert!(!dispatcher.record(0, Err(network("late"))));
    assert_eq!(dispatcher.pending(), 1);
    assert!(dispatcher.record(1, Ok(amount(2, 0))));
    assert_eq!(fees_of(&dispatcher), vec![amount(1, 0), amount(2, 0)]);
}

#[test]
fn a_unit_that_was_not_dispatched_is_refused() {
    let mut dispatcher = Dispatcher::new(2);
    assert!(!dispatcher.record(2, Ok(amount(1, 0))));
    assert!(!dispatcher.record(usize::MAX, Err(network("nowhere"))));
    assert_eq!(dispatcher.pending(), 2);
    let mut none = Dispatcher::new(0);
    assert!(!none.record(0, Ok(amount(1, 0))));
    assert!(fees_of(&none).is_empty());
}

#[test]
fn one_failure_among_successes_fails_the_dispatch() {
    let mut dispatcher = Dispatcher::new(3);
    assert!(dispatcher.record(0, Ok(amount(1, 4))));
    assert!(dispatcher.record(1, Err(network("connection reset"))));
    assert!(dispatcher.outcome().is_none());
    assert!(dispatcher.record(2, Ok(amount(3, 4))));
    let err = failure_of(&dispatcher);
    assert_eq!(err.kind(), ErrorKind::NetworkError);
    assert_eq!(err.message(), "connection reset");
}

#[test]
fn a_failure_is_only_reported_once_all_units_are_in() {
    let mut dispatcher = Dispatcher::new(2);
    assert!(dispatcher.record(1, Err(AppError::new(ErrorKind::DecodeError, "no fee"))));
    assert!(!dispatcher.is_complete());
    assert!(dispatcher.outcome().is_none());
    assert!(dispatcher.record(0, Ok(amount(7, 0))));
    assert_eq!(failure_of(&dispatcher).kind(), ErrorKind::DecodeError);
}

#[test]
fn the_failure_seen_first_is_reported() {
    let mut dispatcher = Dispatcher::new(3);
    assert!(dispatcher.record(2, Err(AppError::new(ErrorKind::DecodeError, "second unit seen"))));
    assert!(dispatcher.record(0, Err(network("third unit seen"))));
    assert!(dispatcher.record(1, Ok(amount(1, 0))));
    let err = failure_of(&dispatcher);
    assert_eq!(err.kind(), ErrorKind::DecodeError);
    assert_eq!(err.message(), "second unit seen");

    let mut dispatcher = Dispatcher::new(3);
    assert!(dispatcher.record(0, Err(network("third unit seen"))));
    assert!(dispatcher.record(2, Err(AppError::new(ErrorKind::DecodeError, "second unit seen"))));
    assert!(dispatcher.record(1, Ok(amount(1, 0))));
    let err = failure_of(&dispatcher);
    assert_eq!(err.kind(), ErrorKind::NetworkError);
    assert_eq!(err.message(), "third unit seen");
}

#[test]
fn a_refused_failure_is_not_reported() {
    let mut dispatcher = Dispatcher::new(1);
    assert!(!dispatcher.record(1, Err(network("stray"))));
    assert!(dispatcher.record(0, Ok(amount(4, 0))));
    assert!(!dispatcher.record(0, Err(network("late"))));
    assert_eq!(fees_of(&dispatcher), vec![amount(4, 0)]);
}

#[test]
fn slots_compare_by_what_they_hold() {
    assert_eq!(Slot::Paid(amount(1, 0)), Slot::Paid(amount(1, 0)));
    assert_ne!(Slot::Paid(amount(1, 0)), Slot::Paid(amount(2, 0)));
    assert_ne!(Slot::Pending, Slot::Failed);
}
