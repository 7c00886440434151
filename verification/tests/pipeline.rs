use block_fees::amount::FeeAmount;
use block_fees::endpoint::DEFAULT_ENDPOINT;
use block_fees::error::{AppError, ErrorKind};
use block_fees::pipeline::{Action, Event, Phase, Pipeline};

const BLOCK: &str = "000000000000000001a4f543e574f6e9d6e6e7c4ea2b84a5c1d5193a0a295995";

fn amount(mantissa: i128, scale: u32) -> FeeAmount {
    FeeAmount::new(mantissa, scale).expect("a fee amount")
}

fn txids(names: &[&str]) -> Vec<String> {
    names.iter().map(|name| name.to_string()).collect()
}

/// A run that has resolved `names` and dispatched one unit for each.
fn dispatched(names: &[&str]) -> Pipeline {
    let mut pipeline = Pipeline::new(DEFAULT_ENDPOINT.to_string());
    assert!(matches!(pipeline.step(Event::Submit(BLOCK.to_string())), Some(Action::Proceed)));
    assert!(matches!(pipeline.step(Event::Proceed), Some(Action::Resolve(_))));
    match pipeline.step(Event::Resolved(Ok(txids(names)))) {
        Some(Action::Dispatch(addresses)) => assert_eq!(addresses.len(), names.len()),
        other => panic!("not dispatched: {other:?}"),
    }
    assert_eq!(pipeline.phase(), Phase::Dispatching);
    pipeline
}

/// Closes the dispatch and gives the total that the run prints.
fn printed(pipeline: &mut Pipeline) -> String {
    assert!(matches!(pipeline.step(Event::Proceed), Some(Action::Proceed)));
    assert_eq!(pipeline.phase(), Phase::Aggregating);
    match pipeline.step(Event::Proceed) {
        Some(Action::Emit(total)) => {
            assert_eq!(pipeline.phase(), Phase::Done);
            total.to_text()
        },
        other => panic!("no total: {other:?}"),
    }
}

fn reported(action: Option<Action>) -> AppError {
    match action {
        Some(Action::Report(err)) => err,
        other => panic!("no diagnostic: {other:?}"),
    }
}

#[test]
fn a_run_starts_idle() {
    let pipeline = Pipeline::new(DEFAULT_ENDPOINT.to_string());
    assert_eq!(pipeline.phase(), Phase::Idle);
    assert_eq!(pipeline.pending(), 0);
}

#[test]
fn a_submitted_text_is_held_then_checked() {
    let mut pipeline = Pipeline::new(DEFAULT_ENDPOINT.to_string());
    assert!(matches!(pipeline.step(Event::Submit(BLOCK.to_string())), Some(Action::Proceed)));
    assert_eq!(pipeline.phase(), Phase::Validating);
    match pipeline.step(Event::Proceed) {
        Some(Action::Resolve(address)) => {
            assert_eq!(address, format!("https://blockstream.info/api/block/{BLOCK}/txids"));
        },
        other => panic!("not resolving: {other:?}"),
    }
    assert_eq!(pipeline.phase(), Phase::Resolving);
}

#[test]
fn an_invalid_identifier_fails_before_any_request() {
    for raw in ["", "xyz", "00000000", &BLOCK[1..], &BLOCK.to_uppercase(), &"1".repeat(64)] {
        let mut pipeline = Pipeline::new(DEFAULT_ENDPOINT.to_string());
        assert!(matches!(pipeline.step(Event::Submit(raw.to_string())), Some(Action::Proceed)));
        let err = reported(pipeline.step(Event::Proceed));
        assert_eq!(err.kind(), ErrorKind::InvalidInput);
        assert_eq!(pipeline.phase(), Phase::Failed);
        assert!(pipeline.step(Event::Proceed).is_none());
        assert!(pipeline.step(Event::Resolved(Ok(txids(&["t1"])))).is_none());
        assert!(pipeline.step(Event::Fetched(0, Ok(amount(1, 0)))).is_none());
        assert!(pipeline.step(Event::Submit(BLOCK.to_string())).is_none());
        assert_eq!(pipeline.phase(), Phase::Failed);
    }
}

#[test]
fn a_bad_endpoint_fails_before_any_request() {
    let mut pipeline = Pipeline::new("no address at all".to_string());
    assert!(matches!(pipeline.step(Event::Submit(BLOCK.to_string())), Some(Action::Proceed)));
    let err = reported(pipeline.step(Event::Proceed));
    assert_eq!(err.kind(), ErrorKind::EndpointError);
    assert_eq!(err.message(), "relative URL without a base");
    assert_eq!(pipeline.phase(), Phase::Failed);
}

#[test]
fn a_block_without_transactions_totals_zero() {
    let mut pipeline = dispatched(&[]);
    assert_eq!(pipeline.pending(), 0);
    assert_eq!(printed(&mut pipeline), "0");
}

#[test]
fn three_fees_total_exactly_in_every_order_of_completion() {
    let fees = [amount(1, 4), amount(2, 4), amount(3, 4)];
    let orders = [[0, 1, 2], [0, 2, 1], [1, 0, 2], [1, 2, 0], [2, 0, 1], [2, 1, 0]];
    for order in orders {
        let mut pipeline = dispatched(&["t1", "t2", "t3"]);
        for index in order {
            assert!(matches!(
                pipeline.step(Event::Fetched(index, Ok(fees[index]))),
                Some(Action::Await)
            ));
        }
        assert_eq!(pipeline.pending(), 0);
        assert_eq!(printed(&mut pipeline), "0.0006");
    }
}

#[test]
fn two_transactions_total_to_the_printed_sum() {
    let mut pipeline = Pipeline::new(DEFAULT_ENDPOINT.to_string());
    assert!(matches!(pipeline.step(Event::Submit(BLOCK.to_string())), Some(Action::Proceed)));
    assert!(matches!(pipeline.step(Event::Proceed), Some(Action::Resolve(_))));
    match pipeline.step(Event::Resolved(Ok(txids(&["t1", "t2"])))) {
        Some(Action::Dispatch(addresses)) => {
            assert_eq!(
                addresses,
                vec![
                    "https://blockstream.info/api/tx/t1".to_string(),
                    "https://blockstream.info/api/tx/t2".to_string(),
                ]
            );
        },
        other => panic!("not dispatched: {other:?}"),
    }
    assert!(matches!(
        pipeline.step(Event::Fetched(0, Ok(amount(100000000001, 8)))),
        Some(Action::Await)
    ));
    assert!(matches!(
        pipeline.step(Event::Fetched(1, Ok(amount(200000000002, 8)))),
        Some(Action::Await)
    ));
    assert_eq!(printed(&mut pipeline), "3000.00000003");
    assert!(pipeline.step(Event::Proceed).is_none());
    assert_eq!(pipeline.phase(), Phase::Done);
}

#[test]
fn a_failing_resolver_dispatches_nothing() {
    let mut pipeline = Pipeline::new(DEFAULT_ENDPOINT.to_string());
    assert!(matches!(pipeline.step(Event::Submit(BLOCK.to_string())), Some(Action::Proceed)));
    assert!(matches!(pipeline.step(Event::Proceed), Some(Action::Resolve(_))));
    let failure = AppError::new(ErrorKind::NetworkError, "dns error");
    let err = reported(pipeline.step(Event::Resolved(Err(failure))));
    assert_eq!(err.kind(), ErrorKind::NetworkError);
    assert_eq!(err.message(), "dns error");
    assert_eq!(pipeline.phase(), Phase::Failed);
    assert!(pipeline.step(Event::Resolved(Ok(txids(&["t1"])))).is_none());
    assert!(pipeline.step(Event::Fetched(0, Ok(amount(1, 0)))).is_none());
    assert!(pipeline.step(Event::Proceed).is_none());
}

#[test]
fn an_undecodable_answer_of_the_resolver_fails_the_run() {
    let mut pipeline = Pipeline::new(DEFAULT_ENDPOINT.to_string());
    pipeline.step(Event::Submit(BLOCK.to_string()));
    pipeline.step(Event::Proceed);
    let failure = AppError::transport(true, "expected a sequence");
    let err = reported(pipeline.step(Event::Resolved(Err(failure))));
    assert_eq!(err.kind(), ErrorKind::DecodeError);
    assert_eq!(pipeline.phase(), Phase::Failed);
}

#[test]
fn an_identifier_that_gives_no_address_fails_before_dispatch() {
    let mut pipeline = Pipeline::new(DEFAULT_ENDPOINT.to_string());
    pipeline.step(Event::Submit(BLOCK.to_string()));
    pipeline.step(Event::Proceed);
    let err = reported(pipeline.step(Event::Resolved(Ok(txids(&["t1", "http://example.com:99999999/"])))));
    assert_eq!(err.kind(), ErrorKind::EndpointError);
    assert_eq!(pipeline.phase(), Phase::Failed);
}

#[test]
fn one_failed_fetch_of_three_fails_the_run() {
    for failing in 0..3 {
        let mut pipeline = dispatched(&["t1", "t2", "t3"]);
        for index in 0..3 {
            let outcome = if index == failing {
                Err(AppError::new(ErrorKind::NetworkError, "timed out"))
            } else {
                Ok(amount(1, 4))
            };
            assert!(matches!(pipeline.step(Event::Fetched(index, outcome)), Some(Action::Await)));
        }
        let err = reported(pipeline.step(Event::Proceed));
        assert_eq!(err.kind(), ErrorKind::NetworkError);
        assert_eq!(err.message(), "timed out");
        assert_eq!(pipeline.phase(), Phase::Failed);
        assert!(pipeline.step(Event::Proceed).is_none());
    }
}

#[test]
fn one_failed_fetch_of_two_fails_the_run() {
    let mut pipeline = dispatched(&["t1", "t2"]);
    pipeline.step(Event::Fetched(1, Ok(amount(5, 0))));
    pipeline.step(Event::Fetched(0, Err(AppError::new(ErrorKind::DecodeError, "missing field `fee`"))));
    let err = reported(pipeline.step(Event::Proceed));
    assert_eq!(err.kind(), ErrorKind::DecodeError);
    assert_eq!(err.message(), "missing field `fee`");
}

#[test]
fn the_dispatch_cannot_be_closed_early() {
    let mut pipeline = dispatched(&["t1", "t2"]);
    assert!(pipeline.step(Event::Proceed).is_none());
    pipeline.step(Event::Fetched(0, Ok(amount(1, 0))));
    assert_eq!(pipeline.pending(), 1);
    assert!(pipeline.step(Event::Proceed).is_none());
    assert_eq!(pipeline.phase(), Phase::Dispatching);
    pipeline.step(Event::Fetched(1, Ok(amount(2, 0))));
    assert_eq!(printed(&mut pipeline), "3");
}

#[test]
fn a_fee_for_the_same_unit_is_not_taken_twice() {
    let mut pipeline = dispatched(&["t1", "t2"]);
    assert!(matches!(pipeline.step(Event::Fetched(0, Ok(amount(1, 0)))), Some(Action::Await)));
    assert!(pipeline.step(Event::Fetched(0, Ok(amount(100, 0)))).is_none());
    assert!(pipeline.step(Event::Fetched(2, Ok(amount(100, 0)))).is_none());
    assert!(matches!(pipeline.step(Event::Fetched(1, Ok(amount(2, 0)))), Some(Action::Await)));
    assert_eq!(printed(&mut pipeline), "3");
}

#[test]
fn events_out_of_turn_are_not_taken() {
    let mut pipeline = Pipeline::new(DEFAULT_ENDPOINT.to_string());
    assert!(pipeline.step(Event::Proceed).is_none());
    assert!(pipeline.step(Event::Resolved(Ok(Vec::new()))).is_none());
    assert!(pipeline.step(Event::Fetched(0, Ok(amount(1, 0)))).is_none());
    assert_eq!(pipeline.phase(), Phase::Idle);
    pipeline.step(Event::Submit(BLOCK.to_string()));
    assert!(pipeline.step(Event::Submit(BLOCK.to_string())).is_none());
    assert!(pipeline.step(Event::Resolved(Ok(Vec::new()))).is_none());
    assert_eq!(pipeline.phase(), Phase::Validating);
    pipeline.step(Event::Proceed);
    assert!(pipeline.step(Event::Proceed).is_none());
    assert!(pipeline.step(Event::Fetched(0, Ok(amount(1, 0)))).is_none());
    assert_eq!(pipeline.phase(), Phase::Resolving);
}

#[test]
fn a_total_that_cannot_be_exact_is_not_given_out() {
    let mut pipeline = dispatched(&["t1", "t2"]);
    let largest = amount(79228162514264337593543950335, 0);
    pipeline.step(Event::Fetched(0, Ok(largest)));
    pipeline.step(Event::Fetched(1, Ok(amount(1, 0))));
    assert!(matches!(pipeline.step(Event::Proceed), Some(Action::Proceed)));
    assert!(pipeline.step(Event::Proceed).is_none());
    assert_eq!(pipeline.phase(), Phase::Aggregating);
}

#[test]
fn running_twice_gives_the_same_total() {
    let mut totals = Vec::new();
    for _ in 0..2 {
        let mut pipeline = dispatched(&["t1", "t2", "t3"]);
        pipeline.step(Event::Fetched(0, Ok(amount(11145972, 0))));
        pipeline.step(Event::Fetched(1, Ok(amount(25, 2))));
        pipeline.step(Event::Fetched(2, Ok(amount(75, 2))));
        totals.push(printed(&mut pipeline));
    }
    assert_eq!(totals[0], totals[1]);
    assert_eq!(totals[0], "11145973.00");
}
