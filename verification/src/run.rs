//! Whole runs of the machine, and what holds of every run.

use crate::aggregate::{lemma_total_is_exact, sum_units, total_of};
use crate::amount::Scaled;
use crate::block::is_block_identifier;
use crate::dispatch::{
    has_reported, lemma_any_order_same_slots, lemma_replay, one_each, replay, slot_of, Arrival, Joined,
};
use crate::endpoint::transaction_addresses;
use crate::error::ErrorKind;
use crate::pipeline::{Command, Occurrence, Phase, State};
use vstd::prelude::*;
use vstd::seq_lib::group_to_multiset_ensures;

verus! {

/// The state that `events` lead to from `start`, and the commands given on
/// the way. An event that is not taken leaves no trace.
pub open spec fn run(start: State, events: Seq<Occurrence>) -> (State, Seq<Command>)
    decreases events.len(),
{
    if events.len() == 0 {
        (start, Seq::empty())
    } else {
        let (state, commands) = run(start, events.drop_last());
        match state.next(events.last()) {
            Some((after, command)) => (after, commands.push(command)),
            None => (state, commands),
        }
    }
}

/// The reports of units of work, as events.
pub open spec fn fetched(arrivals: Seq<Arrival>) -> Seq<Occurrence> {
    arrivals.map_values(|a: Arrival| Occurrence::Fetched(a.index, a.outcome))
}

/// A command that has a request sent.
pub open spec fn sends(command: Command) -> bool {
    command is Resolve || command is Dispatch
}

/// The machine is single-pass: a step that is taken follows an arrow of the
/// machine, never leads back to an earlier phase, and stays in its phase
/// only while fees come in. The service's address never changes.
pub proof fn lemma_single_pass(state: State, event: Occurrence)
    requires
        state.next(event) is Some,
    ensures
        state.phase.precedes(state.next(event)->Some_0.0.phase),
        state.phase.rank() <= state.next(event)->Some_0.0.phase.rank(),
        state.phase.rank() == state.next(event)->Some_0.0.phase.rank() ==> state.phase
            == Phase::Dispatching && event is Fetched,
        state.next(event)->Some_0.0.endpoint == state.endpoint,
{
}

/// The total that a run gives out is a fee amount whose value is the sum of
/// the values of the fees on record, to the last digit.
pub proof fn lemma_emitted_total_is_exact(state: State, event: Occurrence)
    requires
        state.next(event) is Some,
        state.next(event)->Some_0.1 is Emit,
    ensures
        state.phase == Phase::Aggregating,
        state.next(event)->Some_0.0.phase == Phase::Done,
        state.next(event)->Some_0.1->Emit_0.valid(),
        state.next(event)->Some_0.1->Emit_0.units() == sum_units(state.fees()),
{
    lemma_total_is_exact(state.fees());
}

/// A step that is taken from a sound state leads to a sound state.
pub proof fn lemma_step_is_sound(state: State, event: Occurrence)
    requires
        state.sound(),
        state.next(event) is Some,
    ensures
        state.next(event)->Some_0.0.sound(),
{
    let after = state.next(event)->Some_0.0;
    if state.phase == Phase::Resolving {
        if after.phase == Phase::Dispatching {
            assert(!after.joined.failed());
        }
    } else if state.phase == Phase::Dispatching {
        match event {
            Occurrence::Fetched(index, outcome) => {
                if after.joined.failed() {
                    let k = choose|k: int|
                        0 <= k < after.joined.slots.len() && #[trigger] after.joined.slots[k] is Failed;
                    if k != index {
                        assert(state.joined.slots[k] is Failed);
                    }
                }
                if state.joined.failed() {
                    let k = choose|k: int|
                        0 <= k < state.joined.slots.len() && #[trigger] state.joined.slots[k] is Failed;
                    assert(after.joined.slots[k] is Failed);
                }
                if outcome is Err {
                    assert(after.joined.slots[index] is Failed);
                }
            },
            _ => {},
        }
    }
}

/// Every state that a run reaches is sound. So no unit of work is lost and
/// none counts twice: a total is only ever made of one fee per transaction.
pub proof fn lemma_every_run_is_sound(endpoint: Seq<char>, events: Seq<Occurrence>)
    ensures
        run(State::initial(endpoint), events).0.sound(),
    decreases events.len(),
{
    if events.len() == 0 {
        assert(!Joined::fresh(0).failed());
    } else {
        lemma_every_run_is_sound(endpoint, events.drop_last());
        let state = run(State::initial(endpoint), events.drop_last()).0;
        if state.next(events.last()) is Some {
            lemma_step_is_sound(state, events.last());
        }
    }
}

/// A run in two parts is the run of the first part, followed by the run of
/// the second from where the first ended.
pub proof fn lemma_run_append(start: State, first: Seq<Occurrence>, second: Seq<Occurrence>)
    ensures
        run(start, first + second) == (
            run(run(start, first).0, second).0,
            run(start, first).1 + run(run(start, first).0, second).1,
        ),
    decreases second.len(),
{
    let (mid, head) = run(start, first);
    if second.len() == 0 {
        assert(first + second =~= first);
        assert(head + Seq::<Command>::empty() =~= head);
    } else {
        lemma_run_append(start, first, second.drop_last());
        assert((first + second).drop_last() =~= first + second.drop_last());
        assert((first + second).last() == second.last());
        let (state, tail) = run(mid, second.drop_last());
        match state.next(second.last()) {
            Some((after, command)) => {
                assert((head + tail).push(command) =~= head + tail.push(command));
            },
            None => {},
        }
    }
}

/// A run of one event is one step.
pub proof fn lemma_run_one(start: State, event: Occurrence)
    ensures
        run(start, seq![event]) == (match start.next(event) {
            Some((after, command)) => (after, seq![command]),
            None => (start, Seq::<Command>::empty()),
        }),
{
    let events = seq![event];
    assert(events.drop_last() =~= Seq::<Occurrence>::empty());
    assert(events.last() == event);
    assert(run(start, events.drop_last()) == (start, Seq::<Command>::empty()));
    match start.next(event) {
        Some((after, command)) => {
            assert(Seq::<Command>::empty().push(command) =~= seq![command]);
        },
        None => {},
    }
}

/// A run that is done or has failed is over: it takes no event and gives no
/// command, whatever is reported to it.
pub proof fn lemma_ended_run_is_over(state: State, events: Seq<Occurrence>)
    requires
        state.phase == Phase::Done || state.phase == Phase::Failed,
    ensures
        run(state, events) == (state, Seq::<Command>::empty()),
    decreases events.len(),
{
    if events.len() > 0 {
        lemma_ended_run_is_over(state, events.drop_last());
    }
}

proof fn lemma_invalid_input_stays_quiet(state: State, events: Seq<Occurrence>)
    requires
        state.phase == Phase::Failed || (state.phase == Phase::Validating && !is_block_identifier(
            state.input,
        )),
    ensures
        run(state, events).0.phase == Phase::Failed || run(state, events).0 == state,
        forall|i: int|
            0 <= i < run(state, events).1.len() ==> #[trigger] run(state, events).1[i]
                == Command::Report(ErrorKind::InvalidInput),
    decreases events.len(),
{
    if events.len() > 0 {
        lemma_invalid_input_stays_quiet(state, events.drop_last());
    }
}

/// A text that is no block identifier never has a request sent and never has
/// a total given out: whatever is reported after it was submitted, the run
/// only asks to go on and then fails with `InvalidInput`.
pub proof fn lemma_invalid_input_sends_nothing(
    endpoint: Seq<char>,
    raw: Seq<char>,
    events: Seq<Occurrence>,
)
    requires
        !is_block_identifier(raw),
    ensures
        forall|i: int|
            0 <= i < run(State::initial(endpoint), seq![Occurrence::Submit(raw)] + events).1.len()
                ==> {
                let command = #[trigger] run(
                    State::initial(endpoint),
                    seq![Occurrence::Submit(raw)] + events,
                ).1[i];
                &&& !sends(command)
                &&& !(command is Emit)
                &&& command is Report ==> command == Command::Report(ErrorKind::InvalidInput)
            },
        run(State::initial(endpoint), seq![Occurrence::Submit(raw), Occurrence::Proceed]).0.phase
            == Phase::Failed,
{
    let start = State::initial(endpoint);
    let submit = seq![Occurrence::Submit(raw)];
    lemma_run_one(start, Occurrence::Submit(raw));
    lemma_run_append(start, submit, events);
    lemma_invalid_input_stays_quiet(run(start, submit).0, events);
    let whole = run(start, submit + events).1;
    let tail = run(run(start, submit).0, events).1;
    assert forall|i: int| 0 <= i < whole.len() implies {
        let command = #[trigger] whole[i];
        &&& !sends(command)
        &&& !(command is Emit)
        &&& command is Report ==> command == Command::Report(ErrorKind::InvalidInput)
    } by {
        if i >= 1 {
            assert(whole[i] == tail[i - 1]);
        }
    }
    assert(seq![Occurrence::Submit(raw), Occurrence::Proceed] =~= submit + seq![
        Occurrence::Proceed,
    ]);
    lemma_run_append(start, submit, seq![Occurrence::Proceed]);
    lemma_run_one(run(start, submit).0, Occurrence::Proceed);
}

/// A failure of the resolver ends the run at once: the failure is reported,
/// nothing is dispatched, and whatever follows is not taken.
pub proof fn lemma_resolver_failure_ends_run(
    state: State,
    failure: (ErrorKind, Seq<char>),
    events: Seq<Occurrence>,
)
    requires
        state.phase == Phase::Resolving,
    ensures
        run(state, seq![Occurrence::Resolved(Err(failure))] + events) == (
            state.at(Phase::Failed),
            seq![Command::Report(failure.0)],
        ),
{
    let first = seq![Occurrence::Resolved(Err(failure))];
    lemma_run_one(state, Occurrence::Resolved(Err(failure)));
    lemma_run_append(state, first, events);
    lemma_ended_run_is_over(state.at(Phase::Failed), events);
    assert(seq![Command::Report(failure.0)] + Seq::<Command>::empty() =~= seq![
        Command::Report(failure.0),
    ]);
}

/// A block without transactions has the total zero: nothing is dispatched
/// but the empty list, and the run is done with a total of `0`.
pub proof fn lemma_empty_block_totals_zero(state: State)
    requires
        state.phase == Phase::Resolving,
    ensures
        run(
            state,
            seq![
                Occurrence::Resolved(Ok(Seq::<Seq<char>>::empty())),
                Occurrence::Proceed,
                Occurrence::Proceed,
            ],
        ) == (
            State { phase: Phase::Done, joined: Joined::fresh(0), ..state },
            seq![
                Command::Dispatch(Seq::<Seq<char>>::empty()),
                Command::Proceed,
                Command::Emit(Scaled { mantissa: 0, scale: 0 }),
            ],
        ),
{
    let none = Seq::<Seq<char>>::empty();
    let resolved = Occurrence::Resolved(Ok(none));
    let events = seq![resolved, Occurrence::Proceed, Occurrence::Proceed];
    assert(transaction_addresses(state.endpoint, none) is Some);
    assert(transaction_addresses(state.endpoint, none)->Some_0 =~= none);
    let dispatching = State { phase: Phase::Dispatching, joined: Joined::fresh(0), ..state };
    assert(state.next(resolved) == Some((dispatching, Command::Dispatch(none))));
    assert(dispatching.joined.complete());
    assert(dispatching.joined.amounts() =~= Seq::empty());
    assert(dispatching.next(Occurrence::Proceed) == Some(
        (dispatching.at(Phase::Aggregating), Command::Proceed),
    ));
    let aggregating = dispatching.at(Phase::Aggregating);
    assert(aggregating.fees() =~= Seq::empty());
    assert(total_of(aggregating.fees()) == Some(Scaled { mantissa: 0, scale: 0 }));
    lemma_run_one(state, resolved);
    lemma_run_one(dispatching, Occurrence::Proceed);
    lemma_run_one(aggregating, Occurrence::Proceed);
    assert(events =~= seq![resolved] + seq![Occurrence::Proceed, Occurrence::Proceed]);
    assert(seq![Occurrence::Proceed, Occurrence::Proceed] =~= seq![Occurrence::Proceed] + seq![
        Occurrence::Proceed,
    ]);
    lemma_run_append(dispatching, seq![Occurrence::Proceed], seq![Occurrence::Proceed]);
    lemma_run_append(state, seq![resolved], seq![Occurrence::Proceed, Occurrence::Proceed]);
    assert(run(state, events).1 =~= seq![
        Command::Dispatch(none),
        Command::Proceed,
        Command::Emit(Scaled { mantissa: 0, scale: 0 }),
    ]);
}

/// While fees come in, each unit once, the machine records them as the
/// dispatcher's state has it and answers each with `Await`.
pub proof fn lemma_run_fetched(state: State, units: nat, arrivals: Seq<Arrival>)
    requires
        state.phase == Phase::Dispatching,
        state.joined == Joined::fresh(units),
        one_each(arrivals, units),
    ensures
        run(state, fetched(arrivals)) == (
            State { joined: replay(state.joined, arrivals), ..state },
            Seq::new(arrivals.len(), |i: int| Command::Await),
        ),
    decreases arrivals.len(),
{
    let events = fetched(arrivals);
    if arrivals.len() == 0 {
        assert(run(state, events).1 =~= Seq::new(arrivals.len(), |i: int| Command::Await));
    } else {
        let front = arrivals.drop_last();
        let last = arrivals.last();
        assert(forall|i: int| 0 <= i < front.len() ==> front[i] == arrivals[i]);
        lemma_run_fetched(state, units, front);
        lemma_replay(units, front);
        assert(events.drop_last() =~= fetched(front));
        assert(events.last() == Occurrence::Fetched(last.index, last.outcome));
        let mid = State { joined: replay(state.joined, front), ..state };
        assert(!has_reported(front, last.index)) by {
            if has_reported(front, last.index) {
                let i = choose|i: int|
                    0 <= i < front.len() && (#[trigger] front[i]).index == last.index;
                assert(arrivals[i].index == arrivals[arrivals.len() - 1].index);
            }
        }
        assert(0 <= arrivals[arrivals.len() - 1].index < units);
        assert(mid.joined.awaits(last.index));
        assert(Seq::new(front.len(), |i: int| Command::Await).push(Command::Await) =~= Seq::new(
            arrivals.len(),
            |i: int| Command::Await,
        ));
    }
}

/// A dispatch in which every unit has reported and one has failed is closed
/// with the first failure: the run fails, and whatever follows is not taken.
pub proof fn lemma_failed_dispatch_ends_run(state: State, events: Seq<Occurrence>)
    requires
        state.phase == Phase::Dispatching,
        state.joined.consistent(),
        state.joined.complete(),
        state.joined.failed(),
    ensures
        run(state, seq![Occurrence::Proceed] + events) == (
            state.at(Phase::Failed),
            seq![Command::Report(state.joined.first_failure->Some_0.0)],
        ),
{
    let report = Command::Report(state.joined.first_failure->Some_0.0);
    assert(state.next(Occurrence::Proceed) == Some((state.at(Phase::Failed), report)));
    lemma_run_one(state, Occurrence::Proceed);
    lemma_ended_run_is_over(state.at(Phase::Failed), events);
    lemma_run_append(state, seq![Occurrence::Proceed], events);
    assert(seq![report] + Seq::<Command>::empty() =~= seq![report]);
}

/// If one of the fetches fails, the run fails, however many of the others
/// succeeded: once every unit has reported, the run gives out the first
/// failure and never a total.
pub proof fn lemma_failed_fetch_fails_run(
    state: State,
    units: nat,
    arrivals: Seq<Arrival>,
    events: Seq<Occurrence>,
)
    requires
        state.phase == Phase::Dispatching,
        state.joined == Joined::fresh(units),
        one_each(arrivals, units),
        forall|k: int| 0 <= k < units ==> has_reported(arrivals, k),
        exists|i: int| 0 <= i < arrivals.len() && (#[trigger] arrivals[i]).outcome is Err,
    ensures
        replay(state.joined, arrivals).first_failure is Some,
        run(state, fetched(arrivals) + (seq![Occurrence::Proceed] + events)) == (
            State { phase: Phase::Failed, joined: replay(state.joined, arrivals), ..state },
            Seq::new(arrivals.len(), |i: int| Command::Await).push(
                Command::Report(replay(state.joined, arrivals).first_failure->Some_0.0),
            ),
        ),
{
    let joined = replay(state.joined, arrivals);
    let mid = State { joined, ..state };
    lemma_replay(units, arrivals);
    assert(joined.complete()) by {
        assert forall|k: int| 0 <= k < joined.slots.len() implies !(
        #[trigger] joined.slots[k] is Pending) by {
            assert(has_reported(arrivals, k));
            let i = choose|i: int| 0 <= i < arrivals.len() && (#[trigger] arrivals[i]).index == k;
            assert(joined.slots[arrivals[i].index] == slot_of(arrivals[i].outcome));
        }
    }
    assert(joined.failed()) by {
        let i = choose|i: int| 0 <= i < arrivals.len() && (#[trigger] arrivals[i]).outcome is Err;
        assert(joined.slots[arrivals[i].index] == slot_of(arrivals[i].outcome));
        assert(joined.slots[arrivals[i].index] is Failed);
    }
    lemma_run_fetched(state, units, arrivals);
    lemma_failed_dispatch_ends_run(mid, events);
    lemma_run_append(state, fetched(arrivals), seq![Occurrence::Proceed] + events);
    let waits = Seq::new(arrivals.len(), |i: int| Command::Await);
    let report = Command::Report(joined.first_failure->Some_0.0);
    assert(waits + seq![report] =~= waits.push(report));
}

/// The order in which the fetches end is immaterial, and so is running the
/// pipeline again: two runs in which the same units report the same fees,
/// each unit once and in any two orders, go the same way from there on, to
/// the same state and with the same commands, so to the same total.
pub proof fn lemma_runs_agree(
    state: State,
    units: nat,
    a: Seq<Arrival>,
    b: Seq<Arrival>,
    events: Seq<Occurrence>,
)
    requires
        state.phase == Phase::Dispatching,
        state.joined == Joined::fresh(units),
        one_each(a, units),
        one_each(b, units),
        a.to_multiset() == b.to_multiset(),
        forall|i: int| 0 <= i < a.len() ==> (#[trigger] a[i]).outcome is Ok,
    ensures
        run(state, fetched(a) + events) == run(state, fetched(b) + events),
{
    broadcast use group_to_multiset_ensures;

    a.to_multiset_ensures();
    b.to_multiset_ensures();
    assert forall|i: int| 0 <= i < a.len() implies b.contains(#[trigger] a[i]) by {
        assert(a.contains(a[i]));
        assert(a.to_multiset().count(a[i]) > 0);
    }
    assert forall|j: int| 0 <= j < b.len() implies a.contains(#[trigger] b[j]) && b[j].outcome is Ok by {
        assert(b.contains(b[j]));
        assert(b.to_multiset().count(b[j]) > 0);
        assert(a.contains(b[j]));
        let i = choose|i: int| 0 <= i < a.len() && a[i] == b[j];
        assert(a[i].outcome is Ok);
    }
    lemma_any_order_same_slots(units, a, b);
    lemma_replay(units, a);
    lemma_replay(units, b);
    lemma_run_fetched(state, units, a);
    lemma_run_fetched(state, units, b);
    assert(a.len() == b.len());
    assert(Seq::new(a.len(), |i: int| Command::Await) =~= Seq::new(
        b.len(),
        |i: int| Command::Await,
    ));
    lemma_run_append(state, fetched(a), events);
    lemma_run_append(state, fetched(b), events);
}

/// Two runs on the same data give the same total: if the same text is
/// submitted, the resolver names the same transactions and every fetch
/// brings the same fee, then the two runs go the same way to the end,
/// whatever the order in which the fetches ended.
pub proof fn lemma_same_data_same_total(
    endpoint: Seq<char>,
    raw: Seq<char>,
    txids: Seq<Seq<char>>,
    a: Seq<Arrival>,
    b: Seq<Arrival>,
    events: Seq<Occurrence>,
)
    requires
        one_each(a, txids.len()),
        one_each(b, txids.len()),
        a.to_multiset() == b.to_multiset(),
        forall|i: int| 0 <= i < a.len() ==> (#[trigger] a[i]).outcome is Ok,
    ensures
        run(
            State::initial(endpoint),
            seq![Occurrence::Submit(raw), Occurrence::Proceed, Occurrence::Resolved(Ok(txids))] + (
            fetched(a) + events),
        ) == run(
            State::initial(endpoint),
            seq![Occurrence::Submit(raw), Occurrence::Proceed, Occurrence::Resolved(Ok(txids))] + (
            fetched(b) + events),
        ),
{
    let start = State::initial(endpoint);
    let opening = seq![
        Occurrence::Submit(raw),
        Occurrence::Proceed,
        Occurrence::Resolved(Ok(txids)),
    ];
    let held = run(start, seq![Occurrence::Submit(raw)]).0;
    let checked = run(held, seq![Occurrence::Proceed]).0;
    let planned = run(checked, seq![Occurrence::Resolved(Ok(txids))]).0;
    lemma_run_one(start, Occurrence::Submit(raw));
    lemma_run_one(held, Occurrence::Proceed);
    lemma_run_one(checked, Occurrence::Resolved(Ok(txids)));
    assert(opening =~= seq![Occurrence::Submit(raw)] + (seq![Occurrence::Proceed] + seq![
        Occurrence::Resolved(Ok(txids)),
    ]));
    lemma_run_append(held, seq![Occurrence::Proceed], seq![Occurrence::Resolved(Ok(txids))]);
    lemma_run_append(
        start,
        seq![Occurrence::Submit(raw)],
        seq![Occurrence::Proceed] + seq![Occurrence::Resolved(Ok(txids))],
    );
    assert(run(start, opening).0 == planned);
    lemma_run_append(start, opening, fetched(a) + events);
    lemma_run_append(start, opening, fetched(b) + events);
    if planned.phase == Phase::Dispatching {
        assert(checked.phase == Phase::Resolving);
        assert(planned.joined == Joined::fresh(txids.len()));
        lemma_runs_agree(planned, txids.len(), a, b, events);
    } else {
        assert(planned.phase == Phase::Failed);
        lemma_ended_run_is_over(planned, fetched(a) + events);
        lemma_ended_run_is_over(planned, fetched(b) + events);
    }
}

} // verus!
