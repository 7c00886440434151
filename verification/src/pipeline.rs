//! The orchestrator as a state machine: it takes what happened and says what
//! to do next. The caller does the requests and reports back.

use crate::aggregate::{sum_units, total, total_of, FeeTotal};
use crate::amount::{FeeAmount, Scaled};
use crate::block::{is_block_identifier, BlockIdentifier, TransactionId, INVALID_HASH};
use crate::dispatch::{reported, settled, Dispatcher, Joined};
use crate::endpoint::{transaction_addresses, transaction_urls, txids_address, txids_url};
use crate::error::{AppError, ErrorKind};
use vstd::prelude::*;

verus! {

/// Where a run stands.
#[derive(Clone, Copy, Debug, PartialEq, Eq, Structural)]
pub enum Phase {
    /// Nothing has been submitted.
    Idle,
    /// An input is held and has not been checked.
    Validating,
    /// The transaction identifiers of the block have been asked for.
    Resolving,
    /// The fees are being fetched.
    Dispatching,
    /// Every fee is in and none has failed.
    Aggregating,
    /// The total has been given out.
    Done,
    /// The run has failed.
    Failed,
}

impl Phase {
    /// How far a phase is along a run.
    pub open spec fn rank(self) -> nat {
        match self {
            Phase::Idle => 0,
            Phase::Validating => 1,
            Phase::Resolving => 2,
            Phase::Dispatching => 3,
            Phase::Aggregating => 4,
            Phase::Done => 5,
            Phase::Failed => 5,
        }
    }

    /// The arrows of the machine. Only `Dispatching` may follow itself, once
    /// per fee that comes in; only the three phases in which something is
    /// checked or awaited can fail.
    pub open spec fn precedes(self, to: Phase) -> bool {
        match self {
            Phase::Idle => to == Phase::Validating,
            Phase::Validating => to == Phase::Resolving || to == Phase::Failed,
            Phase::Resolving => to == Phase::Dispatching || to == Phase::Failed,
            Phase::Dispatching => to == Phase::Dispatching || to == Phase::Aggregating || to
                == Phase::Failed,
            Phase::Aggregating => to == Phase::Done,
            Phase::Done => false,
            Phase::Failed => false,
        }
    }
}

/// What the caller reports to the machine.
#[derive(Debug)]
pub enum Event {
    /// The text that was given as block identifier.
    Submit(String),
    /// Nothing has happened outside: the machine may go on by itself.
    Proceed,
    /// The answer to `Action::Resolve`: the transaction identifiers of the
    /// block, in the service's order, or the failure of the request.
    Resolved(Result<Vec<TransactionId>, AppError>),
    /// One unit of work of `Action::Dispatch` has ended: its place in the
    /// list of addresses, and the fee or the failure.
    Fetched(usize, Result<FeeAmount, AppError>),
}

/// What the machine asks of the caller.
#[derive(Debug)]
pub enum Action {
    /// Report `Event::Proceed`.
    Proceed,
    /// Request this address and report `Event::Resolved`.
    Resolve(String),
    /// Request all of these addresses at once, report `Event::Fetched` for
    /// each as it ends, and `Event::Proceed` when all have ended.
    Dispatch(Vec<String>),
    /// The fee is on record; go on reporting.
    Await,
    /// Print this total: the run has succeeded.
    Emit(FeeTotal),
    /// Print this diagnostic: the run has failed.
    Report(AppError),
}

/// An event as a mathematical value.
pub enum Occurrence {
    Submit(Seq<char>),
    Proceed,
    Resolved(Result<Seq<Seq<char>>, (ErrorKind, Seq<char>)>),
    Fetched(int, Result<FeeAmount, (ErrorKind, Seq<char>)>),
}

/// An action as a mathematical value. Of a diagnostic it keeps the kind.
pub enum Command {
    Proceed,
    Resolve(Seq<char>),
    Dispatch(Seq<Seq<char>>),
    Await,
    Emit(Scaled),
    Report(ErrorKind),
}

impl View for Event {
    type V = Occurrence;

    open spec fn view(&self) -> Occurrence {
        match *self {
            Event::Submit(raw) => Occurrence::Submit(raw@),
            Event::Proceed => Occurrence::Proceed,
            Event::Resolved(Ok(txids)) => Occurrence::Resolved(Ok(txids.deep_view())),
            Event::Resolved(Err(err)) => Occurrence::Resolved(Err(err@)),
            Event::Fetched(index, outcome) => Occurrence::Fetched(index as int, reported(outcome)),
        }
    }
}

impl View for Action {
    type V = Command;

    open spec fn view(&self) -> Command {
        match *self {
            Action::Proceed => Command::Proceed,
            Action::Resolve(address) => Command::Resolve(address@),
            Action::Dispatch(addresses) => Command::Dispatch(addresses.deep_view()),
            Action::Await => Command::Await,
            Action::Emit(total) => Command::Emit(total@),
            Action::Report(err) => Command::Report(err.kind),
        }
    }
}

/// The state of a run as a mathematical value.
pub struct State {
    pub phase: Phase,
    /// The base address of the service.
    pub endpoint: Seq<char>,
    /// The text that was submitted.
    pub input: Seq<char>,
    /// The outcomes of the units of work.
    pub joined: Joined,
}

impl State {
    /// The state before anything has been submitted.
    pub open spec fn initial(endpoint: Seq<char>) -> State {
        State { phase: Phase::Idle, endpoint, input: Seq::empty(), joined: Joined::fresh(0) }
    }

    /// This state, moved to `phase`.
    pub open spec fn at(self, phase: Phase) -> State {
        State { phase, ..self }
    }

    /// What holds of every state that a run can reach: a first failure is on
    /// record exactly if a unit has failed; nothing is dispatched before the
    /// resolver has answered; and the fees are only added up once every unit
    /// has reported and none has failed.
    pub open spec fn sound(self) -> bool {
        &&& self.joined.consistent()
        &&& self.phase == Phase::Idle || self.phase == Phase::Validating || self.phase
            == Phase::Resolving ==> self.joined == Joined::fresh(0)
        &&& self.phase == Phase::Aggregating || self.phase == Phase::Done
            ==> self.joined.complete() && !self.joined.failed()
    }

    /// The fees on record, as decimals.
    pub open spec fn fees(self) -> Seq<Scaled> {
        self.joined.amounts().map_values(|fee: FeeAmount| fee@)
    }

    /// The machine. `None` stands for an event that is not taken: it leaves
    /// the state as it is.
    ///
    /// A submitted text is first held, then checked: a text that is no block
    /// identifier fails the run before any address is composed. The answer of
    /// the resolver either fails the run or starts one unit of work per
    /// transaction. Fees are recorded as they come in. Once all are in, the
    /// first failure fails the run; without one the fees are added up, and
    /// the run is done when the total is given out. A total that cannot be
    /// given exactly is not given: the machine stays where it is.
    pub open spec fn next(self, event: Occurrence) -> Option<(State, Command)> {
        match (self.phase, event) {
            (Phase::Idle, Occurrence::Submit(raw)) => Some(
                (State { phase: Phase::Validating, input: raw, ..self }, Command::Proceed),
            ),
            (Phase::Validating, Occurrence::Proceed) => if !is_block_identifier(self.input) {
                Some((self.at(Phase::Failed), Command::Report(ErrorKind::InvalidInput)))
            } else {
                match txids_address(self.endpoint, self.input) {
                    Some(address) => Some((self.at(Phase::Resolving), Command::Resolve(address))),
                    None => Some(
                        (self.at(Phase::Failed), Command::Report(ErrorKind::EndpointError)),
                    ),
                }
            },
            (Phase::Resolving, Occurrence::Resolved(Err(failure))) => Some(
                (self.at(Phase::Failed), Command::Report(failure.0)),
            ),
            (Phase::Resolving, Occurrence::Resolved(Ok(txids))) => match transaction_addresses(
                self.endpoint,
                txids,
            ) {
                Some(addresses) => Some(
                    (
                        State {
                            phase: Phase::Dispatching,
                            joined: Joined::fresh(txids.len()),
                            ..self
                        },
                        Command::Dispatch(addresses),
                    ),
                ),
                None => Some((self.at(Phase::Failed), Command::Report(ErrorKind::EndpointError))),
            },
            (Phase::Dispatching, Occurrence::Fetched(index, outcome)) => if self.joined.awaits(
                index,
            ) {
                Some((State { joined: self.joined.record(index, outcome), ..self }, Command::Await))
            } else {
                None
            },
            (Phase::Dispatching, Occurrence::Proceed) => match self.joined.outcome() {
                None => None,
                Some(Err(failure)) => Some((self.at(Phase::Failed), Command::Report(failure.0))),
                Some(Ok(_)) => Some((self.at(Phase::Aggregating), Command::Proceed)),
            },
            (Phase::Aggregating, Occurrence::Proceed) => match total_of(self.fees()) {
                Some(sum) => Some((self.at(Phase::Done), Command::Emit(sum))),
                None => None,
            },
            _ => None,
        }
    }
}

/// One run of the pipeline.
pub struct Pipeline {
    phase: Phase,
    endpoint: String,
    input: String,
    dispatcher: Dispatcher,
}

impl View for Pipeline {
    type V = State;

    closed spec fn view(&self) -> State {
        State {
            phase: self.phase,
            endpoint: self.endpoint@,
            input: self.input@,
            joined: self.dispatcher@,
        }
    }
}

impl Pipeline {
    /// The invariant of a run: the bookkeeping of the dispatch is right, and
    /// the state is one that a run can reach.
    pub closed spec fn wf(&self) -> bool {
        &&& self.dispatcher.wf()
        &&& self@.sound()
    }

    /// A well-formed run is in a sound state.
    pub proof fn lemma_sound(&self)
        requires
            self.wf(),
        ensures
            self@.sound(),
    {
    }

    /// A run against the service at `endpoint`, not yet started.
    pub fn new(endpoint: String) -> (p: Pipeline)
        ensures
            p.wf(),
            p@ == State::initial(endpoint@),
    {
        Pipeline { phase: Phase::Idle, endpoint, input: String::new(), dispatcher: Dispatcher::new(0) }
    }

    /// Where the run stands.
    pub fn phase(&self) -> (phase: Phase)
        ensures
            phase == self@.phase,
    {
        self.phase
    }

    /// The number of units of work that have not reported yet.
    pub fn pending(&self) -> (n: usize)
        requires
            self.wf(),
        ensures
            n == self@.joined.slots.len() - settled(self@.joined.slots),
            n == 0 <==> self@.joined.complete(),
    {
        self.dispatcher.pending()
    }

    /// Takes one event and says what to do next, as `State::next` has it. An
    /// event that is not taken changes nothing and is answered with `None`.
    /// A diagnostic for a failure that was reported from outside is that
    /// failure; the one for an invalid input is `INVALID_HASH`. A total that
    /// is given out is the exact sum of the fees on record.
    pub fn step(&mut self, event: Event) -> (r: Option<Action>)
        requires
            old(self).wf(),
        ensures
            final(self).wf(),
            match old(self)@.next(event@) {
                Some((state, command)) => r is Some && r->Some_0@ == command && final(self)@
                    == state,
                None => r is None && final(self)@ == old(self)@,
            },
            r is Some && event@ is Resolved && event@->Resolved_0 is Err ==> r->Some_0 is Report
                && r->Some_0->Report_0@ == event@->Resolved_0->Err_0,
            r is Some && old(self)@.phase == Phase::Dispatching && r->Some_0 is Report ==> Some(
                r->Some_0->Report_0@,
            ) == old(self)@.joined.first_failure,
            r is Some && r->Some_0@ == Command::Report(ErrorKind::InvalidInput) && old(self)@.phase
                == Phase::Validating ==> r->Some_0->Report_0.detail@ == INVALID_HASH@,
            r is Some && r->Some_0 is Emit ==> r->Some_0->Emit_0@.units() == sum_units(
                old(self)@.fees(),
            ),
    {
        match self.phase {
            Phase::Idle => match event {
                Event::Submit(raw) => {
                    self.input = raw;
                    self.phase = Phase::Validating;
                    Some(Action::Proceed)
                },
                _ => None,
            },
            Phase::Validating => match event {
                Event::Proceed => Some(self.validate()),
                _ => None,
            },
            Phase::Resolving => match event {
                Event::Resolved(answer) => Some(self.plan(answer)),
                _ => None,
            },
            Phase::Dispatching => match event {
                Event::Fetched(index, outcome) => {
                    if self.dispatcher.record(index, outcome) {
                        Some(Action::Await)
                    } else {
                        None
                    }
                },
                Event::Proceed => self.join(),
                _ => None,
            },
            Phase::Aggregating => match event {
                Event::Proceed => self.conclude(),
                _ => None,
            },
            Phase::Done => None,
            Phase::Failed => None,
        }
    }

    /// Checks the input and composes the address of the first request.
    fn validate(&mut self) -> (action: Action)
        requires
            old(self).wf(),
            old(self)@.phase == Phase::Validating,
        ensures
            final(self).wf(),
            old(self)@.next(Occurrence::Proceed) == Some((final(self)@, action@)),
            action@ == Command::Report(ErrorKind::InvalidInput) ==> action->Report_0.detail@
                == INVALID_HASH@,
    {
        let address = match BlockIdentifier::parse(self.input.as_str()) {
            Ok(block) => txids_url(self.endpoint.as_str(), &block),
            Err(err) => Err(err),
        };
        match address {
            Ok(address) => {
                self.phase = Phase::Resolving;
                Action::Resolve(address)
            },
            Err(err) => {
                self.phase = Phase::Failed;
                Action::Report(err)
            },
        }
    }

    /// Takes the resolver's answer: a failure ends the run, a list of
    /// transaction identifiers becomes one address each.
    fn plan(&mut self, answer: Result<Vec<TransactionId>, AppError>) -> (action: Action)
        requires
            old(self).wf(),
            old(self)@.phase == Phase::Resolving,
        ensures
            final(self).wf(),
            old(self)@.next((Event::Resolved(answer))@) == Some((final(self)@, action@)),
            answer is Err ==> action is Report && action->Report_0@ == answer->Err_0@,
    {
        let addresses = match answer {
            Ok(txids) => {
                let units = txids.len();
                match transaction_urls(self.endpoint.as_str(), &txids) {
                    Ok(addresses) => Ok((units, addresses)),
                    Err(err) => Err(err),
                }
            },
            Err(err) => Err(err),
        };
        match addresses {
            Ok((units, addresses)) => {
                self.dispatcher = Dispatcher::new(units);
                self.phase = Phase::Dispatching;
                Action::Dispatch(addresses)
            },
            Err(err) => {
                self.phase = Phase::Failed;
                Action::Report(err)
            },
        }
    }

    /// Closes the dispatch once every unit has reported.
    fn join(&mut self) -> (r: Option<Action>)
        requires
            old(self).wf(),
            old(self)@.phase == Phase::Dispatching,
        ensures
            final(self).wf(),
            match old(self)@.next(Occurrence::Proceed) {
                Some((state, command)) => r is Some && r->Some_0@ == command && final(self)@
                    == state,
                None => r is None && final(self)@ == old(self)@,
            },
            r is Some && r->Some_0 is Report ==> Some(r->Some_0->Report_0@)
                == old(self)@.joined.first_failure,
    {
        match self.dispatcher.outcome() {
            None => None,
            Some(Err(err)) => {
                self.phase = Phase::Failed;
                Some(Action::Report(err))
            },
            Some(Ok(_)) => {
                self.phase = Phase::Aggregating;
                Some(Action::Proceed)
            },
        }
    }

    /// Adds up the fees and gives out the total.
    fn conclude(&mut self) -> (r: Option<Action>)
        requires
            old(self).wf(),
            old(self)@.phase == Phase::Aggregating,
        ensures
            final(self).wf(),
            match old(self)@.next(Occurrence::Proceed) {
                Some((state, command)) => r is Some && r->Some_0@ == command && final(self)@
                    == state,
                None => r is None && final(self)@ == old(self)@,
            },
            r is Some ==> r->Some_0 is Emit && r->Some_0->Emit_0@.units() == sum_units(
                old(self)@.fees(),
            ),
    {
        match self.dispatcher.outcome() {
            Some(Ok(fees)) => {
                assert(fees.deep_view() =~= self@.fees());
                match total(&fees) {
                    Some(sum) => {
                        self.phase = Phase::Done;
                        Some(Action::Emit(sum))
                    },
                    None => None,
                }
            },
            _ => None,
        }
    }
}

} // verus!
