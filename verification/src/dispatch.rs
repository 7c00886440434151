//! The dispatcher's bookkeeping: one outcome per unit of work, joined into
//! the fees of all units or the first failure that was seen.

use crate::amount::FeeAmount;
use crate::error::{AppError, ErrorKind};
use vstd::prelude::*;

verus! {

/// What is known of one unit of work.
#[derive(Clone, Copy, Debug, PartialEq, Eq)]
pub enum Slot {
    /// The unit has not reported yet.
    Pending,
    /// The unit has fetched this fee.
    Paid(FeeAmount),
    /// The unit has failed.
    Failed,
}

/// The slot that an outcome fills.
pub open spec fn slot_of(outcome: Result<FeeAmount, (ErrorKind, Seq<char>)>) -> Slot {
    match outcome {
        Ok(fee) => Slot::Paid(fee),
        Err(_) => Slot::Failed,
    }
}

/// An outcome as the dispatcher's state keeps it: a failure by kind and text.
pub open spec fn reported(outcome: Result<FeeAmount, AppError>) -> Result<
    FeeAmount,
    (ErrorKind, Seq<char>),
> {
    match outcome {
        Ok(fee) => Ok(fee),
        Err(err) => Err(err@),
    }
}

/// The state of a dispatch: a slot per unit of work, in the order of the
/// transaction identifiers, and the failure that was reported first.
pub struct Joined {
    pub slots: Seq<Slot>,
    pub first_failure: Option<(ErrorKind, Seq<char>)>,
}

impl Joined {
    /// The state in which none of `units` units has reported.
    pub open spec fn fresh(units: nat) -> Joined {
        Joined { slots: Seq::new(units, |i: int| Slot::Pending), first_failure: None }
    }

    /// Whether an outcome for the unit `index` is still missing.
    pub open spec fn awaits(self, index: int) -> bool {
        0 <= index < self.slots.len() && self.slots[index] is Pending
    }

    /// The state after the unit `index` has reported `outcome`. An outcome
    /// for a unit that does not exist or has already reported changes nothing.
    pub open spec fn record(self, index: int, outcome: Result<FeeAmount, (ErrorKind, Seq<char>)>) -> Joined {
        if self.awaits(index) {
            Joined {
                slots: self.slots.update(index, slot_of(outcome)),
                first_failure: if self.first_failure is None && outcome is Err {
                    Some(outcome->Err_0)
                } else {
                    self.first_failure
                },
            }
        } else {
            self
        }
    }

    /// Whether every unit has reported.
    pub open spec fn complete(self) -> bool {
        forall|i: int| 0 <= i < self.slots.len() ==> !(#[trigger] self.slots[i] is Pending)
    }

    /// Whether some unit has failed.
    pub open spec fn failed(self) -> bool {
        exists|i: int| 0 <= i < self.slots.len() && #[trigger] self.slots[i] is Failed
    }

    /// The fees of the units, in the order of the units.
    pub open spec fn amounts(self) -> Seq<FeeAmount> {
        Seq::new(self.slots.len(), |i: int| self.slots[i]->Paid_0)
    }

    /// What the dispatch has come to: nothing while a unit is missing, then
    /// the first failure if there is one, else the fee of every unit.
    pub open spec fn outcome(self) -> Option<Result<Seq<FeeAmount>, (ErrorKind, Seq<char>)>> {
        if !self.complete() {
            None
        } else if self.first_failure is Some {
            Some(Err(self.first_failure->Some_0))
        } else {
            Some(Ok(self.amounts()))
        }
    }

    /// A first failure is on record exactly if some unit has failed.
    pub open spec fn consistent(self) -> bool {
        self.first_failure is Some <==> self.failed()
    }
}

/// The number of units that have reported.
pub open spec fn settled(slots: Seq<Slot>) -> nat
    decreases slots.len(),
{
    if slots.len() == 0 {
        0
    } else {
        settled(slots.drop_last()) + if slots.last() is Pending {
            0nat
        } else {
            1nat
        }
    }
}

/// The count of reports against the slots: all have reported exactly if the
/// count is the number of slots, and none exactly if it is zero.
proof fn lemma_settled_all(slots: Seq<Slot>)
    ensures
        settled(slots) <= slots.len(),
        settled(slots) == slots.len() <==> forall|i: int|
            0 <= i < slots.len() ==> !(#[trigger] slots[i] is Pending),
        settled(slots) == 0 <==> forall|i: int|
            0 <= i < slots.len() ==> #[trigger] slots[i] is Pending,
    decreases slots.len(),
{
    if slots.len() > 0 {
        let front = slots.drop_last();
        lemma_settled_all(front);
        assert(forall|i: int| 0 <= i < front.len() ==> front[i] == slots[i]);
        if settled(slots) == slots.len() {
            assert forall|i: int| 0 <= i < slots.len() implies !(#[trigger] slots[i] is Pending) by {
                if i < front.len() {
                    assert(front[i] == slots[i]);
                }
            }
        }
        if settled(slots) == 0 {
            assert forall|i: int| 0 <= i < slots.len() implies #[trigger] slots[i] is Pending by {
                if i < front.len() {
                    assert(front[i] == slots[i]);
                }
            }
        }
    }
}

/// Filling a pending slot raises the count of reports by one.
proof fn lemma_settled_update(slots: Seq<Slot>, index: int, slot: Slot)
    requires
        0 <= index < slots.len(),
        slots[index] is Pending,
        !(slot is Pending),
    ensures
        settled(slots.update(index, slot)) == settled(slots) + 1,
    decreases slots.len(),
{
    let after = slots.update(index, slot);
    if index == slots.len() - 1 {
        assert(after.drop_last() =~= slots.drop_last());
    } else {
        lemma_settled_update(slots.drop_last(), index, slot);
        assert(after.drop_last() =~= slots.drop_last().update(index, slot));
    }
}

/// One report: a unit of work and what it came to.
pub struct Arrival {
    pub index: int,
    pub outcome: Result<FeeAmount, (ErrorKind, Seq<char>)>,
}

/// The state after `arrivals` have been recorded, one after the other.
pub open spec fn replay(start: Joined, arrivals: Seq<Arrival>) -> Joined
    decreases arrivals.len(),
{
    if arrivals.len() == 0 {
        start
    } else {
        replay(start, arrivals.drop_last()).record(
            arrivals.last().index,
            arrivals.last().outcome,
        )
    }
}

/// Every report is for one of `units` units, and no unit reports twice.
pub open spec fn one_each(arrivals: Seq<Arrival>, units: nat) -> bool {
    &&& forall|i: int| 0 <= i < arrivals.len() ==> 0 <= (#[trigger] arrivals[i]).index < units
    &&& forall|i: int, j: int|
        0 <= i < j < arrivals.len() ==> (#[trigger] arrivals[i]).index != (
        #[trigger] arrivals[j]).index
}

/// Whether the unit `k` is among `arrivals`.
pub open spec fn has_reported(arrivals: Seq<Arrival>, k: int) -> bool {
    exists|i: int| 0 <= i < arrivals.len() && (#[trigger] arrivals[i]).index == k
}

/// After units have reported, each at most once, the slot of a unit holds
/// what that unit reported, and is pending if it has not reported; nothing
/// is lost and nothing counts twice. The failure on record is that of the
/// first report that was a failure.
pub proof fn lemma_replay(units: nat, arrivals: Seq<Arrival>)
    requires
        one_each(arrivals, units),
    ensures
        replay(Joined::fresh(units), arrivals).slots.len() == units,
        forall|i: int|
            0 <= i < arrivals.len() ==> replay(Joined::fresh(units), arrivals).slots[(
            #[trigger] arrivals[i]).index] == slot_of(arrivals[i].outcome),
        forall|k: int|
            0 <= k < units && !has_reported(arrivals, k) ==> #[trigger] replay(
                Joined::fresh(units),
                arrivals,
            ).slots[k] is Pending,
        replay(Joined::fresh(units), arrivals).consistent(),
        forall|i: int|
            0 <= i < arrivals.len() && (#[trigger] arrivals[i]).outcome is Err && (forall|j: int|
                0 <= j < i ==> (#[trigger] arrivals[j]).outcome is Ok) ==> replay(
                Joined::fresh(units),
                arrivals,
            ).first_failure == Some(arrivals[i].outcome->Err_0),
        (forall|i: int| 0 <= i < arrivals.len() ==> (#[trigger] arrivals[i]).outcome is Ok)
            ==> replay(Joined::fresh(units), arrivals).first_failure is None,
    decreases arrivals.len(),
{
    let end = replay(Joined::fresh(units), arrivals);
    if arrivals.len() == 0 {
        assert(!end.failed());
    } else {
        let front = arrivals.drop_last();
        let last = arrivals.last();
        let mid = replay(Joined::fresh(units), front);
        assert(forall|i: int| 0 <= i < front.len() ==> front[i] == arrivals[i]);
        lemma_replay(units, front);
        assert(!has_reported(front, last.index)) by {
            if has_reported(front, last.index) {
                let i = choose|i: int| 0 <= i < front.len() && (#[trigger] front[i]).index == last.index;
                assert(arrivals[i].index == arrivals[arrivals.len() - 1].index);
            }
        }
        assert(mid.awaits(last.index));
        assert forall|i: int| 0 <= i < arrivals.len() implies end.slots[(
        #[trigger] arrivals[i]).index] == slot_of(arrivals[i].outcome) by {
            if i < front.len() {
                assert(front[i] == arrivals[i]);
                assert(arrivals[i].index != arrivals[arrivals.len() - 1].index);
            }
        }
        assert forall|k: int| 0 <= k < units && !has_reported(arrivals, k) implies #[trigger] end.slots[k] is Pending by {
            assert(k != last.index) by {
                if k == last.index {
                    assert(arrivals[arrivals.len() - 1].index == k);
                }
            }
            assert(!has_reported(front, k)) by {
                if has_reported(front, k) {
                    let i = choose|i: int| 0 <= i < front.len() && (#[trigger] front[i]).index == k;
                    assert(arrivals[i].index == k);
                }
            }
        }
        assert(end.consistent()) by {
            if end.failed() {
                let k = choose|k: int| 0 <= k < end.slots.len() && #[trigger] end.slots[k] is Failed;
                if k != last.index {
                    assert(mid.slots[k] is Failed);
                }
            }
            if mid.failed() {
                let k = choose|k: int| 0 <= k < mid.slots.len() && #[trigger] mid.slots[k] is Failed;
                assert(end.slots[k] is Failed);
            }
            if last.outcome is Err {
                assert(end.slots[last.index] is Failed);
            }
        }
        assert forall|i: int|
            0 <= i < arrivals.len() && (#[trigger] arrivals[i]).outcome is Err && (forall|j: int|
                0 <= j < i ==> (#[trigger] arrivals[j]).outcome is Ok) implies end.first_failure
            == Some(arrivals[i].outcome->Err_0) by {
            if i < front.len() {
                assert(front[i] == arrivals[i]);
                assert forall|j: int| 0 <= j < i implies (#[trigger] front[j]).outcome is Ok by {
                    assert(front[j] == arrivals[j]);
                }
            } else {
                assert forall|j: int| 0 <= j < front.len() implies (
                #[trigger] front[j]).outcome is Ok by {
                    assert(front[j] == arrivals[j]);
                }
            }
        }
        if forall|i: int| 0 <= i < arrivals.len() ==> (#[trigger] arrivals[i]).outcome is Ok {
            assert(arrivals[arrivals.len() - 1].outcome is Ok);
            assert forall|j: int| 0 <= j < front.len() implies (#[trigger] front[j]).outcome is Ok by {
                assert(front[j] == arrivals[j]);
            }
        }
    }
}

/// The order in which the units report is immaterial for what the slots
/// hold: two runs in which the same units report the same outcomes, each
/// unit once, end with the same slots.
pub proof fn lemma_any_order_same_slots(units: nat, a: Seq<Arrival>, b: Seq<Arrival>)
    requires
        one_each(a, units),
        one_each(b, units),
        forall|i: int| 0 <= i < a.len() ==> b.contains(#[trigger] a[i]),
        forall|j: int| 0 <= j < b.len() ==> a.contains(#[trigger] b[j]),
    ensures
        replay(Joined::fresh(units), a).slots == replay(Joined::fresh(units), b).slots,
{
    let x = replay(Joined::fresh(units), a);
    let y = replay(Joined::fresh(units), b);
    lemma_replay(units, a);
    lemma_replay(units, b);
    assert forall|k: int| 0 <= k < units implies x.slots[k] == y.slots[k] by {
        if has_reported(a, k) {
            let i = choose|i: int| 0 <= i < a.len() && (#[trigger] a[i]).index == k;
            assert(b.contains(a[i]));
            let j = choose|j: int| 0 <= j < b.len() && b[j] == a[i];
            assert(y.slots[b[j].index] == slot_of(b[j].outcome));
            assert(x.slots[a[i].index] == slot_of(a[i].outcome));
        } else {
            if has_reported(b, k) {
                let j = choose|j: int| 0 <= j < b.len() && (#[trigger] b[j]).index == k;
                assert(a.contains(b[j]));
                let i = choose|i: int| 0 <= i < a.len() && a[i] == b[j];
                assert(a[i].index == k);
            }
        }
    }
    assert(x.slots =~= y.slots);
}

/// A dispatch in which a unit has failed comes to a failure once every unit
/// has reported, however many of the others succeeded.
pub proof fn lemma_one_failure_fails_all(state: Joined)
    requires
        state.consistent(),
        state.complete(),
        state.failed(),
    ensures
        state.outcome() is Some,
        state.outcome()->Some_0 is Err,
{
}

/// Collects the outcomes of the units of work of one dispatch.
pub struct Dispatcher {
    slots: Vec<Slot>,
    joined: usize,
    first_failure: Option<AppError>,
}

impl View for Dispatcher {
    type V = Joined;

    closed spec fn view(&self) -> Joined {
        Joined {
            slots: self.slots@,
            first_failure: match self.first_failure {
                Some(err) => Some(err@),
                None => None,
            },
        }
    }
}

impl Dispatcher {
    /// The invariant of a dispatcher: its count of reports is right, and it
    /// holds a first failure exactly if some unit has failed.
    pub closed spec fn wf(&self) -> bool {
        &&& self.joined == settled(self.slots@)
        &&& self@.consistent()
    }

    /// A dispatcher for `units` units of work, none of which has reported.
    pub fn new(units: usize) -> (d: Dispatcher)
        ensures
            d.wf(),
            d@ == Joined::fresh(units as nat),
            d@.consistent(),
    {
        let mut slots: Vec<Slot> = Vec::new();
        let mut i: usize = 0;
        while i < units
            invariant
                i <= units,
                slots.len() == i,
                forall|j: int| 0 <= j < i ==> #[trigger] slots[j] is Pending,
            decreases units - i,
        {
            slots.push(Slot::Pending);
            i += 1;
        }
        proof {
            lemma_settled_all(slots@);
            assert(slots@ =~= Joined::fresh(units as nat).slots);
        }
        Dispatcher { slots, joined: 0, first_failure: None }
    }

    /// The number of units of work.
    pub fn units(&self) -> (n: usize)
        ensures
            n == self@.slots.len(),
    {
        self.slots.len()
    }

    /// The number of units that have not reported yet.
    pub fn pending(&self) -> (n: usize)
        requires
            self.wf(),
        ensures
            n == self@.slots.len() - settled(self@.slots),
            n == 0 <==> self@.complete(),
    {
        proof {
            lemma_settled_all(self.slots@);
        }
        self.slots.len() - self.joined
    }

    /// Whether every unit has reported.
    pub fn is_complete(&self) -> (r: bool)
        requires
            self.wf(),
        ensures
            r == self@.complete(),
    {
        proof {
            lemma_settled_all(self.slots@);
        }
        self.joined == self.slots.len()
    }

    /// Takes the outcome of the unit `index`. It is refused, and nothing
    /// changes, if there is no such unit or if the unit has reported before:
    /// every unit counts once.
    pub fn record(&mut self, index: usize, outcome: Result<FeeAmount, AppError>) -> (accepted: bool)
        requires
            old(self).wf(),
        ensures
            final(self).wf(),
            final(self)@.consistent(),
            accepted == old(self)@.awaits(index as int),
            final(self)@ == old(self)@.record(index as int, reported(outcome)),
    {
        if index >= self.slots.len() {
            return false;
        }
        match self.slots[index] {
            Slot::Pending => {},
            _ => {
                return false;
            },
        }
        proof {
            lemma_settled_all(self.slots@);
            lemma_settled_update(self.slots@, index as int, slot_of(reported(outcome)));
        }
        let ghost before = self@;
        match outcome {
            Ok(fee) => {
                self.slots.set(index, Slot::Paid(fee));
                proof {
                    if self@.failed() {
                        let k = choose|k: int|
                            0 <= k < self@.slots.len() && #[trigger] self@.slots[k] is Failed;
                        assert(before.slots[k] is Failed);
                    }
                    if before.failed() {
                        let k = choose|k: int|
                            0 <= k < before.slots.len() && #[trigger] before.slots[k] is Failed;
                        assert(self@.slots[k] is Failed);
                    }
                }
            },
            Err(err) => {
                self.slots.set(index, Slot::Failed);
                if self.first_failure.is_none() {
                    self.first_failure = Some(err);
                }
                proof {
                    assert(self@.slots[index as int] is Failed);
                }
            },
        }
        self.joined = self.joined + 1;
        assert(self@ =~= before.record(index as int, reported(outcome)));
        true
    }

    /// What the dispatch has come to: `None` while a unit is missing; then
    /// the failure that was reported first, if any unit failed; else the fee
    /// of every unit, in the order of the units. Where several units fail,
    /// the failure that is given depends on the order in which they report;
    /// the fees do not.
    pub fn outcome(&self) -> (r: Option<Result<Vec<FeeAmount>, AppError>>)
        requires
            self.wf(),
        ensures
            match self@.outcome() {
                None => r is None,
                Some(Err(failure)) => r is Some && r->Some_0 is Err && r->Some_0->Err_0@
                    == failure,
                Some(Ok(fees)) => r is Some && r->Some_0 is Ok && r->Some_0->Ok_0@ == fees,
            },
            self@.complete() && self@.failed() ==> r is Some && r->Some_0 is Err,
    {
        if !self.is_complete() {
            return None;
        }
        match &self.first_failure {
            Some(err) => {
                return Some(Err(err.clone()));
            },
            None => {},
        }
        let mut fees: Vec<FeeAmount> = Vec::new();
        let mut i: usize = 0;
        while i < self.slots.len()
            invariant
                i <= self.slots.len(),
                self@.complete(),
                !self@.failed(),
                fees.len() == i,
                forall|j: int| 0 <= j < i ==> self.slots[j] == Slot::Paid(#[trigger] fees[j]),
            decreases self.slots.len() - i,
        {
            proof {
                assert(!(self@.slots[i as int] is Pending));
                assert(!(self@.slots[i as int] is Failed));
            }
            if let Slot::Paid(fee) = self.slots[i] {
                fees.push(fee);
            }
            i += 1;
        }
        proof {
            assert(fees@ =~= self@.amounts());
        }
        Some(Ok(fees))
    }
}

} // verus!
