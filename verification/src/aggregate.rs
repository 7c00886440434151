//! The aggregator: one exact total from the fees of a block.

use crate::amount::{pow10, FeeAmount, Scaled};
use vstd::prelude::*;
use vstd::seq_lib::group_to_multiset_ensures;

verus! {

/// The exact sum of the fees of a block.
pub type FeeTotal = FeeAmount;

/// The sum of the values of `fees`, in units of `10^-28`.
pub open spec fn sum_units(fees: Seq<Scaled>) -> int
    decreases fees.len(),
{
    if fees.len() == 0 {
        0
    } else {
        sum_units(fees.drop_last()) + fees.last().units()
    }
}

/// The total of `fees`: zero for no fees, else the total of all but the last
/// plus the last, as long as every sum on the way can be given exactly.
pub open spec fn total_of(fees: Seq<Scaled>) -> Option<Scaled>
    decreases fees.len(),
{
    if fees.len() == 0 {
        Some(Scaled { mantissa: 0, scale: 0 })
    } else {
        match total_of(fees.drop_last()) {
            Some(t) => Scaled::sum(t, fees.last()),
            None => None,
        }
    }
}

/// A total, where there is one, is a fee amount whose value is the sum of
/// the values of the fees: nothing is rounded on the way.
pub proof fn lemma_total_is_exact(fees: Seq<Scaled>)
    ensures
        total_of(fees) is Some ==> total_of(fees)->Some_0.valid() && total_of(fees)->Some_0.units()
            == sum_units(fees),
    decreases fees.len(),
{
    if fees.len() == 0 {
        assert(0 * pow10(28) == 0) by (nonlinear_arith);
    } else {
        lemma_total_is_exact(fees.drop_last());
    }
}

/// Once a total cannot be given for the first `k` fees, it cannot be given
/// for all of them.
pub proof fn lemma_total_fails_for_good(fees: Seq<Scaled>, k: int)
    requires
        0 <= k <= fees.len(),
        total_of(fees.take(k)) is None,
    ensures
        total_of(fees) is None,
    decreases fees.len(),
{
    if k == fees.len() {
        assert(fees.take(k) =~= fees);
    } else {
        assert(fees.drop_last().take(k) =~= fees.take(k));
        lemma_total_fails_for_good(fees.drop_last(), k);
    }
}

/// Taking one fee out lowers the sum by that fee's value.
pub proof fn lemma_sum_units_remove(fees: Seq<Scaled>, i: int)
    requires
        0 <= i < fees.len(),
    ensures
        sum_units(fees) == sum_units(fees.remove(i)) + fees[i].units(),
    decreases fees.len(),
{
    if i == fees.len() - 1 {
        assert(fees.remove(i) =~= fees.drop_last());
    } else {
        lemma_sum_units_remove(fees.drop_last(), i);
        assert(fees.remove(i).drop_last() =~= fees.drop_last().remove(i));
        assert(fees.remove(i).last() == fees.last());
    }
}

/// The sum of the values does not depend on the order of the fees.
pub proof fn lemma_sum_units_any_order(a: Seq<Scaled>, b: Seq<Scaled>)
    requires
        a.to_multiset() == b.to_multiset(),
    ensures
        sum_units(a) == sum_units(b),
    decreases a.len(),
{
    broadcast use group_to_multiset_ensures;

    a.to_multiset_ensures();
    b.to_multiset_ensures();
    if a.len() == 0 {
        assert(b.len() == 0);
    } else {
        let x = a.last();
        assert(a[a.len() - 1] == x);
        assert(a.contains(x));
        assert(a.to_multiset().count(x) > 0);
        assert(b.to_multiset().count(x) > 0);
        assert(b.contains(x));
        let i = choose|i: int| 0 <= i < b.len() && b[i] == x;
        assert(a.remove(a.len() - 1) =~= a.drop_last());
        assert(a.drop_last().to_multiset() =~= b.remove(i).to_multiset());
        lemma_sum_units_any_order(a.drop_last(), b.remove(i));
        lemma_sum_units_remove(b, i);
    }
}

/// The total does not depend on the order in which the fees are added: two
/// totals of the same fees, taken in any two orders, stand for the same
/// number.
pub proof fn lemma_total_any_order(a: Seq<Scaled>, b: Seq<Scaled>)
    requires
        a.to_multiset() == b.to_multiset(),
        total_of(a) is Some,
        total_of(b) is Some,
    ensures
        total_of(a)->Some_0.units() == total_of(b)->Some_0.units(),
{
    lemma_total_is_exact(a);
    lemma_total_is_exact(b);
    lemma_sum_units_any_order(a, b);
}

/// Adds up `fees`. The result is `total_of` the fees: the exact sum, or
/// `None` if a sum on the way has no exact representation. No fees add up to
/// zero.
pub fn total(fees: &Vec<FeeAmount>) -> (r: Option<FeeTotal>)
    ensures
        r.deep_view() == total_of(fees.deep_view()),
        r is Some ==> r->Some_0@.units() == sum_units(fees.deep_view()),
        fees.len() == 0 ==> r is Some && r->Some_0@ == (Scaled { mantissa: 0, scale: 0 }),
{
    let mut acc = FeeAmount::zero();
    let mut i: usize = 0;
    while i < fees.len()
        invariant
            i <= fees.len(),
            total_of(fees.deep_view().take(i as int)) == Some(acc@),
        decreases fees.len() - i,
    {
        let ghost before = fees.deep_view().take(i as int);
        let ghost after = fees.deep_view().take(i + 1);
        proof {
            assert(after.drop_last() =~= before);
            assert(after.last() == fees[i as int]@);
        }
        match acc.checked_add(fees[i]) {
            Some(next) => {
                acc = next;
            },
            None => {
                proof {
                    lemma_total_fails_for_good(fees.deep_view(), i + 1);
                }
                return None;
            },
        }
        i += 1;
    }
    proof {
        assert(fees.deep_view().take(i as int) =~= fees.deep_view());
        lemma_total_is_exact(fees.deep_view());
    }
    Some(acc)
}

} // verus!
