//! The cost domain: whole numbers with a largest value that stands for "unreachable".
//!
//! Costs are added with saturation. A sum that does not fit below [`INFINITY`] is
//! [`INFINITY`], so the domain stays totally ordered, addition stays associative and
//! monotone, and [`INFINITY`] absorbs every addition. What costs as much as the
//! largest value or more is therefore held to be unreachable: a class whose
//! cheapest derivation does not fit has no finite cost.

use vstd::prelude::*;

verus! {

/// A cost. Every value below [`INFINITY`] is finite.
pub type Cost = u64;

/// The cost of what cannot be derived. It is the largest cost, the identity of `min`,
/// and absorbs addition.
pub const INFINITY: Cost = 0xffff_ffff_ffff_ffff;

/// The sum of two costs: the exact sum while that is finite, [`INFINITY`] otherwise.
pub open spec fn plus(a: Cost, b: Cost) -> Cost {
    if a + b >= INFINITY {
        INFINITY
    } else {
        (a + b) as Cost
    }
}

/// The sum of a sequence of costs, added from the left.
pub open spec fn total(costs: Seq<Cost>) -> Cost
    decreases costs.len(),
{
    if costs.len() == 0 {
        0
    } else {
        plus(total(costs.drop_last()), costs.last())
    }
}

/// Adds two costs.
pub fn add_cost(a: Cost, b: Cost) -> (sum: Cost)
    ensures
        sum == plus(a, b),
{
    if a >= INFINITY - b {
        INFINITY
    } else {
        a + b
    }
}

/// The total of a sequence with one more cost at its end.
pub proof fn lemma_total_push(costs: Seq<Cost>, last: Cost)
    ensures
        total(costs.push(last)) == plus(total(costs), last),
{
    assert(costs.push(last).drop_last() =~= costs);
}

/// A total is at least each of its terms, so one infinite term makes it infinite.
pub proof fn lemma_total_bounds_term(costs: Seq<Cost>, at: int)
    requires
        0 <= at < costs.len(),
    ensures
        costs[at] <= total(costs),
        costs[at] == INFINITY ==> total(costs) == INFINITY,
    decreases costs.len(),
{
    if at < costs.len() - 1 {
        lemma_total_bounds_term(costs.drop_last(), at);
    }
}

/// Totals are monotone: raising terms never lowers the total.
pub proof fn lemma_total_monotone(low: Seq<Cost>, high: Seq<Cost>)
    requires
        low.len() == high.len(),
        forall|j: int| 0 <= j < low.len() ==> low[j] <= high[j],
    ensures
        total(low) <= total(high),
    decreases low.len(),
{
    if low.len() > 0 {
        lemma_total_monotone(low.drop_last(), high.drop_last());
    }
}

/// A finite total has only finite terms.
pub proof fn lemma_total_finite(costs: Seq<Cost>)
    requires
        total(costs) < INFINITY,
    ensures
        forall|j: int| 0 <= j < costs.len() ==> costs[j] < INFINITY,
{
    assert forall|j: int| 0 <= j < costs.len() implies costs[j] < INFINITY by {
        lemma_total_bounds_term(costs, j);
    }
}

/// Raising a term from nothing adds what it is raised to.
pub proof fn lemma_total_raise(costs: Seq<Cost>, at: int, to: Cost)
    requires
        0 <= at < costs.len(),
        costs[at] == 0,
    ensures
        total(costs.update(at, to)) == plus(total(costs), to),
    decreases costs.len(),
{
    let raised = costs.update(at, to);
    if at == costs.len() - 1 {
        assert(raised.drop_last() =~= costs.drop_last());
    } else {
        lemma_total_raise(costs.drop_last(), at, to);
        assert(raised.drop_last() =~= costs.drop_last().update(at, to));
    }
}

/// Costs that are all nothing total nothing.
pub proof fn lemma_total_zero(costs: Seq<Cost>)
    requires
        forall|c: int| 0 <= c < costs.len() ==> costs[c] == 0,
    ensures
        total(costs) == 0,
    decreases costs.len(),
{
    if costs.len() > 0 {
        lemma_total_zero(costs.drop_last());
    }
}

/// Where each term is at most the sum of a term of `left` and a term of `right`,
/// the total is at most the sum of their totals.
pub proof fn lemma_total_split(whole: Seq<Cost>, left: Seq<Cost>, right: Seq<Cost>)
    requires
        whole.len() == left.len(),
        whole.len() == right.len(),
        forall|c: int| 0 <= c < whole.len() ==> whole[c] <= plus(left[c], right[c]),
    ensures
        total(whole) <= plus(total(left), total(right)),
    decreases whole.len(),
{
    if whole.len() > 0 {
        lemma_total_split(whole.drop_last(), left.drop_last(), right.drop_last());
        assert(whole.last() <= plus(left.last(), right.last()));
    }
}

/// Where each term is at least the sum of a term of `left` and a term of `right`,
/// the total is at least the sum of their totals.
pub proof fn lemma_total_join(whole: Seq<Cost>, left: Seq<Cost>, right: Seq<Cost>)
    requires
        whole.len() == left.len(),
        whole.len() == right.len(),
        forall|c: int| 0 <= c < whole.len() ==> whole[c] >= plus(left[c], right[c]),
    ensures
        total(whole) >= plus(total(left), total(right)),
    decreases whole.len(),
{
    if whole.len() > 0 {
        lemma_total_join(whole.drop_last(), left.drop_last(), right.drop_last());
        assert(whole.last() >= plus(left.last(), right.last()));
    }
}

/// Where `high` is nowhere below `low` and at one place above it by `gap` at least,
/// its total is above the total of `low` by `gap` at least.
pub proof fn lemma_total_gap(low: Seq<Cost>, high: Seq<Cost>, at: int, gap: Cost)
    requires
        low.len() == high.len(),
        forall|j: int| 0 <= j < low.len() ==> low[j] <= high[j],
        0 <= at < low.len(),
        plus(low[at], gap) <= high[at],
    ensures
        plus(total(low), gap) <= total(high),
    decreases low.len(),
{
    if at == low.len() - 1 {
        lemma_total_monotone(low.drop_last(), high.drop_last());
    } else {
        lemma_total_gap(low.drop_last(), high.drop_last(), at, gap);
    }
}

} // verus!
