//! The bottom-up extractor: full sweeps over the e-graph until nothing improves.
//! Its result minimises the tree cost.

use crate::cost::{Cost, INFINITY};
use crate::egraph::EGraph;
use crate::extract::fixpoint::{
    comes_to_rest, derivable, fixpoint, lemma_fixpoint_is_unique, lemma_next_lowers,
    lemma_rest_costs, lemma_rest_selection, lemma_sweep_grounded, lowered, next_sweep, relax,
    rests_after, scan, Sweep, sweep, tree_optimal,
};
use crate::extract::selection::{fits, valid};
use crate::extract::{ExtractError, ExtractionResult, Extractor, node_sum_cost};
use vstd::prelude::*;

verus! {

/// The sum of `costs` as a number, without a largest value.
pub open spec fn weight(costs: Seq<Cost>) -> nat
    decreases costs.len(),
{
    if costs.len() == 0 {
        0
    } else {
        weight(costs.drop_last()) + costs.last() as nat
    }
}

/// Costs that nowhere rise and fall somewhere weigh less.
pub proof fn lemma_weight_falls(before: Seq<Cost>, after: Seq<Cost>, strict: bool)
    requires
        before.len() == after.len(),
        forall|c: int| 0 <= c < before.len() ==> after[c] <= before[c],
        strict ==> exists|c: int| 0 <= c < before.len() && after[c] < before[c],
    ensures
        weight(after) <= weight(before),
        strict ==> weight(after) < weight(before),
    decreases before.len(),
{
    if before.len() > 0 {
        let at = choose|c: int| 0 <= c < before.len() && after[c] < before[c];
        let inner = strict && at < before.len() - 1;
        if inner {
            assert(after.drop_last()[at] < before.drop_last()[at]);
        }
        lemma_weight_falls(before.drop_last(), after.drop_last(), inner);
    }
}

/// What the outcome of a tree-optimal extraction is, from the fixpoint of the
/// sweeps: the fixpoint's choices where every root has a finite tree cost under
/// some selection, and [`ExtractError::Infeasible`] where a root has none.
pub open spec fn fixpoint_outcome(
    eg: &EGraph,
    roots: Seq<usize>,
    outcome: Result<ExtractionResult, ExtractError>,
) -> bool {
    match outcome {
        Ok(result) => {
            &&& result@ == fixpoint(eg).choices
            &&& fits(eg, result@)
            &&& valid(eg, result@, roots)
            &&& tree_optimal(eg, result@, roots)
            &&& forall|k: int| 0 <= k < roots.len() ==> derivable(eg, #[trigger] roots[k] as int)
        },
        Err(error) => {
            &&& error == ExtractError::Infeasible
            &&& exists|k: int| 0 <= k < roots.len() && !derivable(eg, #[trigger] roots[k] as int)
        },
    }
}

/// Prices every node of class `class` from `costs` and returns the cheapest with
/// its price: the first of the cheapest if it is strictly cheaper than `start`,
/// and `start` otherwise.
pub fn relax_class(
    eg: &EGraph,
    class: usize,
    costs: &Vec<Cost>,
    start: (Cost, Option<usize>),
) -> (best: (Cost, Option<usize>))
    requires
        eg.wf(),
        class < eg.num_classes(),
        costs@.len() == eg.num_classes(),
    ensures
        best == scan(eg, class as int, costs@, eg.num_nodes(class as int), start),
{
    let m: usize = eg.classes[class].nodes.len();
    let mut best = start;
    let mut i: usize = 0;
    while i < m
        invariant
            eg.wf(),
            class < eg.num_classes(),
            costs@.len() == eg.num_classes(),
            m == eg.num_nodes(class as int),
            i <= m,
            best == scan(eg, class as int, costs@, i as nat, start),
        decreases m - i,
    {
        let price = node_sum_cost(eg, class, i, costs);
        if price < best.0 {
            best = (price, Some(i));
        }
        i += 1;
    }
    best
}

/// Turns the sweeps' fixpoint into the outcome of an extraction from `roots`.
pub(crate) fn conclude(
    eg: &EGraph,
    roots: &[usize],
    choices: Vec<Option<usize>>,
) -> (outcome: Result<ExtractionResult, ExtractError>)
    requires
        eg.wf(),
        eg.has_roots(roots@),
        comes_to_rest(eg),
        choices@ == fixpoint(eg).choices,
    ensures
        fixpoint_outcome(eg, roots@, outcome),
{
    let ghost rounds = choose|rounds: nat| rests_after(eg, rounds);
    proof {
        lemma_rest_selection(eg, rounds, roots@);
    }
    let mut k: usize = 0;
    while k < roots.len()
        invariant
            eg.wf(),
            eg.has_roots(roots@),
            rests_after(eg, rounds),
            choices@ == sweep(eg, rounds).choices,
            fits(eg, choices@),
            k <= roots@.len(),
            forall|q: int|
                0 <= q < k ==> derivable(eg, #[trigger] roots@[q] as int)
                    && choices@[roots@[q] as int] is Some,
        decreases roots@.len() - k,
    {
        let r: usize = roots[k];
        proof {
            lemma_rest_costs(eg, rounds, r as int);
        }
        match choices[r] {
            None => {
                proof {
                    lemma_hopeless_root(eg, rounds, r as int);
                }
                return Err(ExtractError::Infeasible);
            },
            Some(_) => {
                proof {
                    lemma_chosen_root(eg, rounds, r as int);
                }
            },
        }
        k += 1;
    }
    Ok(ExtractionResult { choices })
}

/// At rest, a class without a chosen node has no finite tree cost under any
/// selection.
proof fn lemma_hopeless_root(eg: &EGraph, rounds: nat, c: int)
    requires
        eg.wf(),
        rests_after(eg, rounds),
        0 <= c < eg.num_classes(),
        sweep(eg, rounds).choices[c] is None,
    ensures
        !derivable(eg, c),
{
    lemma_sweep_grounded(eg, rounds);
    lemma_rest_costs(eg, rounds, c);
}

/// At rest, a class with a chosen node has a finite tree cost.
proof fn lemma_chosen_root(eg: &EGraph, rounds: nat, c: int)
    requires
        eg.wf(),
        rests_after(eg, rounds),
        0 <= c < eg.num_classes(),
        sweep(eg, rounds).choices[c] is Some,
    ensures
        derivable(eg, c),
{
    lemma_sweep_grounded(eg, rounds);
    lemma_rest_costs(eg, rounds, c);
}

/// Extracts by sweeping over all classes until a sweep improves none.
pub struct BottomUpExtractor;

impl Extractor for BottomUpExtractor {
    /// Returns the fixpoint's choices. They are valid from `roots` and no selection
    /// has a lower tree cost. Fails where a root has no finite tree cost under any
    /// selection.
    fn extract(&self, eg: &EGraph, roots: &[usize]) -> (outcome: Result<
        ExtractionResult,
        ExtractError,
    >)
        ensures
            fixpoint_outcome(eg, roots@, outcome),
    {
        let (_, choices) = sweep_to_rest(eg);
        conclude(eg, roots, choices)
    }
}

/// Sweeps over all classes until a sweep improves none, and returns the cost and
/// the choice of each class.
pub fn sweep_to_rest(eg: &EGraph) -> (rest: (Vec<Cost>, Vec<Option<usize>>))
    requires
        eg.wf(),
    ensures
        comes_to_rest(eg),
        rest.0@ == fixpoint(eg).costs,
        rest.1@ == fixpoint(eg).choices,
{
    let n: usize = eg.classes.len();
    let mut costs: Vec<Cost> = Vec::new();
    let mut choices: Vec<Option<usize>> = Vec::new();
    let mut c: usize = 0;
    while c < n
        invariant
            c <= n,
            costs@ == Seq::new(c as nat, |a: int| INFINITY),
            choices@ == Seq::new(c as nat, |a: int| None::<usize>),
        decreases n - c,
    {
        costs.push(INFINITY);
        choices.push(None);
        proof {
            assert(costs@ =~= Seq::new((c + 1) as nat, |a: int| INFINITY));
            assert(choices@ =~= Seq::new((c + 1) as nat, |a: int| None::<usize>));
        }
        c += 1;
    }
    let ghost mut rounds: nat = 0;
    loop
        invariant
            eg.wf(),
            n == eg.num_classes(),
            costs@ == sweep(eg, rounds).costs,
            choices@ == sweep(eg, rounds).choices,
        decreases weight(costs@),
    {
        let ghost s = sweep(eg, rounds);
        let mut new_costs: Vec<Cost> = Vec::new();
        let mut new_choices: Vec<Option<usize>> = Vec::new();
        let mut changed: bool = false;
        let mut c: usize = 0;
        while c < n
            invariant
                eg.wf(),
                n == eg.num_classes(),
                s == (Sweep { costs: costs@, choices: choices@ }),
                costs@.len() == n,
                choices@.len() == n,
                c <= n,
                new_costs@.len() == c,
                new_choices@.len() == c,
                forall|a: int| 0 <= a < c ==> new_costs@[a] == relax(eg, s, a).0,
                forall|a: int| 0 <= a < c ==> new_choices@[a] == relax(eg, s, a).1,
                changed <==> exists|a: int| 0 <= a < c && new_costs@[a] != costs@[a],
            decreases n - c,
        {
            let best = relax_class(eg, c, &costs, (costs[c], choices[c]));
            if best.0 != costs[c] {
                changed = true;
            }
            new_costs.push(best.0);
            new_choices.push(best.1);
            proof {
                if changed {
                    let a = if best.0 != costs@[c as int] {
                        c as int
                    } else {
                        choose|a: int| 0 <= a < c && new_costs@[a] != costs@[a]
                    };
                    assert(0 <= a < c + 1 && new_costs@[a] != costs@[a]);
                }
            }
            c += 1;
        }
        let ghost t = next_sweep(eg, s);
        proof {
            lemma_next_lowers(eg, s);
            assert(new_costs@ =~= t.costs);
            assert(new_choices@ =~= t.choices);
        }
        if !changed {
            proof {
                assert forall|a: int| 0 <= a < n implies t.choices[a] == s.choices[a] by {
                    assert(lowered(eg, s, t, a));
                }
                assert(t.costs =~= s.costs);
                assert(t.choices =~= s.choices);
                lemma_fixpoint_is_unique(eg, rounds);
            }
            return (costs, choices);
        }
        proof {
            assert forall|a: int| 0 <= a < n implies t.costs[a] <= s.costs[a] by {
                assert(lowered(eg, s, t, a));
            }
            lemma_weight_falls(s.costs, t.costs, true);
            rounds = rounds + 1;
        }
        costs = new_costs;
        choices = new_choices;
    }
}

} // verus!
