//! What holds between the cost measures and between the strategies.

use crate::cost::{
    Cost, lemma_total_monotone, lemma_total_raise, lemma_total_split, lemma_total_zero, plus, total,
};
use crate::egraph::EGraph;
use crate::extract::bottom_up::fixpoint_outcome;
use crate::extract::faster_greedy_dag::greedy_outcome;
use crate::extract::ilp::{Solved, solved_outcome};
use crate::extract::selection::{
    child_costs, chosen_children, class_tree_cost, dag_cost_of, dag_share, depth_table, edge, fits,
    is_path, leads, lemma_subpath, reachable, Selection, tree_cost_of, valid,
};
use crate::extract::{checked, Defect, ExtractError, ExtractionResult};
use crate::Strategy;
use vstd::prelude::*;

verus! {

/// The DAG costs from each class of `roots` alone.
pub open spec fn single_dag_costs(eg: &EGraph, sel: Selection, roots: Seq<usize>) -> Seq<Cost> {
    Seq::new(roots.len(), |k: int| dag_cost_of(eg, sel, seq![roots[k]]))
}

/// What is reachable from `roots` is reachable from all but the last of them or
/// from the last.
pub proof fn lemma_reachable_split(eg: &EGraph, sel: Selection, roots: Seq<usize>, c: int)
    requires
        roots.len() > 0,
        reachable(eg, sel, roots, c),
    ensures
        reachable(eg, sel, roots.drop_last(), c) || reachable(eg, sel, seq![roots.last()], c),
{
    let k = choose|k: int| 0 <= k < roots.len() && leads(eg, sel, #[trigger] roots[k] as int, c);
    if k < roots.len() - 1 {
        assert(roots.drop_last()[k] == roots[k]);
    } else {
        assert(seq![roots.last()][0] == roots[k]);
    }
}

/// The DAG cost from several roots is at most the DAG cost from all but the last
/// and the DAG cost from the last.
pub proof fn lemma_dag_cost_of_more(eg: &EGraph, sel: Selection, roots: Seq<usize>)
    requires
        roots.len() > 0,
    ensures
        dag_cost_of(eg, sel, roots) <= plus(
            dag_cost_of(eg, sel, roots.drop_last()),
            dag_cost_of(eg, sel, seq![roots.last()]),
        ),
{
    let front = roots.drop_last();
    let last = seq![roots.last()];
    let whole = Seq::new(sel.len(), |c: int| dag_share(eg, sel, roots, c));
    let left = Seq::new(sel.len(), |c: int| dag_share(eg, sel, front, c));
    let right = Seq::new(sel.len(), |c: int| dag_share(eg, sel, last, c));
    assert forall|c: int| 0 <= c < whole.len() implies whole[c] <= plus(left[c], right[c]) by {
        if reachable(eg, sel, roots, c) {
            lemma_reachable_split(eg, sel, roots, c);
        }
    }
    lemma_total_split(whole, left, right);
}

/// The DAG cost from several roots is at most the total of the DAG costs from each
/// alone.
pub proof fn lemma_dag_cost_of_roots(eg: &EGraph, sel: Selection, roots: Seq<usize>)
    ensures
        dag_cost_of(eg, sel, roots) <= total(single_dag_costs(eg, sel, roots)),
    decreases roots.len(),
{
    let whole = Seq::new(sel.len(), |c: int| dag_share(eg, sel, roots, c));
    if roots.len() == 0 {
        assert forall|c: int| 0 <= c < whole.len() implies whole[c] == 0 by {
            if reachable(eg, sel, roots, c) {
                let k = choose|k: int|
                    0 <= k < roots.len() && leads(eg, sel, #[trigger] roots[k] as int, c);
            }
        }
        lemma_total_zero(whole);
    } else {
        let front = roots.drop_last();
        let last = seq![roots.last()];
        lemma_dag_cost_of_more(eg, sel, roots);
        lemma_dag_cost_of_roots(eg, sel, front);
        assert(single_dag_costs(eg, sel, roots).drop_last() =~= single_dag_costs(eg, sel, front));
        assert(single_dag_costs(eg, sel, roots).last() == dag_cost_of(eg, sel, last));
    }
}

/// The DAG cost from a class with a chosen node is at most the node's own cost and
/// the DAG cost from its children.
pub proof fn lemma_dag_cost_of_class(eg: &EGraph, sel: Selection, c: usize)
    requires
        c < sel.len(),
        sel[c as int] is Some,
    ensures
        dag_cost_of(eg, sel, seq![c]) <= plus(
            eg.node_cost(c as int, sel[c as int].unwrap() as int),
            dag_cost_of(eg, sel, chosen_children(eg, sel, c as int)),
        ),
{
    let kids = chosen_children(eg, sel, c as int);
    let own = eg.node_cost(c as int, sel[c as int].unwrap() as int);
    let whole = Seq::new(sel.len(), |x: int| dag_share(eg, sel, seq![c], x));
    let zeros = Seq::new(sel.len(), |x: int| 0 as Cost);
    let left = zeros.update(c as int, own);
    let right = Seq::new(sel.len(), |x: int| dag_share(eg, sel, kids, x));
    assert forall|x: int| 0 <= x < whole.len() implies whole[x] <= plus(left[x], right[x]) by {
        if x != c && reachable(eg, sel, seq![c], x) {
            let k = choose|k: int|
                0 <= k < seq![c].len() && leads(eg, sel, #[trigger] seq![c][k] as int, x);
            let p = choose|p: Seq<int>| #[trigger]
                is_path(eg, sel, p) && p.len() > 0 && p[0] == c as int && p.last() == x;
            assert(edge(eg, sel, p[0int], p[0int + 1]));
            let j = choose|j: int|
                0 <= j < kids.len() && #[trigger] chosen_children(eg, sel, c as int)[j] == p[1];
            lemma_subpath(eg, sel, p, 1, p.len() as int);
            let rest = p.subrange(1, p.len() as int);
            assert(is_path(eg, sel, rest) && rest.len() > 0 && rest[0] == kids[j] as int
                && rest.last() == x);
            assert(leads(eg, sel, kids[j] as int, x));
        }
    }
    lemma_total_split(whole, left, right);
    lemma_total_zero(zeros);
    lemma_total_raise(zeros, c as int, own);
}

/// The DAG cost from a class is at most its tree cost, however deep that is
/// unfolded.
pub proof fn lemma_dag_below_depth(eg: &EGraph, sel: Selection, c: usize, depth: nat)
    requires
        eg.wf(),
        fits(eg, sel),
        c < sel.len(),
    ensures
        dag_cost_of(eg, sel, seq![c]) <= depth_table(eg, sel, depth)[c as int],
    decreases depth,
{
    if depth > 0 && sel[c as int] is Some {
        let i = sel[c as int].unwrap() as int;
        let kids = chosen_children(eg, sel, c as int);
        let under = depth_table(eg, sel, (depth - 1) as nat);
        assert(eg.has_node(c as int, i));
        lemma_dag_cost_of_class(eg, sel, c);
        lemma_dag_cost_of_roots(eg, sel, kids);
        assert forall|j: int| 0 <= j < kids.len() implies single_dag_costs(eg, sel, kids)[j]
            <= child_costs(eg, c as int, i, under)[j] by {
            assert(eg.children(c as int, i)[j] < eg.num_classes());
            lemma_dag_below_depth(eg, sel, kids[j], (depth - 1) as nat);
        }
        lemma_total_monotone(single_dag_costs(eg, sel, kids), child_costs(eg, c as int, i, under));
    }
}

/// The DAG cost of a selection is at most its tree cost: shared structure is paid
/// for once, not once for every occurrence.
pub proof fn law_dag_cost_at_most_tree_cost(eg: &EGraph, sel: Selection, roots: Seq<usize>)
    requires
        eg.wf(),
        eg.has_roots(roots),
        fits(eg, sel),
    ensures
        dag_cost_of(eg, sel, roots) <= tree_cost_of(eg, sel, roots),
{
    let trees = Seq::new(roots.len(), |k: int| class_tree_cost(eg, sel, roots[k] as int));
    lemma_dag_cost_of_roots(eg, sel, roots);
    assert forall|k: int| 0 <= k < roots.len() implies single_dag_costs(eg, sel, roots)[k]
        <= trees[k] by {
        lemma_dag_below_depth(eg, sel, roots[k], sel.len());
    }
    lemma_total_monotone(single_dag_costs(eg, sel, roots), trees);
}

/// What a strategy extracts from the roots of a graph passes validation. This holds
/// of every strategy, since every strategy promises a valid selection.
pub proof fn law_extract_then_check(
    eg: &EGraph,
    outcome: Result<ExtractionResult, ExtractError>,
    verdict: Result<(), Defect>,
)
    requires
        outcome matches Ok(result) ==> fits(eg, result@) && valid(eg, result@, eg.roots@),
        outcome matches Ok(result) ==> checked(eg, result@, eg.roots@, verdict),
    ensures
        outcome is Ok ==> verdict is Ok,
{
}

/// Each named strategy promises what every strategy has to: a selection that it
/// returns fits the graph and is valid from the roots.
pub proof fn law_strategies_return_valid(
    strategy: Strategy,
    eg: &EGraph,
    roots: Seq<usize>,
    outcome: Result<ExtractionResult, ExtractError>,
)
    requires
        strategy.promises(eg, roots, outcome),
    ensures
        outcome matches Ok(result) ==> fits(eg, result@) && valid(eg, result@, roots),
{
}

/// The two tree-optimal strategies return the same: both succeed or both fail, and
/// where they succeed their selections are one, with one tree cost and one DAG
/// cost. The same holds of two runs of either.
pub proof fn law_tree_optimal_strategies_agree(
    eg: &EGraph,
    roots: Seq<usize>,
    one: Result<ExtractionResult, ExtractError>,
    other: Result<ExtractionResult, ExtractError>,
)
    requires
        fixpoint_outcome(eg, roots, one),
        fixpoint_outcome(eg, roots, other),
    ensures
        one is Ok <==> other is Ok,
        one is Err ==> one->Err_0 == other->Err_0,
        one is Ok ==> {
            &&& one->Ok_0@ == other->Ok_0@
            &&& tree_cost_of(eg, one->Ok_0@, roots) == tree_cost_of(eg, other->Ok_0@, roots)
            &&& dag_cost_of(eg, one->Ok_0@, roots) == dag_cost_of(eg, other->Ok_0@, roots)
        },
{
}

/// Where the exact solver has proved its selection optimal, the DAG cost of that
/// selection is at most the DAG cost of what the greedy strategy and the
/// tree-optimal strategies return.
pub proof fn law_exact_is_no_dearer(
    eg: &EGraph,
    roots: Seq<usize>,
    limit_secs: Option<u64>,
    exact: Solved,
    budget: nat,
    greedy: ExtractionResult,
    tree_optimal: ExtractionResult,
)
    requires
        solved_outcome(eg, roots, limit_secs, Ok(exact)),
        exact.proved_optimal,
        greedy_outcome(eg, roots, budget, Ok(greedy)),
        fixpoint_outcome(eg, roots, Ok(tree_optimal)),
    ensures
        dag_cost_of(eg, exact.result@, roots) <= dag_cost_of(eg, greedy@, roots),
        dag_cost_of(eg, exact.result@, roots) <= dag_cost_of(eg, tree_optimal@, roots),
{
}

/// Two runs of one strategy on one input return the same: both succeed or both
/// fail, and where they succeed their selections are one, with one tree cost and
/// one DAG cost. Of the exact solver this holds where it has no timeout.
pub proof fn law_rerun_agrees(
    strategy: Strategy,
    eg: &EGraph,
    roots: Seq<usize>,
    one: Result<ExtractionResult, ExtractError>,
    other: Result<ExtractionResult, ExtractError>,
)
    requires
        strategy.promises(eg, roots, one),
        strategy.promises(eg, roots, other),
        strategy matches Strategy::Ilp { timeout_secs } ==> timeout_secs is None,
    ensures
        one is Ok <==> other is Ok,
        one is Err ==> one->Err_0 == other->Err_0,
        one is Ok ==> {
            &&& one->Ok_0@ == other->Ok_0@
            &&& tree_cost_of(eg, one->Ok_0@, roots) == tree_cost_of(eg, other->Ok_0@, roots)
            &&& dag_cost_of(eg, one->Ok_0@, roots) == dag_cost_of(eg, other->Ok_0@, roots)
        },
{
}

/// Two runs of the exact solver that both prove their selections optimal return one
/// selection, whatever their timeouts.
pub proof fn law_exact_runs_agree(
    eg: &EGraph,
    roots: Seq<usize>,
    limit_secs: Option<u64>,
    other_limit_secs: Option<u64>,
    one: Solved,
    other: Solved,
)
    requires
        solved_outcome(eg, roots, limit_secs, Ok(one)),
        solved_outcome(eg, roots, other_limit_secs, Ok(other)),
        one.proved_optimal,
        other.proved_optimal,
    ensures
        one.result@ == other.result@,
        dag_cost_of(eg, one.result@, roots) == dag_cost_of(eg, other.result@, roots),
        tree_cost_of(eg, one.result@, roots) == tree_cost_of(eg, other.result@, roots),
{
}

} // verus!
