//! The least fixpoint of cost relaxation over an e-graph, and what holds of it.
//!
//! Every class starts at [`INFINITY`] with no chosen node. A sweep prices each
//! node of each class from the costs that the sweep before left, and moves a
//! class to a node only where that node is strictly cheaper than what the class
//! has; among equally cheap nodes of one sweep the one with the lowest index
//! wins. Sweeps that change nothing end the iteration.

use crate::cost::{Cost, INFINITY, lemma_total_monotone};
use crate::egraph::EGraph;
use crate::extract::ranking::{below, lemma_ranked_tree_cost, lemma_ranked_valid, priced, ranked};
use crate::extract::selection::{
    chosen_children, class_tree_cost, depth_table, fits, lemma_hopeless_unchosen,
    lemma_node_total_bounds, lemma_node_total_monotone, node_total, roots_chosen, Selection,
    tree_cost_of, valid,
};
use vstd::prelude::*;

verus! {

/// The costs and choices that a number of sweeps leave.
pub struct Sweep {
    pub costs: Seq<Cost>,
    pub choices: Selection,
}

/// The cost and choice of class `c` after the first `upto` nodes of the class
/// have been priced from `table`, starting from `start`.
pub open spec fn scan(
    eg: &EGraph,
    c: int,
    table: Seq<Cost>,
    upto: nat,
    start: (Cost, Option<usize>),
) -> (Cost, Option<usize>)
    decreases upto,
{
    if upto == 0 {
        start
    } else {
        let before = scan(eg, c, table, (upto - 1) as nat, start);
        let price = node_total(eg, c, upto - 1, table);
        if price < before.0 {
            (price, Some((upto - 1) as usize))
        } else {
            before
        }
    }
}

/// The cost and choice of class `c` after one sweep over what `s` holds.
pub open spec fn relax(eg: &EGraph, s: Sweep, c: int) -> (Cost, Option<usize>) {
    scan(eg, c, s.costs, eg.num_nodes(c), (s.costs[c], s.choices[c]))
}

/// What one sweep makes of `s`.
pub open spec fn next_sweep(eg: &EGraph, s: Sweep) -> Sweep {
    Sweep {
        costs: Seq::new(eg.num_classes(), |c: int| relax(eg, s, c).0),
        choices: Seq::new(eg.num_classes(), |c: int| relax(eg, s, c).1),
    }
}

/// What `rounds` sweeps leave.
pub open spec fn sweep(eg: &EGraph, rounds: nat) -> Sweep
    decreases rounds,
{
    if rounds == 0 {
        Sweep {
            costs: Seq::new(eg.num_classes(), |c: int| INFINITY),
            choices: Seq::new(eg.num_classes(), |c: int| None),
        }
    } else {
        next_sweep(eg, sweep(eg, (rounds - 1) as nat))
    }
}

/// Whether one more sweep changes nothing of `s`.
pub open spec fn at_rest(eg: &EGraph, s: Sweep) -> bool {
    next_sweep(eg, s) == s
}

/// Whether the iteration is at rest after `rounds` sweeps.
pub open spec fn rests_after(eg: &EGraph, rounds: nat) -> bool {
    at_rest(eg, sweep(eg, rounds))
}

/// Whether some number of sweeps leaves the iteration at rest.
pub open spec fn comes_to_rest(eg: &EGraph) -> bool {
    exists|rounds: nat| rests_after(eg, rounds)
}

/// The fixpoint: what the sweeps leave once they are at rest.
pub open spec fn fixpoint(eg: &EGraph) -> Sweep {
    sweep(eg, choose|rounds: nat| rests_after(eg, rounds))
}

/// What a scan returns: its start, or a strictly cheaper node with its price. It
/// is never dearer than its start nor than any node it has priced.
pub proof fn lemma_scan(
    eg: &EGraph,
    c: int,
    table: Seq<Cost>,
    upto: nat,
    start: (Cost, Option<usize>),
)
    requires
        upto <= usize::MAX,
    ensures
        ({
            let end = scan(eg, c, table, upto, start);
            &&& end.0 <= start.0
            &&& forall|i: int| 0 <= i < upto ==> end.0 <= #[trigger] node_total(eg, c, i, table)
            &&& end == start || (end.0 < start.0 && end.1 is Some && end.1.unwrap() < upto
                && end.0 == node_total(eg, c, end.1.unwrap() as int, table))
        }),
    decreases upto,
{
    if upto > 0 {
        lemma_scan(eg, c, table, (upto - 1) as nat, start);
    }
}

/// Once at rest, always at rest: later sweeps leave what the first restful sweep
/// left.
pub proof fn lemma_rest_lasts(eg: &EGraph, rounds: nat, later: nat)
    requires
        rests_after(eg, rounds),
        rounds <= later,
    ensures
        sweep(eg, later) == sweep(eg, rounds),
    decreases later,
{
    if rounds < later {
        lemma_rest_lasts(eg, rounds, (later - 1) as nat);
    }
}

/// The fixpoint is what any restful number of sweeps leaves.
pub proof fn lemma_fixpoint_is_unique(eg: &EGraph, rounds: nat)
    requires
        rests_after(eg, rounds),
    ensures
        fixpoint(eg) == sweep(eg, rounds),
{
    let other = choose|r: nat| rests_after(eg, r);
    if other <= rounds {
        lemma_rest_lasts(eg, other, rounds);
    } else {
        lemma_rest_lasts(eg, rounds, other);
    }
}

/// For each class, the last of the first `rounds` sweeps that lowered its cost;
/// zero where none did.
pub open spec fn stamps(eg: &EGraph, rounds: nat) -> Seq<nat>
    decreases rounds,
{
    if rounds == 0 {
        Seq::new(eg.num_classes(), |c: int| 0nat)
    } else {
        Seq::new(
            eg.num_classes(),
            |c: int|
                if sweep(eg, rounds).costs[c] < sweep(eg, (rounds - 1) as nat).costs[c] {
                    rounds
                } else {
                    stamps(eg, (rounds - 1) as nat)[c]
                },
        )
    }
}

/// What holds of `s` after any number of sweeps: exactly the classes of finite cost
/// have a chosen node, no class costs less than its chosen node's price, and
/// chosen nodes lead only downwards by cost and stamp.
pub open spec fn grounded(eg: &EGraph, s: Sweep, marks: Seq<nat>) -> bool {
    &&& s.costs.len() == eg.num_classes()
    &&& marks.len() == eg.num_classes()
    &&& fits(eg, s.choices)
    &&& forall|c: int|
        0 <= c < eg.num_classes() ==> ((#[trigger] s.choices[c]) is Some <==> s.costs[c]
            < INFINITY)
    &&& forall|c: int|
        0 <= c < eg.num_classes() && (#[trigger] s.choices[c]) is Some ==> node_total(
            eg,
            c,
            s.choices[c].unwrap() as int,
            s.costs,
        ) <= s.costs[c]
    &&& ranked(eg, s.choices, s.costs, marks)
}

/// How class `c` moves from `s` to `t` in one sweep: its cost does not rise, and
/// where it falls, the class moves to a node that has the new cost as its price.
pub open spec fn lowered(eg: &EGraph, s: Sweep, t: Sweep, c: int) -> bool {
    &&& t.costs[c] <= s.costs[c]
    &&& t.costs[c] == s.costs[c] ==> t.choices[c] == s.choices[c]
    &&& t.costs[c] < s.costs[c] ==> t.choices[c] is Some && t.choices[c].unwrap() < eg.num_nodes(c)
        && t.costs[c] == node_total(eg, c, t.choices[c].unwrap() as int, s.costs)
}

/// The later stamps: `now` for the classes whose cost fell from `s` to `t`.
pub open spec fn restamp(s: Sweep, t: Sweep, marks: Seq<nat>, now: nat) -> Seq<nat> {
    Seq::new(
        marks.len(),
        |c: int|
            if t.costs[c] < s.costs[c] {
                now
            } else {
                marks[c]
            },
    )
}

/// A sweep lowers every class.
pub proof fn lemma_next_lowers(eg: &EGraph, s: Sweep)
    requires
        eg.wf(),
    ensures
        next_sweep(eg, s).costs.len() == eg.num_classes(),
        next_sweep(eg, s).choices.len() == eg.num_classes(),
        forall|c: int|
            0 <= c < eg.num_classes() ==> #[trigger] lowered(eg, s, next_sweep(eg, s), c),
{
    assert forall|c: int| 0 <= c < eg.num_classes() implies #[trigger] lowered(
        eg,
        s,
        next_sweep(eg, s),
        c,
    ) by {
        lemma_scan(eg, c, s.costs, eg.num_nodes(c), (s.costs[c], s.choices[c]));
    }
}

/// After a step that lowers every class, no class costs less than its chosen node's
/// price.
proof fn lemma_step_prices(eg: &EGraph, s: Sweep, t: Sweep, marks: Seq<nat>, c: int)
    requires
        eg.wf(),
        grounded(eg, s, marks),
        t.costs.len() == eg.num_classes(),
        t.choices.len() == eg.num_classes(),
        forall|a: int| 0 <= a < eg.num_classes() ==> #[trigger] lowered(eg, s, t, a),
        0 <= c < eg.num_classes(),
        t.choices[c] is Some,
    ensures
        t.choices[c].unwrap() < eg.num_nodes(c),
        t.costs[c] < INFINITY,
        node_total(eg, c, t.choices[c].unwrap() as int, t.costs) <= t.costs[c],
{
    let i = t.choices[c].unwrap() as int;
    assert(lowered(eg, s, t, c));
    assert(s.choices[c] is Some ==> s.choices[c].unwrap() < eg.num_nodes(c));
    assert(eg.has_node(c, i));
    assert forall|j: int| 0 <= j < eg.children(c, i).len() implies t.costs[#[trigger] eg.children(
        c,
        i,
    )[j] as int] <= s.costs[eg.children(c, i)[j] as int] by {
        assert(eg.children(c, i)[j] < eg.num_classes());
        assert(lowered(eg, s, t, eg.children(c, i)[j] as int));
    }
    lemma_node_total_monotone(eg, c, i, t.costs, s.costs);
}

/// After a step that lowers every class, each child of a chosen node has a chosen
/// node and ranks below its parent.
proof fn lemma_step_ranks(
    eg: &EGraph,
    s: Sweep,
    t: Sweep,
    marks: Seq<nat>,
    now: nat,
    c: int,
    j: int,
)
    requires
        eg.wf(),
        grounded(eg, s, marks),
        t.costs.len() == eg.num_classes(),
        t.choices.len() == eg.num_classes(),
        forall|a: int| 0 <= a < eg.num_classes() ==> #[trigger] lowered(eg, s, t, a),
        forall|a: int| 0 <= a < marks.len() ==> marks[a] < now,
        0 <= c < eg.num_classes(),
        0 <= j < chosen_children(eg, t.choices, c).len(),
    ensures
        ({
            let d = chosen_children(eg, t.choices, c)[j] as int;
            &&& d < eg.num_classes()
            &&& t.costs[d] < INFINITY
            &&& below(t.costs, restamp(s, t, marks, now), d, c)
        }),
{
    let i = t.choices[c].unwrap() as int;
    let d = chosen_children(eg, t.choices, c)[j] as int;
    lemma_step_prices(eg, s, t, marks, c);
    assert(eg.has_node(c, i));
    assert(eg.children(c, i)[j] < eg.num_classes());
    assert(lowered(eg, s, t, c));
    assert(lowered(eg, s, t, d));
    if t.costs[c] < s.costs[c] {
        lemma_node_total_bounds(eg, c, i, s.costs, j);
    } else {
        assert(chosen_children(eg, s.choices, c)[j] == d);
        assert(below(s.costs, marks, d, c));
    }
}

/// One sweep keeps a grounded state grounded, where the classes it lowers are
/// stamped later than every class before.
pub proof fn lemma_sweep_step(eg: &EGraph, s: Sweep, marks: Seq<nat>, now: nat)
    requires
        eg.wf(),
        grounded(eg, s, marks),
        forall|c: int| 0 <= c < marks.len() ==> marks[c] < now,
    ensures
        grounded(eg, next_sweep(eg, s), restamp(s, next_sweep(eg, s), marks, now)),
{
    let t = next_sweep(eg, s);
    let later = restamp(s, t, marks, now);
    lemma_next_lowers(eg, s);
    assert forall|c: int| 0 <= c < eg.num_classes() implies ((#[trigger] t.choices[c]) is Some
        <==> t.costs[c] < INFINITY) by {
        assert(lowered(eg, s, t, c));
        if t.choices[c] is Some {
            lemma_step_prices(eg, s, t, marks, c);
        }
    }
    assert forall|c: int| 0 <= c < eg.num_classes() && (#[trigger] t.choices[c]) is Some implies t.choices[c].unwrap()
        < eg.num_nodes(c) && node_total(eg, c, t.choices[c].unwrap() as int, t.costs)
        <= t.costs[c] by {
        lemma_step_prices(eg, s, t, marks, c);
    }
    assert forall|c: int, j: int|
        0 <= c < t.choices.len() && 0 <= j < chosen_children(eg, t.choices, c).len() implies {
        let d = #[trigger] chosen_children(eg, t.choices, c)[j] as int;
        d < t.choices.len() && t.choices[d] is Some && below(t.costs, later, d, c)
    } by {
        lemma_step_ranks(eg, s, t, marks, now, c, j);
    }
}

/// Every number of sweeps leaves a grounded state, and no sweep raises a cost.
pub proof fn lemma_sweep_grounded(eg: &EGraph, rounds: nat)
    requires
        eg.wf(),
    ensures
        grounded(eg, sweep(eg, rounds), stamps(eg, rounds)),
        forall|c: int| 0 <= c < eg.num_classes() ==> stamps(eg, rounds)[c] <= rounds,
    decreases rounds,
{
    if rounds > 0 {
        let before = (rounds - 1) as nat;
        lemma_sweep_grounded(eg, before);
        lemma_sweep_step(eg, sweep(eg, before), stamps(eg, before), rounds);
        assert(stamps(eg, rounds) =~= restamp(
            sweep(eg, before),
            sweep(eg, rounds),
            stamps(eg, before),
            rounds,
        ));
    }
}

/// At rest, no class costs more than any of its nodes' prices, and each class with
/// a chosen node costs exactly that node's price.
pub proof fn lemma_rest_prices(eg: &EGraph, rounds: nat)
    requires
        eg.wf(),
        rests_after(eg, rounds),
    ensures
        priced(eg, sweep(eg, rounds).choices, sweep(eg, rounds).costs),
        forall|c: int, i: int| #[trigger]
            eg.has_node(c, i) ==> sweep(eg, rounds).costs[c] <= node_total(
                eg,
                c,
                i,
                sweep(eg, rounds).costs,
            ),
{
    let s = sweep(eg, rounds);
    lemma_sweep_grounded(eg, rounds);
    assert forall|c: int, i: int| #[trigger] eg.has_node(c, i) implies s.costs[c] <= node_total(
        eg,
        c,
        i,
        s.costs,
    ) by {
        lemma_scan(eg, c, s.costs, eg.num_nodes(c), (s.costs[c], s.choices[c]));
        assert(next_sweep(eg, s).costs[c] == s.costs[c]);
    }
    assert forall|c: int| 0 <= c < s.choices.len() && (#[trigger] s.choices[c]) is Some implies s.costs[c]
        < INFINITY && s.costs[c] == node_total(eg, c, s.choices[c].unwrap() as int, s.costs) by {
        assert(eg.has_node(c, s.choices[c].unwrap() as int));
    }
}

/// At rest, no class costs more than its tree cost under any selection, however
/// deep that is unfolded.
pub proof fn lemma_rest_is_least(eg: &EGraph, rounds: nat, other: Selection, depth: nat, c: int)
    requires
        eg.wf(),
        rests_after(eg, rounds),
        fits(eg, other),
        0 <= c < eg.num_classes(),
    ensures
        sweep(eg, rounds).costs[c] <= depth_table(eg, other, depth)[c],
    decreases depth,
{
    let s = sweep(eg, rounds);
    lemma_sweep_grounded(eg, rounds);
    if depth > 0 && other[c] is Some {
        let i = other[c].unwrap() as int;
        let under = depth_table(eg, other, (depth - 1) as nat);
        assert(eg.has_node(c, i));
        assert forall|j: int| 0 <= j < eg.children(c, i).len() implies s.costs[#[trigger] eg.children(
            c,
            i,
        )[j] as int] <= under[eg.children(c, i)[j] as int] by {
            assert(eg.children(c, i)[j] < eg.num_classes());
            lemma_rest_is_least(eg, rounds, other, (depth - 1) as nat, eg.children(c, i)[j] as int);
        }
        lemma_node_total_monotone(eg, c, i, s.costs, under);
        lemma_rest_prices(eg, rounds);
    }
}

/// Whether class `c` has a finite tree cost under some selection.
pub open spec fn derivable(eg: &EGraph, c: int) -> bool {
    exists|sel: Selection| fits(eg, sel) && #[trigger] class_tree_cost(eg, sel, c) < INFINITY
}

/// Whether no selection has a lower tree cost from `roots` than `sel`.
pub open spec fn tree_optimal(eg: &EGraph, sel: Selection, roots: Seq<usize>) -> bool {
    forall|other: Selection|
        fits(eg, other) ==> tree_cost_of(eg, sel, roots) <= #[trigger] tree_cost_of(
            eg,
            other,
            roots,
        )
}

/// At rest, the cost of each class is its tree cost under the choices made, and no
/// selection gives the class a lower one.
pub proof fn lemma_rest_costs(eg: &EGraph, rounds: nat, c: int)
    requires
        eg.wf(),
        rests_after(eg, rounds),
        0 <= c < eg.num_classes(),
    ensures
        class_tree_cost(eg, sweep(eg, rounds).choices, c) == sweep(eg, rounds).costs[c],
        forall|other: Selection|
            fits(eg, other) ==> sweep(eg, rounds).costs[c] <= #[trigger] class_tree_cost(
                eg,
                other,
                c,
            ),
        derivable(eg, c) <==> sweep(eg, rounds).costs[c] < INFINITY,
{
    let s = sweep(eg, rounds);
    lemma_sweep_grounded(eg, rounds);
    lemma_rest_prices(eg, rounds);
    if s.choices[c] is Some {
        lemma_ranked_tree_cost(eg, s.choices, s.costs, stamps(eg, rounds), c);
    } else {
        lemma_hopeless_unchosen(eg, s.choices, c);
    }
    assert forall|other: Selection| fits(eg, other) implies s.costs[c] <= #[trigger] class_tree_cost(
        eg,
        other,
        c,
    ) by {
        lemma_rest_is_least(eg, rounds, other, other.len(), c);
    }
    if s.costs[c] < INFINITY {
        assert(fits(eg, s.choices) && class_tree_cost(eg, s.choices, c) < INFINITY);
    }
}

/// At rest, the choices made are valid from roots of finite cost, and no selection
/// has a lower tree cost from any roots.
pub proof fn lemma_rest_selection(eg: &EGraph, rounds: nat, roots: Seq<usize>)
    requires
        eg.wf(),
        eg.has_roots(roots),
        rests_after(eg, rounds),
    ensures
        fits(eg, sweep(eg, rounds).choices),
        tree_optimal(eg, sweep(eg, rounds).choices, roots),
        roots_chosen(sweep(eg, rounds).choices, roots) ==> valid(
            eg,
            sweep(eg, rounds).choices,
            roots,
        ),
{
    let s = sweep(eg, rounds);
    lemma_sweep_grounded(eg, rounds);
    if roots_chosen(s.choices, roots) {
        lemma_ranked_valid(eg, s.choices, s.costs, stamps(eg, rounds), roots);
    }
    assert forall|other: Selection| fits(eg, other) implies tree_cost_of(eg, s.choices, roots)
        <= #[trigger] tree_cost_of(eg, other, roots) by {
        let mine = Seq::new(roots.len(), |k: int| class_tree_cost(eg, s.choices, roots[k] as int));
        let theirs = Seq::new(roots.len(), |k: int| class_tree_cost(eg, other, roots[k] as int));
        assert forall|k: int| 0 <= k < roots.len() implies mine[k] <= theirs[k] by {
            lemma_rest_costs(eg, rounds, roots[k] as int);
        }
        lemma_total_monotone(mine, theirs);
    }
}

} // verus!
