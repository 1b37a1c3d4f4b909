//! Routes through a selection, and when two cost measures meet: the tree cost pays
//! for a class once for every route to it, the DAG cost once.

use crate::cost::{
    Cost, INFINITY, lemma_total_finite, lemma_total_gap, lemma_total_join, lemma_total_monotone,
    lemma_total_raise, lemma_total_split, lemma_total_zero, plus, total,
};
use crate::egraph::EGraph;
use crate::extract::ranking::lemma_repeat;
use crate::extract::selection::{
    child_costs, chosen_children, class_tree_cost, dag_cost_of, dag_share, depth_table, edge, fits,
    is_path, leads, lemma_finite_resolved, lemma_hopeless_cycle, lemma_leads_self, lemma_subpath,
    reachable, resolved, Selection, tree_cost_of,
};
use crate::laws::{
    law_dag_cost_at_most_tree_cost, lemma_dag_below_depth, lemma_dag_cost_of_class,
    lemma_dag_cost_of_more, lemma_dag_cost_of_roots, lemma_reachable_split, single_dag_costs,
};
use vstd::prelude::*;

verus! {

/// The class at which `steps` arrive from class `from`: each step is the place of a
/// child of the node chosen for the class where the step begins.
pub open spec fn arrives(eg: &EGraph, sel: Selection, from: int, steps: Seq<int>) -> Option<int>
    decreases steps.len(),
{
    if steps.len() == 0 {
        Some(from)
    } else if 0 <= steps[0] < chosen_children(eg, sel, from).len() {
        arrives(eg, sel, chosen_children(eg, sel, from)[steps[0]] as int, steps.drop_first())
    } else {
        None
    }
}

/// Whether the route that begins at the `k`-th of `roots` and takes `steps` arrives
/// at class `x`.
pub open spec fn route_to(
    eg: &EGraph,
    sel: Selection,
    roots: Seq<usize>,
    k: int,
    steps: Seq<int>,
    x: int,
) -> bool {
    0 <= k < roots.len() && arrives(eg, sel, roots[k] as int, steps) == Some(x)
}

/// Whether two different routes from `roots` arrive at class `x`.
pub open spec fn shared(eg: &EGraph, sel: Selection, roots: Seq<usize>, x: int) -> bool {
    exists|k: int, steps: Seq<int>, l: int, others: Seq<int>|
        #![trigger route_to(eg, sel, roots, k, steps, x), route_to(eg, sel, roots, l, others, x)]
        route_to(eg, sel, roots, k, steps, x) && route_to(eg, sel, roots, l, others, x) && (k != l
            || steps != others)
}

/// Whether no class is reached from `roots` by more than one route.
pub open spec fn unshared(eg: &EGraph, sel: Selection, roots: Seq<usize>) -> bool {
    forall|x: int| !#[trigger] shared(eg, sel, roots, x)
}

/// Steps that arrive at a class, and steps that go on from there, arrive together
/// where the second arrive.
pub proof fn lemma_arrives_on(
    eg: &EGraph,
    sel: Selection,
    from: int,
    steps: Seq<int>,
    via: int,
    more: Seq<int>,
)
    requires
        arrives(eg, sel, from, steps) == Some(via),
    ensures
        arrives(eg, sel, from, steps + more) == arrives(eg, sel, via, more),
    decreases steps.len(),
{
    if steps.len() == 0 {
        assert(steps + more =~= more);
    } else {
        let next = chosen_children(eg, sel, from)[steps[0]] as int;
        lemma_arrives_on(eg, sel, next, steps.drop_first(), via, more);
        assert((steps + more).drop_first() =~= steps.drop_first() + more);
    }
}

/// Along a path there is a route.
pub proof fn lemma_path_route(eg: &EGraph, sel: Selection, p: Seq<int>) -> (steps: Seq<int>)
    requires
        is_path(eg, sel, p),
        p.len() > 0,
    ensures
        arrives(eg, sel, p[0], steps) == Some(p.last()),
        steps.len() == p.len() - 1,
    decreases p.len(),
{
    if p.len() == 1 {
        Seq::empty()
    } else {
        assert(edge(eg, sel, p[0int], p[0int + 1]));
        let j = choose|j: int|
            0 <= j < chosen_children(eg, sel, p[0]).len() && #[trigger] chosen_children(
                eg,
                sel,
                p[0],
            )[j] == p[1];
        lemma_subpath(eg, sel, p, 1, p.len() as int);
        let rest = lemma_path_route(eg, sel, p.subrange(1, p.len() as int));
        let steps = seq![j] + rest;
        assert(steps.drop_first() =~= rest);
        steps
    }
}

/// What a class leads to, a route from the class arrives at.
pub proof fn lemma_leads_route(eg: &EGraph, sel: Selection, a: int, x: int) -> (steps: Seq<int>)
    requires
        leads(eg, sel, a, x),
    ensures
        arrives(eg, sel, a, steps) == Some(x),
{
    let p = choose|p: Seq<int>| #[trigger]
        is_path(eg, sel, p) && p.len() > 0 && p[0] == a && p.last() == x;
    lemma_path_route(eg, sel, p)
}

/// Where no class is shared from `roots`, none is shared from one of them alone.
pub proof fn lemma_unshared_root(eg: &EGraph, sel: Selection, roots: Seq<usize>, k: int)
    requires
        unshared(eg, sel, roots),
        0 <= k < roots.len(),
    ensures
        unshared(eg, sel, seq![roots[k]]),
{
    let alone = seq![roots[k]];
    assert forall|x: int| !#[trigger] shared(eg, sel, alone, x) by {
        if shared(eg, sel, alone, x) {
            let (a, steps, b, others) = choose|a: int, steps: Seq<int>, b: int, others: Seq<int>|
                #![trigger route_to(eg, sel, alone, a, steps, x), route_to(eg, sel, alone, b, others, x)]
                route_to(eg, sel, alone, a, steps, x) && route_to(eg, sel, alone, b, others, x) && (
                a != b || steps != others);
            assert(route_to(eg, sel, roots, k, steps, x) && route_to(eg, sel, roots, k, others, x));
            assert(shared(eg, sel, roots, x));
        }
    }
}

/// Where no class is shared from a class, none is shared from a child of its chosen
/// node.
pub proof fn lemma_unshared_child(eg: &EGraph, sel: Selection, c: usize, j: int)
    requires
        unshared(eg, sel, seq![c]),
        0 <= j < chosen_children(eg, sel, c as int).len(),
    ensures
        unshared(eg, sel, seq![chosen_children(eg, sel, c as int)[j]]),
{
    let kid = chosen_children(eg, sel, c as int)[j];
    let alone = seq![kid];
    assert forall|x: int| !#[trigger] shared(eg, sel, alone, x) by {
        if shared(eg, sel, alone, x) {
            let (a, steps, b, others) = choose|a: int, steps: Seq<int>, b: int, others: Seq<int>|
                #![trigger route_to(eg, sel, alone, a, steps, x), route_to(eg, sel, alone, b, others, x)]
                route_to(eg, sel, alone, a, steps, x) && route_to(eg, sel, alone, b, others, x) && (
                a != b || steps != others);
            let first = seq![j] + steps;
            let second = seq![j] + others;
            assert(first.drop_first() =~= steps);
            assert(second.drop_first() =~= others);
            assert(route_to(eg, sel, seq![c], 0, first, x));
            assert(route_to(eg, sel, seq![c], 0, second, x));
            if first == second {
                assert(steps =~= others);
            }
            assert(shared(eg, sel, seq![c], x));
        }
    }
}

/// Where no class is shared from `roots`, no class is reached from two of them.
pub proof fn lemma_unshared_apart(
    eg: &EGraph,
    sel: Selection,
    roots: Seq<usize>,
    k: int,
    l: int,
    x: int,
)
    requires
        unshared(eg, sel, roots),
        0 <= k < roots.len(),
        0 <= l < roots.len(),
        k != l,
        leads(eg, sel, roots[k] as int, x),
    ensures
        !leads(eg, sel, roots[l] as int, x),
{
    if leads(eg, sel, roots[l] as int, x) {
        let steps = lemma_leads_route(eg, sel, roots[k] as int, x);
        let others = lemma_leads_route(eg, sel, roots[l] as int, x);
        assert(route_to(eg, sel, roots, k, steps, x) && route_to(eg, sel, roots, l, others, x));
        assert(shared(eg, sel, roots, x));
    }
}

/// Where no class is shared from a class, no child of its chosen node leads back to
/// it, and no two of the children lead to one class.
pub proof fn lemma_unshared_below(eg: &EGraph, sel: Selection, c: usize, j: int, x: int)
    requires
        unshared(eg, sel, seq![c]),
        0 <= j < chosen_children(eg, sel, c as int).len(),
        leads(eg, sel, chosen_children(eg, sel, c as int)[j] as int, x),
    ensures
        x != c,
        forall|h: int|
            0 <= h < chosen_children(eg, sel, c as int).len() && h != j ==> !leads(
                eg,
                sel,
                #[trigger] chosen_children(eg, sel, c as int)[h] as int,
                x,
            ),
{
    let kids = chosen_children(eg, sel, c as int);
    let steps = lemma_leads_route(eg, sel, kids[j] as int, x);
    let first = seq![j] + steps;
    assert(first.drop_first() =~= steps);
    assert(route_to(eg, sel, seq![c], 0, first, x));
    if x == c {
        assert(route_to(eg, sel, seq![c], 0, Seq::empty(), x));
        assert(first != Seq::<int>::empty());
        assert(shared(eg, sel, seq![c], x));
    }
    assert forall|h: int| 0 <= h < kids.len() && h != j implies !leads(
        eg,
        sel,
        #[trigger] chosen_children(eg, sel, c as int)[h] as int,
        x,
    ) by {
        if leads(eg, sel, kids[h] as int, x) {
            let others = lemma_leads_route(eg, sel, kids[h] as int, x);
            let second = seq![h] + others;
            assert(second.drop_first() =~= others);
            assert(route_to(eg, sel, seq![c], 0, second, x));
            assert(first[0] != second[0]);
            assert(shared(eg, sel, seq![c], x));
        }
    }
}

/// Whether no class is reached from two of `roots`.
pub open spec fn apart(eg: &EGraph, sel: Selection, roots: Seq<usize>) -> bool {
    forall|k: int, l: int, x: int|
        0 <= k < l < roots.len() && #[trigger] leads(eg, sel, roots[k] as int, x) ==> !#[trigger] leads(
            eg,
            sel,
            roots[l] as int,
            x,
        )
}

/// From roots that are apart, the DAG cost is at least the total of the DAG costs
/// from each alone.
pub proof fn lemma_dag_cost_apart(eg: &EGraph, sel: Selection, roots: Seq<usize>)
    requires
        apart(eg, sel, roots),
    ensures
        total(single_dag_costs(eg, sel, roots)) <= dag_cost_of(eg, sel, roots),
    decreases roots.len(),
{
    if roots.len() > 0 {
        let front = roots.drop_last();
        let last = seq![roots.last()];
        let whole = Seq::new(sel.len(), |c: int| dag_share(eg, sel, roots, c));
        let left = Seq::new(sel.len(), |c: int| dag_share(eg, sel, front, c));
        let right = Seq::new(sel.len(), |c: int| dag_share(eg, sel, last, c));
        assert forall|c: int| 0 <= c < whole.len() implies whole[c] >= plus(left[c], right[c]) by {
            if reachable(eg, sel, front, c) {
                let k = choose|k: int|
                    0 <= k < front.len() && leads(eg, sel, #[trigger] front[k] as int, c);
                assert(leads(eg, sel, roots[k] as int, c));
                if reachable(eg, sel, last, c) {
                    let l = choose|l: int|
                        0 <= l < last.len() && leads(eg, sel, #[trigger] last[l] as int, c);
                    assert(leads(eg, sel, roots[roots.len() - 1] as int, c));
                }
            } else if reachable(eg, sel, last, c) {
                let l = choose|l: int|
                    0 <= l < last.len() && leads(eg, sel, #[trigger] last[l] as int, c);
                assert(leads(eg, sel, roots[roots.len() - 1] as int, c));
            }
        }
        lemma_total_join(whole, left, right);
        assert(apart(eg, sel, front)) by {
            assert forall|k: int, l: int, x: int|
                0 <= k < l < front.len() && #[trigger] leads(
                    eg,
                    sel,
                    front[k] as int,
                    x,
                ) implies !#[trigger] leads(eg, sel, front[l] as int, x) by {
                assert(leads(eg, sel, roots[k] as int, x));
                assert(front[l] == roots[l]);
            }
        }
        lemma_dag_cost_apart(eg, sel, front);
        assert(single_dag_costs(eg, sel, roots).drop_last() =~= single_dag_costs(eg, sel, front));
        assert(single_dag_costs(eg, sel, roots).last() == dag_cost_of(eg, sel, last));
    }
}

/// From a class that the children of its chosen node do not lead back to, the DAG
/// cost is at least the node's own cost and the DAG cost from the children.
pub proof fn lemma_dag_cost_above(eg: &EGraph, sel: Selection, c: usize)
    requires
        c < sel.len(),
        sel[c as int] is Some,
        !reachable(eg, sel, chosen_children(eg, sel, c as int), c as int),
    ensures
        plus(
            eg.node_cost(c as int, sel[c as int].unwrap() as int),
            dag_cost_of(eg, sel, chosen_children(eg, sel, c as int)),
        ) <= dag_cost_of(eg, sel, seq![c]),
{
    let kids = chosen_children(eg, sel, c as int);
    let own = eg.node_cost(c as int, sel[c as int].unwrap() as int);
    let whole = Seq::new(sel.len(), |x: int| dag_share(eg, sel, seq![c], x));
    let zeros = Seq::new(sel.len(), |x: int| 0 as Cost);
    let left = zeros.update(c as int, own);
    let right = Seq::new(sel.len(), |x: int| dag_share(eg, sel, kids, x));
    lemma_leads_self(eg, sel, c as int);
    lemma_single_reach(eg, sel, c, c as int);
    assert forall|x: int| 0 <= x < whole.len() implies whole[x] >= plus(left[x], right[x]) by {
        if reachable(eg, sel, kids, x) {
            let j = choose|j: int|
                0 <= j < kids.len() && leads(eg, sel, #[trigger] kids[j] as int, x);
            lemma_kid_leads(eg, sel, c, j, x);
            lemma_single_reach(eg, sel, c, x);
        }
    }
    lemma_total_join(whole, left, right);
    lemma_total_zero(zeros);
    lemma_total_raise(zeros, c as int, own);
}

/// What is reachable from one class alone is what the class leads to.
pub proof fn lemma_single_reach(eg: &EGraph, sel: Selection, c: usize, x: int)
    ensures
        reachable(eg, sel, seq![c], x) <==> leads(eg, sel, c as int, x),
{
    let alone = seq![c];
    assert(alone[0] == c);
    if reachable(eg, sel, alone, x) {
        let k = choose|k: int|
            0 <= k < alone.len() && leads(eg, sel, #[trigger] alone[k] as int, x);
        assert(k == 0);
    }
    if leads(eg, sel, c as int, x) {
        assert(leads(eg, sel, alone[0] as int, x));
    }
}

/// A path from a child of a class's chosen node, with the class put before it, is a
/// path.
pub proof fn lemma_path_prepend(eg: &EGraph, sel: Selection, c: int, j: int, rest: Seq<int>)
    requires
        0 <= j < chosen_children(eg, sel, c).len(),
        is_path(eg, sel, rest),
        rest.len() > 0,
        rest[0] == chosen_children(eg, sel, c)[j],
    ensures
        is_path(eg, sel, seq![c] + rest),
{
    let p = seq![c] + rest;
    assert forall|k: int| 0 <= k < p.len() - 1 implies edge(eg, sel, #[trigger] p[k], p[k + 1]) by {
        if k == 0 {
            assert(p[1] == rest[0]);
            assert(chosen_children(eg, sel, c)[j] == rest[0]);
        } else {
            assert(p[k] == rest[k - 1] && p[k + 1] == rest[k]);
            assert(edge(eg, sel, rest[k - 1], rest[k - 1 + 1]));
        }
    }
}

/// What a child of a class's chosen node leads to, the class leads to.
pub proof fn lemma_kid_leads(eg: &EGraph, sel: Selection, c: usize, j: int, x: int)
    requires
        0 <= j < chosen_children(eg, sel, c as int).len(),
        leads(eg, sel, chosen_children(eg, sel, c as int)[j] as int, x),
    ensures
        leads(eg, sel, c as int, x),
{
    let kid = chosen_children(eg, sel, c as int)[j] as int;
    let p = choose|p: Seq<int>| #[trigger]
        is_path(eg, sel, p) && p.len() > 0 && p[0] == kid && p.last() == x;
    lemma_path_prepend(eg, sel, c as int, j, p);
    let q = seq![c as int] + p;
    assert(is_path(eg, sel, q) && q.len() > 0 && q[0] == c as int && q.last() == x);
}

/// Where all that a class reaches is resolved, all that a child of its chosen node
/// reaches is resolved.
pub proof fn lemma_resolved_child(eg: &EGraph, sel: Selection, c: usize, j: int)
    requires
        resolved(eg, sel, seq![c]),
        0 <= j < chosen_children(eg, sel, c as int).len(),
    ensures
        resolved(eg, sel, seq![chosen_children(eg, sel, c as int)[j]]),
{
    let kid = chosen_children(eg, sel, c as int)[j];
    assert forall|x: int| #[trigger] reachable(eg, sel, seq![kid], x) implies 0 <= x < sel.len()
        && sel[x] is Some by {
        lemma_single_reach(eg, sel, kid, x);
        lemma_kid_leads(eg, sel, c, j, x);
        lemma_single_reach(eg, sel, c, x);
    }
}

/// Where no class is shared from a class, the children of its chosen node are apart
/// and none leads back to the class.
pub proof fn lemma_unshared_kids(eg: &EGraph, sel: Selection, c: usize)
    requires
        unshared(eg, sel, seq![c]),
    ensures
        apart(eg, sel, chosen_children(eg, sel, c as int)),
        !reachable(eg, sel, chosen_children(eg, sel, c as int), c as int),
{
    let kids = chosen_children(eg, sel, c as int);
    assert forall|k: int, l: int, x: int|
        0 <= k < l < kids.len() && #[trigger] leads(eg, sel, kids[k] as int, x) implies !#[trigger] leads(
        eg,
        sel,
        kids[l] as int,
        x,
    ) by {
        lemma_unshared_below(eg, sel, c, k, x);
        assert(!leads(eg, sel, chosen_children(eg, sel, c as int)[l] as int, x));
    }
    if reachable(eg, sel, kids, c as int) {
        let j = choose|j: int|
            0 <= j < kids.len() && leads(eg, sel, #[trigger] kids[j] as int, c as int);
        lemma_unshared_below(eg, sel, c, j, c as int);
    }
}

/// Where the tree cost from each child of a class's chosen node, unfolded one level
/// less, is at most the DAG cost from the child, and no class is shared from the
/// class, the tree cost from the class is at most the DAG cost from it.
proof fn lemma_tree_step(eg: &EGraph, sel: Selection, c: usize, depth: nat)
    requires
        c < sel.len(),
        sel[c as int] is Some,
        depth > 0,
        unshared(eg, sel, seq![c]),
        forall|j: int|
            0 <= j < chosen_children(eg, sel, c as int).len() ==> depth_table(
                eg,
                sel,
                (depth - 1) as nat,
            )[#[trigger] chosen_children(eg, sel, c as int)[j] as int] <= dag_cost_of(
                eg,
                sel,
                seq![chosen_children(eg, sel, c as int)[j]],
            ),
    ensures
        depth_table(eg, sel, depth)[c as int] <= dag_cost_of(eg, sel, seq![c]),
{
    let i = sel[c as int].unwrap() as int;
    let kids = chosen_children(eg, sel, c as int);
    let under = depth_table(eg, sel, (depth - 1) as nat);
    let singles = single_dag_costs(eg, sel, kids);
    assert forall|j: int| 0 <= j < kids.len() implies child_costs(eg, c as int, i, under)[j]
        <= singles[j] by {
        assert(under[chosen_children(eg, sel, c as int)[j] as int] <= dag_cost_of(
            eg,
            sel,
            seq![chosen_children(eg, sel, c as int)[j]],
        ));
    }
    lemma_total_monotone(child_costs(eg, c as int, i, under), singles);
    lemma_unshared_kids(eg, sel, c);
    lemma_dag_cost_apart(eg, sel, kids);
    lemma_dag_cost_above(eg, sel, c);
}

/// From a class from which no class is shared and all are resolved, the tree cost
/// unfolded to `depth` levels is at most the DAG cost, unless a path of that many
/// steps starts at the class.
pub proof fn lemma_tree_below_dag(eg: &EGraph, sel: Selection, c: usize, depth: nat) -> (p: Seq<
    int,
>)
    requires
        eg.wf(),
        fits(eg, sel),
        c < sel.len(),
        unshared(eg, sel, seq![c]),
        resolved(eg, sel, seq![c]),
    ensures
        depth_table(eg, sel, depth)[c as int] <= dag_cost_of(eg, sel, seq![c]) || {
            &&& is_path(eg, sel, p)
            &&& p.len() == depth + 1
            &&& p[0] == c
            &&& forall|k: int| 0 <= k < p.len() ==> 0 <= #[trigger] p[k] < sel.len()
        },
    decreases depth,
{
    if depth == 0 {
        return seq![c as int];
    }
    lemma_leads_self(eg, sel, c as int);
    lemma_single_reach(eg, sel, c, c as int);
    let kids = chosen_children(eg, sel, c as int);
    let under = depth_table(eg, sel, (depth - 1) as nat);
    if exists|j: int|
        0 <= j < kids.len() && under[#[trigger] kids[j] as int] > dag_cost_of(
            eg,
            sel,
            seq![kids[j]],
        ) {
        let j = choose|j: int|
            0 <= j < kids.len() && under[#[trigger] kids[j] as int] > dag_cost_of(
                eg,
                sel,
                seq![kids[j]],
            );
        assert(eg.has_node(c as int, sel[c as int].unwrap() as int));
        assert(eg.children(c as int, sel[c as int].unwrap() as int)[j] < eg.num_classes());
        lemma_unshared_child(eg, sel, c, j);
        lemma_resolved_child(eg, sel, c, j);
        let rest = lemma_tree_below_dag(eg, sel, kids[j], (depth - 1) as nat);
        lemma_path_prepend(eg, sel, c as int, j, rest);
        let p = seq![c as int] + rest;
        assert forall|k: int| 0 <= k < p.len() implies 0 <= #[trigger] p[k] < sel.len() by {
            if k > 0 {
                assert(p[k] == rest[k - 1]);
            }
        }
        p
    } else {
        lemma_tree_step(eg, sel, c, depth);
        Seq::empty()
    }
}

/// From a class from which no class is shared and all are resolved, the tree cost
/// is at most the DAG cost.
pub proof fn lemma_unshared_class(eg: &EGraph, sel: Selection, c: usize)
    requires
        eg.wf(),
        fits(eg, sel),
        c < sel.len(),
        unshared(eg, sel, seq![c]),
        resolved(eg, sel, seq![c]),
    ensures
        class_tree_cost(eg, sel, c as int) <= dag_cost_of(eg, sel, seq![c]),
{
    let p = lemma_tree_below_dag(eg, sel, c, sel.len());
    if !(class_tree_cost(eg, sel, c as int) <= dag_cost_of(eg, sel, seq![c])) {
        let (a, b) = lemma_repeat(p, sel.len());
        lemma_subpath(eg, sel, p, 0, a + 1);
        let reach = lemma_path_route(eg, sel, p.subrange(0, a + 1));
        lemma_subpath(eg, sel, p, a, b + 1);
        let round = lemma_path_route(eg, sel, p.subrange(a, b + 1));
        assert(p.subrange(0, a + 1)[0] == p[0] && p.subrange(0, a + 1).last() == p[a]);
        assert(p.subrange(a, b + 1)[0] == p[a] && p.subrange(a, b + 1).last() == p[b]);
        lemma_arrives_on(eg, sel, c as int, reach, p[a], round);
        assert(route_to(eg, sel, seq![c], 0, reach, p[a]));
        assert(route_to(eg, sel, seq![c], 0, reach + round, p[a]));
        assert((reach + round).len() != reach.len());
        assert(shared(eg, sel, seq![c], p[a]));
    }
}

/// Where every class that the roots reach has a chosen node and none is reached by
/// more than one route, the tree cost and the DAG cost are one.
pub proof fn law_unshared_costs_meet(eg: &EGraph, sel: Selection, roots: Seq<usize>)
    requires
        eg.wf(),
        eg.has_roots(roots),
        fits(eg, sel),
        resolved(eg, sel, roots),
        unshared(eg, sel, roots),
    ensures
        tree_cost_of(eg, sel, roots) == dag_cost_of(eg, sel, roots),
{
    let trees = Seq::new(roots.len(), |k: int| class_tree_cost(eg, sel, roots[k] as int));
    let singles = single_dag_costs(eg, sel, roots);
    assert forall|k: int| 0 <= k < roots.len() implies trees[k] <= singles[k] by {
        lemma_unshared_root(eg, sel, roots, k);
        assert forall|x: int| #[trigger] reachable(eg, sel, seq![roots[k]], x) implies 0 <= x
            < sel.len() && sel[x] is Some by {
            lemma_single_reach(eg, sel, roots[k], x);
            assert(leads(eg, sel, roots[k] as int, x));
            assert(reachable(eg, sel, roots, x));
        }
        lemma_unshared_class(eg, sel, roots[k]);
    }
    lemma_total_monotone(trees, singles);
    assert(apart(eg, sel, roots)) by {
        assert forall|k: int, l: int, x: int|
            0 <= k < l < roots.len() && #[trigger] leads(
                eg,
                sel,
                roots[k] as int,
                x,
            ) implies !#[trigger] leads(eg, sel, roots[l] as int, x) by {
            lemma_unshared_apart(eg, sel, roots, k, l, x);
        }
    }
    lemma_dag_cost_apart(eg, sel, roots);
    law_dag_cost_at_most_tree_cost(eg, sel, roots);
}

/// Along a route there is a path.
pub proof fn lemma_route_path(
    eg: &EGraph,
    sel: Selection,
    from: int,
    steps: Seq<int>,
    x: int,
) -> (p: Seq<int>)
    requires
        arrives(eg, sel, from, steps) == Some(x),
    ensures
        is_path(eg, sel, p),
        p.len() == steps.len() + 1,
        p[0] == from,
        p.last() == x,
    decreases steps.len(),
{
    if steps.len() == 0 {
        seq![from]
    } else {
        let next = chosen_children(eg, sel, from)[steps[0]] as int;
        let rest = lemma_route_path(eg, sel, next, steps.drop_first(), x);
        lemma_path_prepend(eg, sel, from, steps[0], rest);
        seq![from] + rest
    }
}

/// What a route from a class arrives at, the class leads to.
pub proof fn lemma_route_leads(eg: &EGraph, sel: Selection, from: int, steps: Seq<int>, x: int)
    requires
        arrives(eg, sel, from, steps) == Some(x),
    ensures
        leads(eg, sel, from, x),
{
    let p = lemma_route_path(eg, sel, from, steps, x);
    assert(is_path(eg, sel, p) && p.len() > 0 && p[0] == from && p.last() == x);
}

/// Where two of `roots` lead to a class with a chosen node, the total of the DAG
/// costs from each root alone is above the DAG cost from all by that node's own
/// cost at least.
pub proof fn lemma_dag_cost_twice(
    eg: &EGraph,
    sel: Selection,
    roots: Seq<usize>,
    k: int,
    l: int,
    x: int,
)
    requires
        0 <= k < l < roots.len(),
        leads(eg, sel, roots[k] as int, x),
        leads(eg, sel, roots[l] as int, x),
        0 <= x < sel.len(),
        sel[x] is Some,
    ensures
        plus(dag_cost_of(eg, sel, roots), eg.node_cost(x, sel[x].unwrap() as int)) <= total(
            single_dag_costs(eg, sel, roots),
        ),
    decreases roots.len(),
{
    let own = eg.node_cost(x, sel[x].unwrap() as int);
    let front = roots.drop_last();
    let last = seq![roots.last()];
    assert(single_dag_costs(eg, sel, roots).drop_last() =~= single_dag_costs(eg, sel, front));
    assert(single_dag_costs(eg, sel, roots).last() == dag_cost_of(eg, sel, last));
    assert(front[k] == roots[k]);
    if l == roots.len() - 1 {
        let whole = Seq::new(sel.len(), |c: int| dag_share(eg, sel, roots, c));
        let zeros = Seq::new(sel.len(), |c: int| 0 as Cost);
        let unit = zeros.update(x, own);
        let more = Seq::new(sel.len(), |c: int| plus(whole[c], unit[c]));
        let left = Seq::new(sel.len(), |c: int| dag_share(eg, sel, front, c));
        let right = Seq::new(sel.len(), |c: int| dag_share(eg, sel, last, c));
        lemma_single_reach(eg, sel, roots.last(), x);
        assert(reachable(eg, sel, front, x));
        assert forall|c: int| 0 <= c < more.len() implies more[c] <= plus(left[c], right[c]) by {
            if reachable(eg, sel, roots, c) {
                lemma_reachable_split(eg, sel, roots, c);
            }
        }
        lemma_total_split(more, left, right);
        lemma_total_join(more, whole, unit);
        lemma_total_zero(zeros);
        lemma_total_raise(zeros, x, own);
        lemma_dag_cost_of_roots(eg, sel, front);
    } else {
        assert(front[l] == roots[l]);
        lemma_dag_cost_twice(eg, sel, front, k, l, x);
        lemma_dag_cost_of_more(eg, sel, roots);
    }
}

/// Where two different routes from a class of finite tree cost arrive at one class,
/// the tree cost from the first is above the DAG cost from it by the own cost of
/// the node chosen for the second at least.
pub proof fn lemma_shared_below(
    eg: &EGraph,
    sel: Selection,
    c: usize,
    depth: nat,
    steps: Seq<int>,
    others: Seq<int>,
    x: int,
)
    requires
        eg.wf(),
        fits(eg, sel),
        c < sel.len(),
        depth_table(eg, sel, depth)[c as int] < INFINITY,
        arrives(eg, sel, c as int, steps) == Some(x),
        arrives(eg, sel, c as int, others) == Some(x),
        steps != others,
        0 <= x < sel.len(),
        sel[x] is Some,
    ensures
        plus(dag_cost_of(eg, sel, seq![c]), eg.node_cost(x, sel[x].unwrap() as int))
            <= depth_table(eg, sel, depth)[c as int],
    decreases steps.len(),
{
    let own = eg.node_cost(x, sel[x].unwrap() as int);
    let i = sel[c as int].unwrap() as int;
    let kids = chosen_children(eg, sel, c as int);
    let under = depth_table(eg, sel, (depth - 1) as nat);
    let prices = child_costs(eg, c as int, i, under);
    let singles = single_dag_costs(eg, sel, kids);
    assert(eg.has_node(c as int, i));
    if steps.len() == 0 || others.len() == 0 {
        let round = if steps.len() == 0 {
            others
        } else {
            steps
        };
        assert(steps.len() == 0 ==> steps =~= Seq::empty());
        assert(others.len() == 0 ==> others =~= Seq::empty());
        let p = lemma_route_path(eg, sel, c as int, round, c as int);
        assert(is_path(eg, sel, p) && p.len() >= 2 && p[0] == c as int && p.last() == c as int);
        lemma_hopeless_cycle(eg, sel, c as int);
    } else {
        lemma_total_finite(prices);
        assert forall|j: int| 0 <= j < kids.len() implies singles[j] <= prices[j] by {
            assert(eg.children(c as int, i)[j] < eg.num_classes());
            lemma_dag_below_depth(eg, sel, kids[j], (depth - 1) as nat);
        }
        let j = steps[0];
        let h = others[0];
        assert(eg.children(c as int, i)[j] < eg.num_classes());
        if j == h {
            assert(prices[j] < INFINITY);
            if steps.drop_first() == others.drop_first() {
                assert(steps =~= seq![j] + steps.drop_first());
                assert(others =~= seq![h] + others.drop_first());
            }
            lemma_shared_below(
                eg,
                sel,
                kids[j],
                (depth - 1) as nat,
                steps.drop_first(),
                others.drop_first(),
                x,
            );
            lemma_total_gap(singles, prices, j, own);
            lemma_dag_cost_of_roots(eg, sel, kids);
        } else {
            lemma_route_leads(eg, sel, kids[j] as int, steps.drop_first(), x);
            lemma_route_leads(eg, sel, kids[h] as int, others.drop_first(), x);
            if j < h {
                lemma_dag_cost_twice(eg, sel, kids, j, h, x);
            } else {
                lemma_dag_cost_twice(eg, sel, kids, h, j, x);
            }
            lemma_total_monotone(singles, prices);
        }
        lemma_dag_cost_of_class(eg, sel, c);
    }
}

/// Where the tree cost is finite and two different routes arrive at a class whose
/// chosen node has an own cost, the DAG cost is below the tree cost.
pub proof fn law_shared_costs_part(eg: &EGraph, sel: Selection, roots: Seq<usize>, x: int)
    requires
        eg.wf(),
        eg.has_roots(roots),
        fits(eg, sel),
        tree_cost_of(eg, sel, roots) < INFINITY,
        shared(eg, sel, roots, x),
        0 <= x < sel.len(),
        sel[x] is Some,
        eg.node_cost(x, sel[x].unwrap() as int) > 0,
    ensures
        dag_cost_of(eg, sel, roots) < tree_cost_of(eg, sel, roots),
{
    let own = eg.node_cost(x, sel[x].unwrap() as int);
    let trees = Seq::new(roots.len(), |k: int| class_tree_cost(eg, sel, roots[k] as int));
    let singles = single_dag_costs(eg, sel, roots);
    let (k, steps, l, others) = choose|k: int, steps: Seq<int>, l: int, others: Seq<int>|
        #![trigger route_to(eg, sel, roots, k, steps, x), route_to(eg, sel, roots, l, others, x)]
        route_to(eg, sel, roots, k, steps, x) && route_to(eg, sel, roots, l, others, x) && (k != l
            || steps != others);
    lemma_total_finite(trees);
    assert forall|q: int| 0 <= q < roots.len() implies singles[q] <= trees[q] by {
        lemma_dag_below_depth(eg, sel, roots[q], sel.len());
    }
    if k == l {
        assert(trees[k] < INFINITY);
        lemma_shared_below(eg, sel, roots[k], sel.len(), steps, others, x);
        lemma_total_gap(singles, trees, k, own);
        lemma_dag_cost_of_roots(eg, sel, roots);
    } else {
        lemma_route_leads(eg, sel, roots[k] as int, steps, x);
        lemma_route_leads(eg, sel, roots[l] as int, others, x);
        if k < l {
            lemma_dag_cost_twice(eg, sel, roots, k, l, x);
        } else {
            lemma_dag_cost_twice(eg, sel, roots, l, k, x);
        }
        lemma_total_monotone(singles, trees);
    }
}

/// Whether the chosen node of every class reachable from `roots` has an own cost.
pub open spec fn costly(eg: &EGraph, sel: Selection, roots: Seq<usize>) -> bool {
    forall|c: int|
        #[trigger] reachable(eg, sel, roots, c) && 0 <= c < sel.len() && sel[c] is Some
            ==> eg.node_cost(c, sel[c].unwrap() as int) > 0
}

/// Where the tree cost is finite and every reachable chosen node has an own cost,
/// the DAG cost equals the tree cost if and only if no class is reached by more
/// than one route.
pub proof fn law_costs_meet_iff_unshared(eg: &EGraph, sel: Selection, roots: Seq<usize>)
    requires
        eg.wf(),
        eg.has_roots(roots),
        fits(eg, sel),
        tree_cost_of(eg, sel, roots) < INFINITY,
        costly(eg, sel, roots),
    ensures
        dag_cost_of(eg, sel, roots) == tree_cost_of(eg, sel, roots) <==> unshared(eg, sel, roots),
{
    lemma_finite_resolved(eg, sel, roots);
    if unshared(eg, sel, roots) {
        law_unshared_costs_meet(eg, sel, roots);
    } else {
        let x = choose|x: int| #[trigger] shared(eg, sel, roots, x);
        let (k, steps, l, others) = choose|k: int, steps: Seq<int>, l: int, others: Seq<int>|
            #![trigger route_to(eg, sel, roots, k, steps, x), route_to(eg, sel, roots, l, others, x)]
            route_to(eg, sel, roots, k, steps, x) && route_to(eg, sel, roots, l, others, x) && (k != l
                || steps != others);
        lemma_route_leads(eg, sel, roots[k] as int, steps, x);
        assert(reachable(eg, sel, roots, x));
        law_shared_costs_part(eg, sel, roots, x);
    }
}

} // verus!
