//! Selections whose chosen nodes lead only downwards in some order of the classes.
//! Such a selection is closed under its edges and free of cycles, and the tree cost
//! of its classes is what its nodes' prices add up to.

use crate::cost::{Cost, INFINITY};
use crate::egraph::EGraph;
use crate::extract::selection::{
    chosen_children, class_tree_cost, depth_table, edge, is_path, leads, lemma_node_total_agrees,
    lemma_node_total_bounds, lemma_subpath, node_total, on_cycle, reachable, roots_chosen,
    Selection, valid,
};
use vstd::prelude::*;
use vstd::set_lib::{lemma_int_range, lemma_len_subset, set_int_range};

verus! {

/// Whether class `d` ranks below class `c`: by cost, and among equal costs by
/// stamp.
pub open spec fn below(costs: Seq<Cost>, stamps: Seq<nat>, d: int, c: int) -> bool {
    costs[d] < costs[c] || (costs[d] == costs[c] && stamps[d] < stamps[c])
}

/// Whether every child of every chosen node has a chosen node itself and ranks
/// below its parent.
pub open spec fn ranked(eg: &EGraph, sel: Selection, costs: Seq<Cost>, stamps: Seq<nat>) -> bool {
    forall|c: int, j: int|
        0 <= c < sel.len() && 0 <= j < chosen_children(eg, sel, c).len() ==> {
            let d = #[trigger] chosen_children(eg, sel, c)[j] as int;
            d < sel.len() && sel[d] is Some && below(costs, stamps, d, c)
        }
}

/// Whether `costs` holds, for each class with a chosen node, the finite price of
/// that node.
pub open spec fn priced(eg: &EGraph, sel: Selection, costs: Seq<Cost>) -> bool {
    forall|c: int|
        0 <= c < sel.len() && (#[trigger] sel[c]) is Some ==> costs[c] < INFINITY && costs[c]
            == node_total(eg, c, sel[c].unwrap() as int, costs)
}

/// Along a path in a ranked selection every class has a chosen node and ranks
/// below the first.
pub proof fn lemma_ranked_path(
    eg: &EGraph,
    sel: Selection,
    costs: Seq<Cost>,
    stamps: Seq<nat>,
    p: Seq<int>,
    k: int,
)
    requires
        ranked(eg, sel, costs, stamps),
        is_path(eg, sel, p),
        0 <= k < p.len(),
        0 <= p[0] < sel.len(),
        sel[p[0]] is Some,
    ensures
        0 <= p[k] < sel.len(),
        sel[p[k]] is Some,
        k > 0 ==> below(costs, stamps, p[k], p[0]),
    decreases k,
{
    if k > 0 {
        lemma_ranked_path(eg, sel, costs, stamps, p, k - 1);
        let a = p[k - 1];
        assert(edge(eg, sel, a, p[k]));
        let j = choose|j: int|
            0 <= j < chosen_children(eg, sel, a).len() && #[trigger] chosen_children(eg, sel, a)[j]
                == p[k];
        assert(below(costs, stamps, chosen_children(eg, sel, a)[j] as int, a));
    }
}

/// A ranked selection is valid from roots that have chosen nodes.
pub proof fn lemma_ranked_valid(
    eg: &EGraph,
    sel: Selection,
    costs: Seq<Cost>,
    stamps: Seq<nat>,
    roots: Seq<usize>,
)
    requires
        ranked(eg, sel, costs, stamps),
        roots_chosen(sel, roots),
        forall|k: int| 0 <= k < roots.len() ==> (#[trigger] roots[k]) < sel.len(),
    ensures
        valid(eg, sel, roots),
        forall|c: int| 0 <= c < sel.len() && sel[c] is Some ==> !on_cycle(eg, sel, c),
{
    assert forall|c: int| #[trigger] reachable(eg, sel, roots, c) implies 0 <= c < sel.len()
        && sel[c] is Some by {
        let k = choose|k: int|
            0 <= k < roots.len() && leads(eg, sel, #[trigger] roots[k] as int, c);
        let p = choose|p: Seq<int>| #[trigger]
            is_path(eg, sel, p) && p.len() > 0 && p[0] == roots[k] as int && p.last() == c;
        lemma_ranked_path(eg, sel, costs, stamps, p, p.len() - 1);
    }
    assert forall|c: int| 0 <= c < sel.len() && sel[c] is Some implies !on_cycle(eg, sel, c) by {
        if on_cycle(eg, sel, c) {
            let p = choose|p: Seq<int>| #[trigger]
                is_path(eg, sel, p) && p.len() >= 2 && p[0] == c && p.last() == c;
            lemma_ranked_path(eg, sel, costs, stamps, p, p.len() - 1);
        }
    }
}

/// More classes than there are cannot stand in a row without one standing twice.
pub proof fn lemma_repeat(p: Seq<int>, n: nat) -> (at: (int, int))
    requires
        p.len() > n,
        forall|k: int| 0 <= k < p.len() ==> 0 <= #[trigger] p[k] < n,
    ensures
        0 <= at.0 < at.1 < p.len(),
        p[at.0] == p[at.1],
{
    if p.no_duplicates() {
        p.unique_seq_to_set();
        lemma_int_range(0, n as int);
        assert(p.to_set().subset_of(set_int_range(0, n as int))) by {
            assert forall|x: int| p.to_set().contains(x) implies set_int_range(
                0,
                n as int,
            ).contains(x) by {
                let k = choose|k: int| 0 <= k < p.len() && p[k] == x;
                assert(0 <= p[k] < n);
            }
        }
        lemma_len_subset(p.to_set(), set_int_range(0, n as int));
        (0, 0)
    } else {
        let (i, j) = choose|i: int, j: int|
            0 <= i < p.len() && 0 <= j < p.len() && i != j && p[i] == p[j];
        if i < j {
            (i, j)
        } else {
            (j, i)
        }
    }
}

/// Unfolded to any depth, the tree cost of a class in a priced selection is its
/// price, or infinite.
pub proof fn lemma_price_or_cut(
    eg: &EGraph,
    sel: Selection,
    costs: Seq<Cost>,
    stamps: Seq<nat>,
    depth: nat,
    c: int,
)
    requires
        ranked(eg, sel, costs, stamps),
        priced(eg, sel, costs),
        0 <= c < sel.len(),
        sel[c] is Some,
    ensures
        depth_table(eg, sel, depth)[c] == costs[c] || depth_table(eg, sel, depth)[c] == INFINITY,
        depth > 0 && depth_table(eg, sel, depth)[c] == INFINITY ==> exists|j: int|
            0 <= j < chosen_children(eg, sel, c).len() && depth_table(
                eg,
                sel,
                (depth - 1) as nat,
            )[#[trigger] chosen_children(eg, sel, c)[j] as int] != costs[chosen_children(
                eg,
                sel,
                c,
            )[j] as int],
    decreases depth,
{
    if depth > 0 {
        let i = sel[c].unwrap() as int;
        let under = depth_table(eg, sel, (depth - 1) as nat);
        if forall|j: int|
            0 <= j < eg.children(c, i).len() ==> under[#[trigger] eg.children(c, i)[j] as int]
                == costs[eg.children(c, i)[j] as int] {
            lemma_node_total_agrees(eg, c, i, under, costs);
        } else {
            let j = choose|j: int|
                0 <= j < eg.children(c, i).len() && under[#[trigger] eg.children(c, i)[j] as int]
                    != costs[eg.children(c, i)[j] as int];
            let d = chosen_children(eg, sel, c)[j] as int;
            assert(d == eg.children(c, i)[j]);
            lemma_price_or_cut(eg, sel, costs, stamps, (depth - 1) as nat, d);
            lemma_node_total_bounds(eg, c, i, under, j);
        }
    }
}

/// Where the unfolding of a class in a ranked and priced selection is cut off at
/// some depth, a path of that many steps starts at the class.
pub proof fn lemma_cut_path(
    eg: &EGraph,
    sel: Selection,
    costs: Seq<Cost>,
    stamps: Seq<nat>,
    depth: nat,
    c: int,
) -> (p: Seq<int>)
    requires
        ranked(eg, sel, costs, stamps),
        priced(eg, sel, costs),
        0 <= c < sel.len(),
        sel[c] is Some,
        depth_table(eg, sel, depth)[c] != costs[c],
    ensures
        is_path(eg, sel, p),
        p.len() == depth + 1,
        p[0] == c,
        forall|k: int| 0 <= k < p.len() ==> 0 <= #[trigger] p[k] < sel.len(),
    decreases depth,
{
    if depth == 0 {
        seq![c]
    } else {
        lemma_price_or_cut(eg, sel, costs, stamps, depth, c);
        let j = choose|j: int|
            0 <= j < chosen_children(eg, sel, c).len() && depth_table(
                eg,
                sel,
                (depth - 1) as nat,
            )[#[trigger] chosen_children(eg, sel, c)[j] as int] != costs[chosen_children(
                eg,
                sel,
                c,
            )[j] as int];
        let d = chosen_children(eg, sel, c)[j] as int;
        let rest = lemma_cut_path(eg, sel, costs, stamps, (depth - 1) as nat, d);
        let p = seq![c] + rest;
        assert forall|k: int| 0 <= k < p.len() - 1 implies edge(eg, sel, #[trigger] p[k], p[k + 1]) by {
            if k == 0 {
                assert(p[1] == rest[0]);
            } else {
                assert(p[k] == rest[k - 1] && p[k + 1] == rest[k]);
                assert(edge(eg, sel, rest[k - 1], rest[k - 1 + 1]));
            }
        }
        assert forall|k: int| 0 <= k < p.len() implies 0 <= #[trigger] p[k] < sel.len() by {
            if k > 0 {
                assert(p[k] == rest[k - 1]);
            }
        }
        p
    }
}

/// The tree cost of each class with a chosen node in a ranked and priced selection
/// is its price.
pub proof fn lemma_ranked_tree_cost(
    eg: &EGraph,
    sel: Selection,
    costs: Seq<Cost>,
    stamps: Seq<nat>,
    c: int,
)
    requires
        ranked(eg, sel, costs, stamps),
        priced(eg, sel, costs),
        0 <= c < sel.len(),
        sel[c] is Some,
    ensures
        class_tree_cost(eg, sel, c) == costs[c],
{
    if depth_table(eg, sel, sel.len())[c] != costs[c] {
        let p = lemma_cut_path(eg, sel, costs, stamps, sel.len(), c);
        let (a, b) = lemma_repeat(p, sel.len());
        lemma_subpath(eg, sel, p, a, b + 1);
        let round = p.subrange(a, b + 1);
        lemma_ranked_path(eg, sel, costs, stamps, p, a);
        assert(round[0] == p[a]);
        lemma_ranked_path(eg, sel, costs, stamps, round, round.len() - 1);
    }
}

} // verus!
