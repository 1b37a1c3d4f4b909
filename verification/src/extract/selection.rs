//! The mathematics of a selection: which classes it reaches, when it is valid, and
//! what it costs.

use crate::cost::{Cost, INFINITY, lemma_total_bounds_term, lemma_total_monotone, plus, total};
use crate::egraph::EGraph;
use vstd::prelude::*;

verus! {

/// A selection: for each class, the member node chosen for it, if any.
pub type Selection = Seq<Option<usize>>;

/// Whether `sel` has one entry per class of `eg`, each naming a node of its class.
pub open spec fn fits(eg: &EGraph, sel: Selection) -> bool {
    &&& sel.len() == eg.num_classes()
    &&& forall|c: int|
        0 <= c < sel.len() && (#[trigger] sel[c]) is Some ==> sel[c].unwrap() < eg.num_nodes(c)
}

/// The children of the node chosen for class `c`; none where no node is chosen.
pub open spec fn chosen_children(eg: &EGraph, sel: Selection, c: int) -> Seq<usize> {
    if 0 <= c < sel.len() && sel[c] is Some {
        eg.children(c, sel[c].unwrap() as int)
    } else {
        Seq::empty()
    }
}

/// Whether `b` is a child of the node chosen for `a`.
pub open spec fn edge(eg: &EGraph, sel: Selection, a: int, b: int) -> bool {
    exists|j: int|
        0 <= j < chosen_children(eg, sel, a).len() && #[trigger] chosen_children(eg, sel, a)[j]
            == b
}

/// Whether each class of `p` but the first is a child of the node chosen for the
/// class before it.
pub open spec fn is_path(eg: &EGraph, sel: Selection, p: Seq<int>) -> bool {
    forall|k: int| 0 <= k < p.len() - 1 ==> edge(eg, sel, #[trigger] p[k], p[k + 1])
}

/// Whether following chosen nodes' children from `a` arrives at `b`, in no step or
/// more.
pub open spec fn leads(eg: &EGraph, sel: Selection, a: int, b: int) -> bool {
    exists|p: Seq<int>| #[trigger]
        is_path(eg, sel, p) && p.len() > 0 && p[0] == a && p.last() == b
}

/// Whether `c` is one of `roots` or is reached from one by following chosen nodes'
/// children.
pub open spec fn reachable(eg: &EGraph, sel: Selection, roots: Seq<usize>, c: int) -> bool {
    exists|k: int| 0 <= k < roots.len() && leads(eg, sel, #[trigger] roots[k] as int, c)
}

/// Whether following chosen nodes' children from `c` returns to `c`, in one step or
/// more.
pub open spec fn on_cycle(eg: &EGraph, sel: Selection, c: int) -> bool {
    exists|p: Seq<int>| #[trigger]
        is_path(eg, sel, p) && p.len() >= 2 && p[0] == c && p.last() == c
}

/// Whether every class of `roots` has a chosen node.
pub open spec fn roots_chosen(sel: Selection, roots: Seq<usize>) -> bool {
    forall|k: int| 0 <= k < roots.len() ==> sel[#[trigger] roots[k] as int] is Some
}

/// Whether every class reachable from `roots` has a chosen node.
pub open spec fn resolved(eg: &EGraph, sel: Selection, roots: Seq<usize>) -> bool {
    forall|c: int| #[trigger]
        reachable(eg, sel, roots, c) ==> 0 <= c < sel.len() && sel[c] is Some
}

/// Whether no class reachable from `roots` lies on a cycle of chosen nodes.
pub open spec fn acyclic(eg: &EGraph, sel: Selection, roots: Seq<usize>) -> bool {
    forall|c: int| #[trigger] reachable(eg, sel, roots, c) ==> !on_cycle(eg, sel, c)
}

/// A valid selection: from `roots` on it is fully resolved and free of cycles.
pub open spec fn valid(eg: &EGraph, sel: Selection, roots: Seq<usize>) -> bool {
    resolved(eg, sel, roots) && acyclic(eg, sel, roots)
}

/// The cost of each child of node `i` of class `c`, looked up in `table`.
pub open spec fn child_costs(eg: &EGraph, c: int, i: int, table: Seq<Cost>) -> Seq<Cost> {
    Seq::new(eg.children(c, i).len(), |j: int| table[eg.children(c, i)[j] as int])
}

/// The cost of node `i` of class `c` where `table` gives the cost of each class:
/// its own cost and the cost of each child, once per occurrence.
pub open spec fn node_total(eg: &EGraph, c: int, i: int, table: Seq<Cost>) -> Cost {
    plus(eg.node_cost(c, i), total(child_costs(eg, c, i, table)))
}

/// The tree cost of each class under `sel`, unfolded to at most `depth` levels:
/// [`INFINITY`] where a class has no chosen node or the unfolding is cut off.
pub open spec fn depth_table(eg: &EGraph, sel: Selection, depth: nat) -> Seq<Cost>
    decreases depth,
{
    if depth == 0 {
        Seq::new(sel.len(), |c: int| INFINITY)
    } else {
        Seq::new(
            sel.len(),
            |c: int|
                match sel[c] {
                    Some(i) => node_total(eg, c, i as int, depth_table(eg, sel, (depth - 1) as nat)),
                    None => INFINITY,
                },
        )
    }
}

/// The tree cost of class `c` under `sel`: each occurrence of shared structure is
/// paid for. It is [`INFINITY`] where the class is unresolved, leads to an
/// unresolved class or to a cycle. No valid selection is deeper than the number
/// of classes, which therefore bounds the unfolding.
pub open spec fn class_tree_cost(eg: &EGraph, sel: Selection, c: int) -> Cost {
    depth_table(eg, sel, sel.len())[c]
}

/// The tree cost of `sel` from `roots`: the total of the roots' tree costs.
pub open spec fn tree_cost_of(eg: &EGraph, sel: Selection, roots: Seq<usize>) -> Cost {
    total(Seq::new(roots.len(), |k: int| class_tree_cost(eg, sel, roots[k] as int)))
}

/// What class `c` adds to the DAG cost: the own cost of its chosen node if it is
/// reachable from `roots`, nothing otherwise.
pub open spec fn dag_share(eg: &EGraph, sel: Selection, roots: Seq<usize>, c: int) -> Cost {
    if reachable(eg, sel, roots, c) && sel[c] is Some {
        eg.node_cost(c, sel[c].unwrap() as int)
    } else {
        0
    }
}

/// The DAG cost of `sel` from `roots`: the own costs of the chosen nodes of the
/// reachable classes, each counted once.
pub open spec fn dag_cost_of(eg: &EGraph, sel: Selection, roots: Seq<usize>) -> Cost {
    total(Seq::new(sel.len(), |c: int| dag_share(eg, sel, roots, c)))
}

/// Every class leads to itself.
pub proof fn lemma_leads_self(eg: &EGraph, sel: Selection, a: int)
    ensures
        leads(eg, sel, a, a),
{
    let p = seq![a];
    assert(is_path(eg, sel, p) && p.len() > 0 && p[0] == a && p.last() == a);
}

/// A path with one more edge at its end is a path.
pub proof fn lemma_path_push(eg: &EGraph, sel: Selection, p: Seq<int>, b: int)
    requires
        is_path(eg, sel, p),
        p.len() > 0,
        edge(eg, sel, p.last(), b),
    ensures
        is_path(eg, sel, p.push(b)),
{
    let q = p.push(b);
    assert forall|k: int| 0 <= k < q.len() - 1 implies edge(eg, sel, #[trigger] q[k], q[k + 1]) by {
        if k < p.len() - 1 {
            assert(q[k] == p[k] && q[k + 1] == p[k + 1]);
        }
    }
}

/// What leads to a class leads to its chosen node's children.
pub proof fn lemma_leads_step(eg: &EGraph, sel: Selection, a: int, b: int, c: int)
    requires
        leads(eg, sel, a, b),
        edge(eg, sel, b, c),
    ensures
        leads(eg, sel, a, c),
{
    let p = choose|p: Seq<int>| #[trigger]
        is_path(eg, sel, p) && p.len() > 0 && p[0] == a && p.last() == b;
    lemma_path_push(eg, sel, p, c);
    let q = p.push(c);
    assert(is_path(eg, sel, q) && q.len() > 0 && q[0] == a && q.last() == c);
}

/// The children of a reachable class's chosen node are reachable.
pub proof fn lemma_reachable_step(eg: &EGraph, sel: Selection, roots: Seq<usize>, b: int, c: int)
    requires
        reachable(eg, sel, roots, b),
        edge(eg, sel, b, c),
    ensures
        reachable(eg, sel, roots, c),
{
    let k = choose|k: int| 0 <= k < roots.len() && leads(eg, sel, #[trigger] roots[k] as int, b);
    lemma_leads_step(eg, sel, roots[k] as int, b, c);
}

/// Every root is reachable.
pub proof fn lemma_root_reachable(eg: &EGraph, sel: Selection, roots: Seq<usize>, k: int)
    requires
        0 <= k < roots.len(),
    ensures
        reachable(eg, sel, roots, roots[k] as int),
{
    lemma_leads_self(eg, sel, roots[k] as int);
}

/// A part of a path is a path.
pub proof fn lemma_subpath(eg: &EGraph, sel: Selection, p: Seq<int>, from: int, to: int)
    requires
        is_path(eg, sel, p),
        0 <= from <= to <= p.len(),
    ensures
        is_path(eg, sel, p.subrange(from, to)),
{
    let q = p.subrange(from, to);
    assert forall|k: int| 0 <= k < q.len() - 1 implies edge(eg, sel, #[trigger] q[k], q[k + 1]) by {
        assert(q[k] == p[from + k] && q[k + 1] == p[from + k + 1]);
    }
}

/// Whether the tree cost of class `c` is infinite however deep it is unfolded.
pub open spec fn hopeless(eg: &EGraph, sel: Selection, c: int) -> bool {
    forall|depth: nat| #[trigger] depth_table(eg, sel, depth)[c] == INFINITY
}

/// Whether unfolding class `c` to `from` levels or more always gives `cost`.
pub open spec fn settles(eg: &EGraph, sel: Selection, c: int, from: nat, cost: Cost) -> bool {
    forall|depth: nat| depth >= from ==> #[trigger] depth_table(eg, sel, depth)[c] == cost
}

/// Where the cost of each child of a class's chosen node settles at `from` levels
/// on what `table` holds for it, the cost of the class settles one level later on
/// what `table` gives its chosen node.
pub proof fn lemma_settles_parent(
    eg: &EGraph,
    sel: Selection,
    c: int,
    from: nat,
    table: Seq<Cost>,
)
    requires
        0 <= c < sel.len(),
        sel[c] is Some,
        forall|j: int|
            0 <= j < chosen_children(eg, sel, c).len() ==> settles(
                eg,
                sel,
                #[trigger] chosen_children(eg, sel, c)[j] as int,
                from,
                table[chosen_children(eg, sel, c)[j] as int],
            ),
    ensures
        settles(eg, sel, c, from + 1, node_total(eg, c, sel[c].unwrap() as int, table)),
{
    let i = sel[c].unwrap() as int;
    assert forall|depth: nat| depth >= from + 1 implies #[trigger] depth_table(eg, sel, depth)[c]
        == node_total(eg, c, i, table) by {
        let below = depth_table(eg, sel, (depth - 1) as nat);
        assert forall|j: int| 0 <= j < eg.children(c, i).len() implies table[#[trigger] eg.children(
            c,
            i,
        )[j] as int] == below[eg.children(c, i)[j] as int] by {
            let d = chosen_children(eg, sel, c)[j] as int;
            assert(settles(eg, sel, d, from, table[d]));
        }
        lemma_node_total_agrees(eg, c, i, table, below);
    }
}

/// Two tables that agree on the children of a node give it the same cost.
pub proof fn lemma_node_total_agrees(eg: &EGraph, c: int, i: int, one: Seq<Cost>, other: Seq<Cost>)
    requires
        forall|j: int|
            0 <= j < eg.children(c, i).len() ==> one[#[trigger] eg.children(c, i)[j] as int]
                == other[eg.children(c, i)[j] as int],
    ensures
        node_total(eg, c, i, one) == node_total(eg, c, i, other),
{
    assert(child_costs(eg, c, i, one) =~= child_costs(eg, c, i, other));
}

/// A table that is nowhere below another gives no node a lower cost.
pub proof fn lemma_node_total_monotone(
    eg: &EGraph,
    c: int,
    i: int,
    low: Seq<Cost>,
    high: Seq<Cost>,
)
    requires
        forall|j: int|
            0 <= j < eg.children(c, i).len() ==> low[#[trigger] eg.children(c, i)[j] as int]
                <= high[eg.children(c, i)[j] as int],
    ensures
        node_total(eg, c, i, low) <= node_total(eg, c, i, high),
{
    lemma_total_monotone(child_costs(eg, c, i, low), child_costs(eg, c, i, high));
}

/// A node costs at least as much as each of its children, and at least its own cost.
pub proof fn lemma_node_total_bounds(eg: &EGraph, c: int, i: int, table: Seq<Cost>, j: int)
    requires
        0 <= j < eg.children(c, i).len(),
    ensures
        table[eg.children(c, i)[j] as int] <= node_total(eg, c, i, table),
        table[eg.children(c, i)[j] as int] == INFINITY ==> node_total(eg, c, i, table)
            == INFINITY,
{
    lemma_total_bounds_term(child_costs(eg, c, i, table), j);
}

/// A class without a chosen node is hopeless.
pub proof fn lemma_hopeless_unchosen(eg: &EGraph, sel: Selection, c: int)
    requires
        0 <= c < sel.len(),
        sel[c] is None,
    ensures
        hopeless(eg, sel, c),
{
    assert forall|depth: nat| #[trigger] depth_table(eg, sel, depth)[c] == INFINITY by {}
}

/// A class whose chosen node has a hopeless child is hopeless.
pub proof fn lemma_hopeless_parent(eg: &EGraph, sel: Selection, a: int, b: int)
    requires
        edge(eg, sel, a, b),
        hopeless(eg, sel, b),
    ensures
        hopeless(eg, sel, a),
{
    assert forall|depth: nat| #[trigger] depth_table(eg, sel, depth)[a] == INFINITY by {
        if depth > 0 {
            let j = choose|j: int|
                0 <= j < chosen_children(eg, sel, a).len() && #[trigger] chosen_children(
                    eg,
                    sel,
                    a,
                )[j] == b;
            let below = depth_table(eg, sel, (depth - 1) as nat);
            assert(below[b] == INFINITY);
            lemma_node_total_bounds(eg, a, sel[a].unwrap() as int, below, j);
        }
    }
}

/// Every class on a path to a hopeless class is hopeless.
pub proof fn lemma_hopeless_path(eg: &EGraph, sel: Selection, p: Seq<int>, k: int)
    requires
        is_path(eg, sel, p),
        0 <= k < p.len(),
        hopeless(eg, sel, p.last()),
    ensures
        hopeless(eg, sel, p[k]),
    decreases p.len() - k,
{
    if k < p.len() - 1 {
        lemma_hopeless_path(eg, sel, p, k + 1);
        assert(edge(eg, sel, p[k], p[k + 1]));
        lemma_hopeless_parent(eg, sel, p[k], p[k + 1]);
    }
}

/// Unfolded to any depth, every class on a cycle has an infinite tree cost.
proof fn lemma_cycle_at_depth(eg: &EGraph, sel: Selection, p: Seq<int>, depth: nat, k: int)
    requires
        is_path(eg, sel, p),
        p.len() >= 2,
        p[0] == p.last(),
        0 <= k < p.len(),
    ensures
        depth_table(eg, sel, depth)[p[k]] == INFINITY,
    decreases depth, (if k == p.len() - 1 { 1nat } else { 0nat }),
{
    if k == p.len() - 1 {
        lemma_cycle_at_depth(eg, sel, p, depth, 0);
    } else {
        assert(edge(eg, sel, p[k], p[k + 1]));
        if depth > 0 {
            let j = choose|j: int|
                0 <= j < chosen_children(eg, sel, p[k]).len() && #[trigger] chosen_children(
                    eg,
                    sel,
                    p[k],
                )[j] == p[k + 1];
            let below = depth_table(eg, sel, (depth - 1) as nat);
            lemma_cycle_at_depth(eg, sel, p, (depth - 1) as nat, k + 1);
            lemma_node_total_bounds(eg, p[k], sel[p[k]].unwrap() as int, below, j);
        }
    }
}

/// A class on a cycle is hopeless.
pub proof fn lemma_hopeless_cycle(eg: &EGraph, sel: Selection, c: int)
    requires
        on_cycle(eg, sel, c),
    ensures
        hopeless(eg, sel, c),
{
    let p = choose|p: Seq<int>| #[trigger]
        is_path(eg, sel, p) && p.len() >= 2 && p[0] == c && p.last() == c;
    assert forall|depth: nat| #[trigger] depth_table(eg, sel, depth)[c] == INFINITY by {
        lemma_cycle_at_depth(eg, sel, p, depth, 0);
    }
}

/// Where a reachable class is hopeless, the tree cost from the roots is infinite.
pub proof fn lemma_hopeless_tree_cost(eg: &EGraph, sel: Selection, roots: Seq<usize>, c: int)
    requires
        reachable(eg, sel, roots, c),
        hopeless(eg, sel, c),
    ensures
        tree_cost_of(eg, sel, roots) == INFINITY,
{
    let k = choose|k: int| 0 <= k < roots.len() && leads(eg, sel, #[trigger] roots[k] as int, c);
    let p = choose|p: Seq<int>| #[trigger]
        is_path(eg, sel, p) && p.len() > 0 && p[0] == roots[k] as int && p.last() == c;
    lemma_hopeless_path(eg, sel, p, 0);
    let terms = Seq::new(roots.len(), |q: int| class_tree_cost(eg, sel, roots[q] as int));
    assert(terms[k] == depth_table(eg, sel, sel.len())[roots[k] as int]);
    lemma_total_bounds_term(terms, k);
}

/// Every class on a path that starts at a class of the graph is a class of the
/// graph.
pub proof fn lemma_path_in_graph(eg: &EGraph, sel: Selection, p: Seq<int>, k: int)
    requires
        eg.wf(),
        fits(eg, sel),
        is_path(eg, sel, p),
        0 <= k < p.len(),
        0 <= p[0] < sel.len(),
    ensures
        0 <= p[k] < sel.len(),
    decreases k,
{
    if k > 0 {
        lemma_path_in_graph(eg, sel, p, k - 1);
        let a = p[k - 1];
        assert(edge(eg, sel, a, p[k]));
        let j = choose|j: int|
            0 <= j < chosen_children(eg, sel, a).len() && #[trigger] chosen_children(eg, sel, a)[j]
                == p[k];
        assert(eg.has_node(a, sel[a].unwrap() as int));
        assert(eg.children(a, sel[a].unwrap() as int)[j] < eg.num_classes());
    }
}

/// A selection of finite tree cost is resolved.
pub proof fn lemma_finite_resolved(eg: &EGraph, sel: Selection, roots: Seq<usize>)
    requires
        eg.wf(),
        eg.has_roots(roots),
        fits(eg, sel),
        tree_cost_of(eg, sel, roots) < INFINITY,
    ensures
        resolved(eg, sel, roots),
{
    assert forall|c: int| #[trigger] reachable(eg, sel, roots, c) implies 0 <= c < sel.len()
        && sel[c] is Some by {
        let k = choose|k: int| 0 <= k < roots.len() && leads(eg, sel, #[trigger] roots[k] as int, c);
        let p = choose|p: Seq<int>| #[trigger]
            is_path(eg, sel, p) && p.len() > 0 && p[0] == roots[k] as int && p.last() == c;
        lemma_path_in_graph(eg, sel, p, p.len() - 1);
        if sel[c] is None {
            lemma_hopeless_unchosen(eg, sel, c);
            lemma_hopeless_tree_cost(eg, sel, roots, c);
        }
    }
}

} // verus!
