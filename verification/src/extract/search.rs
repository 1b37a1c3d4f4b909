//! The search for a valid selection of least DAG cost, as mathematics: what the
//! search has decided, what it has still to decide, what it finds, and why what it
//! finds is least.

use crate::cost::{
    lemma_total_monotone, lemma_total_raise, lemma_total_zero, plus, total, Cost,
};
use crate::egraph::EGraph;
use crate::extract::ranking::lemma_repeat;
use crate::extract::selection::{
    chosen_children, dag_cost_of, dag_share, edge, fits, is_path, leads, lemma_reachable_step,
    lemma_root_reachable, on_cycle, reachable, resolved, valid, Selection,
};
use vstd::prelude::*;

verus! {

/// Whether `full` chooses what `partial` chooses, wherever `partial` chooses.
pub open spec fn agrees(partial: Selection, full: Selection) -> bool {
    &&& partial.len() == full.len()
    &&& forall|c: int|
        0 <= c < partial.len() && (#[trigger] partial[c]) is Some ==> full[c] == partial[c]
}

/// The own cost of the node chosen for class `c`; nothing where none is chosen.
pub open spec fn own_cost(eg: &EGraph, sel: Selection, c: int) -> Cost {
    match sel[c] {
        Some(i) => eg.node_cost(c, i as int),
        None => 0,
    }
}

/// The own costs of all chosen nodes of `sel` together.
pub open spec fn spent_on(eg: &EGraph, sel: Selection) -> Cost {
    total(Seq::new(sel.len(), |c: int| own_cost(eg, sel, c)))
}

/// Whether no valid selection has a lower DAG cost from `roots` than `sel`.
pub open spec fn dag_optimal(eg: &EGraph, sel: Selection, roots: Seq<usize>) -> bool {
    forall|other: Selection|
        fits(eg, other) && #[trigger] valid(eg, other, roots) ==> dag_cost_of(eg, sel, roots)
            <= dag_cost_of(eg, other, roots)
}

/// Whether some selection is valid from `roots`.
pub open spec fn solvable(eg: &EGraph, roots: Seq<usize>) -> bool {
    exists|sel: Selection| fits(eg, sel) && #[trigger] valid(eg, sel, roots)
}

/// Whether the search has dealt with every valid selection that agrees with
/// `partial`: a valid selection has been found, and its DAG cost `bound` is at most
/// theirs.
pub open spec fn covered(
    eg: &EGraph,
    roots: Seq<usize>,
    partial: Selection,
    found: bool,
    bound: Cost,
) -> bool {
    forall|full: Selection|
        fits(eg, full) && #[trigger] valid(eg, full, roots) && agrees(partial, full) ==> found
            && bound <= dag_cost_of(eg, full, roots)
}

/// A path under a selection is a path under every selection that agrees with it.
pub proof fn lemma_agrees_path(eg: &EGraph, partial: Selection, full: Selection, p: Seq<int>)
    requires
        agrees(partial, full),
        is_path(eg, partial, p),
    ensures
        is_path(eg, full, p),
{
    assert forall|k: int| 0 <= k < p.len() - 1 implies edge(eg, full, #[trigger] p[k], p[k + 1]) by {
        assert(edge(eg, partial, p[k], p[k + 1]));
        let j = choose|j: int|
            0 <= j < chosen_children(eg, partial, p[k]).len() && #[trigger] chosen_children(
                eg,
                partial,
                p[k],
            )[j] == p[k + 1];
        assert(chosen_children(eg, full, p[k])[j] == p[k + 1]);
    }
}

/// What a selection reaches, every selection that agrees with it reaches.
pub proof fn lemma_agrees_reachable(
    eg: &EGraph,
    partial: Selection,
    full: Selection,
    roots: Seq<usize>,
    c: int,
)
    requires
        agrees(partial, full),
        reachable(eg, partial, roots, c),
    ensures
        reachable(eg, full, roots, c),
{
    let k = choose|k: int|
        0 <= k < roots.len() && leads(eg, partial, #[trigger] roots[k] as int, c);
    let p = choose|p: Seq<int>| #[trigger]
        is_path(eg, partial, p) && p.len() > 0 && p[0] == roots[k] as int && p.last() == c;
    lemma_agrees_path(eg, partial, full, p);
    assert(is_path(eg, full, p) && p.len() > 0 && p[0] == roots[k] as int && p.last() == c);
}

/// Along a path under `full` from a class that a resolved `partial` reaches,
/// `partial` reaches every class.
pub proof fn lemma_resolved_path(
    eg: &EGraph,
    partial: Selection,
    full: Selection,
    roots: Seq<usize>,
    p: Seq<int>,
    k: int,
)
    requires
        agrees(partial, full),
        resolved(eg, partial, roots),
        is_path(eg, full, p),
        0 <= k < p.len(),
        reachable(eg, partial, roots, p[0]),
    ensures
        reachable(eg, partial, roots, p[k]),
    decreases k,
{
    if k > 0 {
        lemma_resolved_path(eg, partial, full, roots, p, k - 1);
        let a = p[k - 1];
        assert(edge(eg, full, a, p[k]));
        let j = choose|j: int|
            0 <= j < chosen_children(eg, full, a).len() && #[trigger] chosen_children(eg, full, a)[j]
                == p[k];
        assert(partial[a] is Some);
        assert(chosen_children(eg, partial, a)[j] == p[k]);
        lemma_reachable_step(eg, partial, roots, a, p[k]);
    }
}

/// A resolved selection and a selection that agrees with it reach the same
/// classes, cost the same, and the first is valid where the second is.
pub proof fn lemma_resolved_same(
    eg: &EGraph,
    partial: Selection,
    full: Selection,
    roots: Seq<usize>,
)
    requires
        agrees(partial, full),
        resolved(eg, partial, roots),
    ensures
        forall|c: int| reachable(eg, partial, roots, c) <==> reachable(eg, full, roots, c),
        dag_cost_of(eg, partial, roots) == dag_cost_of(eg, full, roots),
        valid(eg, full, roots) ==> valid(eg, partial, roots),
{
    assert forall|c: int| reachable(eg, partial, roots, c) <==> reachable(eg, full, roots, c) by {
        if reachable(eg, partial, roots, c) {
            lemma_agrees_reachable(eg, partial, full, roots, c);
        }
        if reachable(eg, full, roots, c) {
            let k = choose|k: int|
                0 <= k < roots.len() && leads(eg, full, #[trigger] roots[k] as int, c);
            let p = choose|p: Seq<int>| #[trigger]
                is_path(eg, full, p) && p.len() > 0 && p[0] == roots[k] as int && p.last() == c;
            lemma_root_reachable(eg, partial, roots, k);
            lemma_resolved_path(eg, partial, full, roots, p, p.len() - 1);
        }
    }
    assert(Seq::new(partial.len(), |c: int| dag_share(eg, partial, roots, c)) =~= Seq::new(
        full.len(),
        |c: int| dag_share(eg, full, roots, c),
    ));
    if valid(eg, full, roots) {
        assert forall|c: int| #[trigger] reachable(eg, partial, roots, c) implies !on_cycle(
            eg,
            partial,
            c,
        ) by {
            if on_cycle(eg, partial, c) {
                let p = choose|p: Seq<int>| #[trigger]
                    is_path(eg, partial, p) && p.len() >= 2 && p[0] == c && p.last() == c;
                lemma_agrees_path(eg, partial, full, p);
                assert(is_path(eg, full, p) && p.len() >= 2 && p[0] == c && p.last() == c);
                assert(reachable(eg, full, roots, c));
            }
        }
    }
}

/// Where every chosen node of `partial` belongs to a class that `partial` reaches,
/// what `partial` has spent is at most the DAG cost of any selection that agrees
/// with it.
pub proof fn lemma_spent_bounds(
    eg: &EGraph,
    partial: Selection,
    full: Selection,
    roots: Seq<usize>,
)
    requires
        agrees(partial, full),
        forall|c: int|
            0 <= c < partial.len() && (#[trigger] partial[c]) is Some ==> reachable(
                eg,
                partial,
                roots,
                c,
            ),
    ensures
        spent_on(eg, partial) <= dag_cost_of(eg, full, roots),
{
    let spent = Seq::new(partial.len(), |c: int| own_cost(eg, partial, c));
    let shares = Seq::new(full.len(), |c: int| dag_share(eg, full, roots, c));
    assert forall|c: int| 0 <= c < spent.len() implies spent[c] <= shares[c] by {
        if partial[c] is Some {
            lemma_agrees_reachable(eg, partial, full, roots, c);
        }
    }
    lemma_total_monotone(spent, shares);
}

/// A better find covers what a find covers.
pub proof fn lemma_covered_improves(
    eg: &EGraph,
    roots: Seq<usize>,
    partial: Selection,
    found: bool,
    bound: Cost,
    better_found: bool,
    better: Cost,
)
    requires
        covered(eg, roots, partial, found, bound),
        found ==> better_found && better <= bound,
    ensures
        covered(eg, roots, partial, better_found, better),
{
}

/// Where each node of an undecided class that `partial` reaches is covered, when
/// chosen for the class, `partial` is covered.
pub proof fn lemma_covered_by_cases(
    eg: &EGraph,
    roots: Seq<usize>,
    partial: Selection,
    c: int,
    found: bool,
    bound: Cost,
)
    requires
        0 <= c < partial.len(),
        partial.len() == eg.num_classes(),
        partial[c] is None,
        reachable(eg, partial, roots, c),
        forall|i: int|
            0 <= i < eg.num_nodes(c) ==> covered(
                eg,
                roots,
                #[trigger] partial.update(c, Some(i as usize)),
                found,
                bound,
            ),
    ensures
        covered(eg, roots, partial, found, bound),
{
    assert forall|full: Selection|
        fits(eg, full) && #[trigger] valid(eg, full, roots) && agrees(partial, full) implies found
        && bound <= dag_cost_of(eg, full, roots) by {
        lemma_agrees_reachable(eg, partial, full, roots, c);
        let i = full[c].unwrap();
        let narrowed = partial.update(c, Some(i));
        assert(i as int as usize == i);
        assert(covered(eg, roots, partial.update(c, Some(i as int as usize)), found, bound));
        assert(agrees(narrowed, full));
    }
}

/// Choosing a node for a class without one adds the node's own cost to what is
/// spent.
pub proof fn lemma_spent_more(eg: &EGraph, partial: Selection, c: int, i: usize)
    requires
        0 <= c < partial.len(),
        partial[c] is None,
    ensures
        spent_on(eg, partial.update(c, Some(i))) == plus(
            spent_on(eg, partial),
            eg.node_cost(c, i as int),
        ),
{
    let before = Seq::new(partial.len(), |a: int| own_cost(eg, partial, a));
    let after = Seq::new(partial.len(), |a: int| own_cost(eg, partial.update(c, Some(i)), a));
    assert(after =~= before.update(c, eg.node_cost(c, i as int)));
    lemma_total_raise(before, c, eg.node_cost(c, i as int));
}

/// Distinct classes are at most as many as there are classes.
pub proof fn lemma_distinct_bound(list: Seq<usize>, n: nat)
    requires
        forall|q: int| 0 <= q < list.len() ==> #[trigger] list[q] < n,
        forall|p: int, q: int| 0 <= p < q < list.len() ==> list[p] != list[q],
    ensures
        list.len() <= n,
{
    if list.len() > n {
        let row = Seq::new(list.len(), |q: int| list[q] as int);
        let (a, b) = lemma_repeat(row, n);
        assert(list[a] == list[b]);
    }
}

/// Whether class `c` stands on `agenda`.
#[verifier::opaque]
pub open spec fn stands(agenda: Seq<usize>, c: int) -> bool {
    exists|q: int| 0 <= q < agenda.len() && (#[trigger] agenda[q]) == c
}

/// Whether `agenda` holds classes of a graph of `n` classes, each once.
pub open spec fn lists_once(agenda: Seq<usize>, n: nat) -> bool {
    &&& forall|q: int| 0 <= q < agenda.len() ==> (#[trigger] agenda[q]) < n
    &&& forall|p: int, q: int| 0 <= p < q < agenda.len() ==> agenda[p] != agenda[q]
}

/// Whether exactly the first `next` classes of `agenda` have a chosen node.
pub open spec fn decided_to(partial: Selection, agenda: Seq<usize>, next: int) -> bool {
    &&& 0 <= next <= agenda.len()
    &&& forall|q: int|
        0 <= q < agenda.len() ==> (partial[#[trigger] agenda[q] as int] is Some <==> q < next)
    &&& forall|c: int|
        0 <= c < partial.len() && partial[c] is Some ==> #[trigger] stands(agenda, c)
}

/// Whether `agenda` holds the roots and the children of every chosen node.
pub open spec fn closed_under(
    eg: &EGraph,
    roots: Seq<usize>,
    partial: Selection,
    agenda: Seq<usize>,
) -> bool {
    &&& forall|k: int| 0 <= k < roots.len() ==> stands(agenda, #[trigger] roots[k] as int)
    &&& forall|c: int, j: int|
        0 <= c < partial.len() && 0 <= j < chosen_children(eg, partial, c).len() ==> stands(
            agenda,
            #[trigger] chosen_children(eg, partial, c)[j] as int,
        )
}

/// Whether `partial` reaches from `roots` every class on `agenda`.
pub open spec fn reaches_all(
    eg: &EGraph,
    roots: Seq<usize>,
    partial: Selection,
    agenda: Seq<usize>,
) -> bool {
    forall|q: int|
        0 <= q < agenda.len() ==> reachable(eg, partial, roots, #[trigger] agenda[q] as int)
}

/// What holds of a search that has decided the first `next` classes of `agenda`:
/// exactly those have a chosen node in `partial`, the agenda holds the roots and
/// the children of every chosen node, and `partial` reaches all that stands on it.
pub open spec fn front_of(
    eg: &EGraph,
    roots: Seq<usize>,
    partial: Selection,
    agenda: Seq<usize>,
    next: int,
) -> bool {
    &&& fits(eg, partial)
    &&& lists_once(agenda, partial.len())
    &&& decided_to(partial, agenda, next)
    &&& closed_under(eg, roots, partial, agenda)
    &&& reaches_all(eg, roots, partial, agenda)
}

/// Whether `longer` is `agenda` with the children of node `i` of class `c` that
/// did not stand on it put at its end.
pub open spec fn activates(
    eg: &EGraph,
    agenda: Seq<usize>,
    longer: Seq<usize>,
    c: int,
    i: int,
) -> bool {
    &&& agenda.len() <= longer.len()
    &&& forall|q: int| 0 <= q < agenda.len() ==> #[trigger] longer[q] == agenda[q]
    &&& forall|j: int|
        0 <= j < eg.children(c, i).len() ==> stands(longer, #[trigger] eg.children(c, i)[j] as int)
    &&& forall|q: int|
        agenda.len() <= q < longer.len() ==> eg.children(c, i).contains(#[trigger] longer[q])
}

/// What stands on an agenda stands on a longer one.
pub proof fn lemma_stands_longer(agenda: Seq<usize>, longer: Seq<usize>, c: int)
    requires
        agenda.len() <= longer.len(),
        forall|q: int| 0 <= q < agenda.len() ==> #[trigger] longer[q] == agenda[q],
        stands(agenda, c),
    ensures
        stands(longer, c),
{
    reveal(stands);
    let q = choose|q: int| 0 <= q < agenda.len() && (#[trigger] agenda[q]) == c;
    assert(longer[q] == c);
}

/// Deciding the next class of the agenda keeps exactly the decided classes at the
/// agenda's start.
proof fn lemma_advance_decided(
    eg: &EGraph,
    partial: Selection,
    agenda: Seq<usize>,
    longer: Seq<usize>,
    next: int,
    i: usize,
)
    requires
        decided_to(partial, agenda, next),
        next < agenda.len(),
        agenda[next] < partial.len(),
        activates(eg, agenda, longer, agenda[next] as int, i as int),
        lists_once(longer, partial.len()),
    ensures
        decided_to(partial.update(agenda[next] as int, Some(i)), longer, next + 1),
{
    reveal(stands);
    let c = agenda[next] as int;
    let more = partial.update(c, Some(i));
    assert forall|q: int| 0 <= q < longer.len() implies (more[#[trigger] longer[q] as int] is Some
        <==> q < next + 1) by {
        assert(longer[next] == agenda[next]);
        if q < agenda.len() {
            assert(longer[q] == agenda[q]);
            if q != next {
                assert(longer[q] != longer[next]);
            }
        } else {
            assert(longer[q] != longer[next]);
            if partial[longer[q] as int] is Some {
                assert(stands(agenda, longer[q] as int));
                let h = choose|h: int| 0 <= h < agenda.len() && (#[trigger] agenda[h]) == longer[q];
                assert(longer[h] == agenda[h]);
            }
        }
    }
    assert forall|a: int| 0 <= a < more.len() && more[a] is Some implies #[trigger] stands(
        longer,
        a,
    ) by {
        if a == c {
            assert(longer[next] == agenda[next]);
        } else {
            assert(partial[a] is Some);
            lemma_stands_longer(agenda, longer, a);
        }
    }
}

/// Deciding the next class of the agenda and activating the children of its node
/// keeps the agenda closed.
proof fn lemma_advance_closed(
    eg: &EGraph,
    roots: Seq<usize>,
    partial: Selection,
    agenda: Seq<usize>,
    longer: Seq<usize>,
    c: int,
    i: usize,
)
    requires
        closed_under(eg, roots, partial, agenda),
        0 <= c < partial.len(),
        activates(eg, agenda, longer, c, i as int),
    ensures
        closed_under(eg, roots, partial.update(c, Some(i)), longer),
{
    let more = partial.update(c, Some(i));
    assert forall|k: int| 0 <= k < roots.len() implies stands(longer, #[trigger] roots[k] as int) by {
        lemma_stands_longer(agenda, longer, roots[k] as int);
    }
    assert forall|a: int, j: int|
        0 <= a < more.len() && 0 <= j < chosen_children(eg, more, a).len() implies stands(
        longer,
        #[trigger] chosen_children(eg, more, a)[j] as int,
    ) by {
        if a == c {
            assert(chosen_children(eg, more, a)[j] == eg.children(c, i as int)[j]);
        } else {
            assert(chosen_children(eg, more, a) == chosen_children(eg, partial, a));
            lemma_stands_longer(agenda, longer, chosen_children(eg, partial, a)[j] as int);
        }
    }
}

/// Deciding a reached class without a chosen node and activating the children of
/// its node keeps every class on the agenda reached.
proof fn lemma_advance_reaches(
    eg: &EGraph,
    roots: Seq<usize>,
    partial: Selection,
    agenda: Seq<usize>,
    longer: Seq<usize>,
    c: int,
    i: usize,
)
    requires
        reaches_all(eg, roots, partial, agenda),
        0 <= c < partial.len(),
        partial[c] is None,
        reachable(eg, partial, roots, c),
        activates(eg, agenda, longer, c, i as int),
    ensures
        reaches_all(eg, roots, partial.update(c, Some(i)), longer),
        reachable(eg, partial.update(c, Some(i)), roots, c),
{
    let more = partial.update(c, Some(i));
    assert(agrees(partial, more));
    lemma_agrees_reachable(eg, partial, more, roots, c);
    assert forall|q: int| 0 <= q < longer.len() implies reachable(
        eg,
        more,
        roots,
        #[trigger] longer[q] as int,
    ) by {
        if q < agenda.len() {
            assert(longer[q] == agenda[q]);
            assert(reachable(eg, partial, roots, agenda[q] as int));
            lemma_agrees_reachable(eg, partial, more, roots, agenda[q] as int);
        } else {
            let d = longer[q];
            assert(eg.children(c, i as int).contains(d));
            let j = choose|j: int|
                0 <= j < eg.children(c, i as int).len() && eg.children(c, i as int)[j] == d;
            assert(chosen_children(eg, more, c)[j] == d);
            assert(edge(eg, more, c, d as int));
            lemma_reachable_step(eg, more, roots, c, d as int);
        }
    }
}

/// Deciding the next class of the agenda for one of its nodes, and activating that
/// node's children, advances the front.
pub proof fn lemma_front_advance(
    eg: &EGraph,
    roots: Seq<usize>,
    partial: Selection,
    agenda: Seq<usize>,
    longer: Seq<usize>,
    next: int,
    i: usize,
)
    requires
        front_of(eg, roots, partial, agenda, next),
        next < agenda.len(),
        i < eg.num_nodes(agenda[next] as int),
        activates(eg, agenda, longer, agenda[next] as int, i as int),
        lists_once(longer, partial.len()),
    ensures
        front_of(eg, roots, partial.update(agenda[next] as int, Some(i)), longer, next + 1),
{
    let c = agenda[next] as int;
    assert(partial[agenda[next] as int] is None);
    assert(reachable(eg, partial, roots, agenda[next] as int));
    lemma_advance_decided(eg, partial, agenda, longer, next, i);
    lemma_advance_closed(eg, roots, partial, agenda, longer, c, i);
    lemma_advance_reaches(eg, roots, partial, agenda, longer, c, i);
}

/// Where every class on the agenda is decided, every class on a path from a class
/// on the agenda stands on the agenda.
proof fn lemma_leaf_path(
    eg: &EGraph,
    roots: Seq<usize>,
    partial: Selection,
    agenda: Seq<usize>,
    p: Seq<int>,
    k: int,
)
    requires
        front_of(eg, roots, partial, agenda, agenda.len() as int),
        is_path(eg, partial, p),
        0 <= k < p.len(),
        stands(agenda, p[0]),
    ensures
        0 <= p[k] < partial.len(),
        stands(agenda, p[k]),
        partial[p[k]] is Some,
    decreases k,
{
    reveal(stands);
    if k > 0 {
        lemma_leaf_path(eg, roots, partial, agenda, p, k - 1);
        let a = p[k - 1];
        assert(edge(eg, partial, a, p[k]));
        let j = choose|j: int|
            0 <= j < chosen_children(eg, partial, a).len() && #[trigger] chosen_children(
                eg,
                partial,
                a,
            )[j] == p[k];
        assert(stands(agenda, chosen_children(eg, partial, a)[j] as int));
    }
    let q = choose|q: int| 0 <= q < agenda.len() && (#[trigger] agenda[q]) == p[k];
    assert(partial[agenda[q] as int] is Some);
}

/// Where every class on the agenda is decided, the partial selection is resolved.
pub proof fn lemma_leaf_resolved(
    eg: &EGraph,
    roots: Seq<usize>,
    partial: Selection,
    agenda: Seq<usize>,
)
    requires
        front_of(eg, roots, partial, agenda, agenda.len() as int),
    ensures
        resolved(eg, partial, roots),
{
    assert forall|c: int| #[trigger] reachable(eg, partial, roots, c) implies 0 <= c
        < partial.len() && partial[c] is Some by {
        let k = choose|k: int|
            0 <= k < roots.len() && leads(eg, partial, #[trigger] roots[k] as int, c);
        let p = choose|p: Seq<int>| #[trigger]
            is_path(eg, partial, p) && p.len() > 0 && p[0] == roots[k] as int && p.last() == c;
        assert(stands(agenda, roots[k] as int));
        lemma_leaf_path(eg, roots, partial, agenda, p, p.len() - 1);
    }
}

/// What a search has spent is the DAG cost of what it has decided: every chosen
/// node belongs to a class that the roots reach, and is counted once.
pub proof fn lemma_spent_is_dag_cost(
    eg: &EGraph,
    roots: Seq<usize>,
    partial: Selection,
    agenda: Seq<usize>,
    next: int,
)
    requires
        front_of(eg, roots, partial, agenda, next),
    ensures
        spent_on(eg, partial) == dag_cost_of(eg, partial, roots),
{
    reveal(stands);
    let spent = Seq::new(partial.len(), |c: int| own_cost(eg, partial, c));
    let shares = Seq::new(partial.len(), |c: int| dag_share(eg, partial, roots, c));
    assert forall|c: int| 0 <= c < partial.len() implies spent[c] == shares[c] by {
        if partial[c] is Some {
            assert(stands(agenda, c));
            let q = choose|q: int| 0 <= q < agenda.len() && (#[trigger] agenda[q]) == c;
            assert(reachable(eg, partial, roots, agenda[q] as int));
        }
    }
    assert(spent =~= shares);
}

/// Where the bound of a find is at most what a decision has spent, the decision is
/// covered.
pub proof fn lemma_pruned(
    eg: &EGraph,
    roots: Seq<usize>,
    partial: Selection,
    agenda: Seq<usize>,
    next: int,
    i: usize,
    bound: Cost,
)
    requires
        front_of(eg, roots, partial, agenda, next),
        next < agenda.len(),
        bound <= spent_on(eg, partial.update(agenda[next] as int, Some(i))),
    ensures
        covered(eg, roots, partial.update(agenda[next] as int, Some(i)), true, bound),
{
    reveal(stands);
    let c = agenda[next] as int;
    let more = partial.update(c, Some(i));
    assert(partial[agenda[next] as int] is None);
    assert(agrees(partial, more));
    assert forall|a: int| 0 <= a < more.len() && (#[trigger] more[a]) is Some implies reachable(
        eg,
        more,
        roots,
        a,
    ) by {
        if a == c {
            assert(reachable(eg, partial, roots, agenda[next] as int));
        } else {
            assert(partial[a] is Some);
            assert(stands(agenda, a));
            let q = choose|q: int| 0 <= q < agenda.len() && (#[trigger] agenda[q]) == a;
            assert(reachable(eg, partial, roots, agenda[q] as int));
        }
        lemma_agrees_reachable(eg, partial, more, roots, a);
    }
    assert forall|full: Selection|
        fits(eg, full) && #[trigger] valid(eg, full, roots) && agrees(more, full) implies bound
        <= dag_cost_of(eg, full, roots) by {
        lemma_spent_bounds(eg, more, full, roots);
    }
}

/// A valid selection that a search has found, with its DAG cost.
pub struct Find {
    pub sel: Selection,
    pub cost: Cost,
}

/// `agenda` with the first `upto` classes of `kids` put at its end in order, each
/// unless it stands there.
pub open spec fn enlisted(agenda: Seq<usize>, kids: Seq<usize>, upto: nat) -> Seq<usize>
    decreases upto,
{
    if upto == 0 {
        agenda
    } else {
        let before = enlisted(agenda, kids, (upto - 1) as nat);
        if before.contains(kids[upto - 1]) {
            before
        } else {
            before.push(kids[upto - 1])
        }
    }
}

/// The best find once the complete selection `partial` has been weighed against
/// `best`: `partial` where it is valid and `best` is none or dearer.
pub open spec fn weighed(
    eg: &EGraph,
    roots: Seq<usize>,
    partial: Selection,
    best: Option<Find>,
) -> Option<Find> {
    if valid(eg, partial, roots) && (best is None || dag_cost_of(eg, partial, roots)
        < best.unwrap().cost) {
        Some(Find { sel: partial, cost: dag_cost_of(eg, partial, roots) })
    } else {
        best
    }
}

/// How many nodes the class at place `next` of `agenda` has; none past the end.
pub open spec fn width(eg: &EGraph, agenda: Seq<usize>, next: nat) -> nat {
    if next < agenda.len() {
        eg.num_nodes(agenda[next as int] as int)
    } else {
        0
    }
}

/// The best find after a search that has decided the first `next` classes of
/// `agenda` as `partial` says has tried the first `upto` nodes of the next class,
/// in order. A node is passed over where what it makes the search spend is no
/// less than the cost of the best find; otherwise the node is chosen, its children
/// are enlisted, and the search goes on to the class after.
pub open spec fn searched(
    eg: &EGraph,
    roots: Seq<usize>,
    partial: Selection,
    agenda: Seq<usize>,
    next: nat,
    upto: nat,
    best: Option<Find>,
) -> Option<Find>
    decreases eg.num_classes() - next, upto,
{
    if next >= agenda.len() || next >= eg.num_classes() {
        weighed(eg, roots, partial, best)
    } else if upto == 0 {
        best
    } else {
        let before = searched(eg, roots, partial, agenda, next, (upto - 1) as nat, best);
        let c = agenda[next as int] as int;
        let more = partial.update(c, Some((upto - 1) as usize));
        if before is Some && spent_on(eg, more) >= before.unwrap().cost {
            before
        } else {
            let kids = eg.children(c, upto - 1);
            let longer = enlisted(agenda, kids, kids.len());
            searched(eg, roots, more, longer, next + 1, width(eg, longer, next + 1), before)
        }
    }
}

/// What an exhaustive search from `roots` finds: the first in its order among the
/// valid selections of least DAG cost, if any selection is valid.
pub open spec fn exact_find(eg: &EGraph, roots: Seq<usize>) -> Option<Find> {
    let agenda = enlisted(Seq::empty(), roots, roots.len());
    searched(
        eg,
        roots,
        Seq::new(eg.num_classes(), |c: int| None::<usize>),
        agenda,
        0,
        width(eg, agenda, 0),
        None,
    )
}

/// Nothing chosen, nothing spent.
pub proof fn lemma_spent_nothing(eg: &EGraph, n: nat)
    ensures
        spent_on(eg, Seq::new(n, |c: int| None::<usize>)) == 0,
{
    let none = Seq::new(n, |c: int| None::<usize>);
    let zeros = Seq::new(n, |c: int| own_cost(eg, none, c));
    lemma_total_zero(zeros);
}

} // verus!
