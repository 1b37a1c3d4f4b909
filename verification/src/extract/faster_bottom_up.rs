//! The accelerated bottom-up extractor. It reaches the same fixpoint as full
//! sweeps, round by round, but prices in each round only the classes that have a
//! node with a child whose cost fell in the round before.

use crate::cost::{Cost, INFINITY};
use crate::egraph::EGraph;
use crate::extract::bottom_up::{
    conclude, fixpoint_outcome, lemma_weight_falls, relax_class, weight,
};
use crate::extract::fixpoint::{
    comes_to_rest, fixpoint, lemma_fixpoint_is_unique, lemma_next_lowers, lemma_scan, lowered,
    next_sweep, relax, scan, Sweep, sweep,
};
use crate::extract::selection::{lemma_node_total_agrees, node_total};
use crate::extract::{ExtractError, ExtractionResult, Extractor};
use vstd::prelude::*;

verus! {

/// A class with the cost and choice that a round found for it.
pub type Update = (usize, Cost, Option<usize>);

/// Whether `lists` holds, for each class, every class that has a node with it as a
/// child.
pub open spec fn lists_parents(eg: &EGraph, lists: Seq<Vec<usize>>) -> bool {
    &&& lists.len() == eg.num_classes()
    &&& forall|d: int, k: int|
        0 <= d < lists.len() && 0 <= k < lists[d]@.len() ==> #[trigger] lists[d]@[k]
            < eg.num_classes()
    &&& forall|c: int, i: int, j: int|
        eg.has_node(c, i) && 0 <= j < eg.children(c, i).len() ==> lists[#[trigger] eg.children(
            c,
            i,
        )[j] as int]@.contains(c as usize)
}

/// Whether no node of class `c` is priced below the cost of the class.
pub open spec fn quiet(eg: &EGraph, s: Sweep, c: int) -> bool {
    forall|i: int|
        0 <= i < eg.num_nodes(c) ==> s.costs[c] <= #[trigger] node_total(eg, c, i, s.costs)
}

/// Whether one of the first `upto` updates is for class `a`.
pub open spec fn touched(updates: Seq<Update>, upto: int, a: int) -> bool {
    exists|u: int| 0 <= u < upto && (#[trigger] updates[u]).0 == a
}

/// Whether each update holds what a sweep over `s` makes of its class, and lowers
/// that class.
pub open spec fn updates_relax(eg: &EGraph, s: Sweep, updates: Seq<Update>) -> bool {
    forall|u: int|
        0 <= u < updates.len() ==> {
            let (c, cost, node) = #[trigger] updates[u];
            &&& c < eg.num_classes()
            &&& (cost, node) == relax(eg, s, c as int)
            &&& cost < s.costs[c as int]
        }
}

/// What the first `upto` updates make of class `a`.
pub open spec fn applied(eg: &EGraph, s: Sweep, updates: Seq<Update>, upto: int, a: int) -> (
    Cost,
    Option<usize>,
) {
    if touched(updates, upto, a) {
        relax(eg, s, a)
    } else {
        (s.costs[a], s.choices[a])
    }
}

/// A scan that meets no price below its start returns its start.
pub proof fn lemma_quiet_scan(
    eg: &EGraph,
    c: int,
    table: Seq<Cost>,
    upto: nat,
    start: (Cost, Option<usize>),
)
    requires
        forall|i: int| 0 <= i < upto ==> start.0 <= #[trigger] node_total(eg, c, i, table),
    ensures
        scan(eg, c, table, upto, start) == start,
    decreases upto,
{
    if upto > 0 {
        lemma_quiet_scan(eg, c, table, (upto - 1) as nat, start);
        assert(start.0 <= node_total(eg, c, upto - 1, table));
    }
}

/// Lists for each class the classes that have a node with it as a child.
fn build_parents(eg: &EGraph) -> (lists: Vec<Vec<usize>>)
    requires
        eg.wf(),
    ensures
        lists_parents(eg, lists@),
{
    let n: usize = eg.classes.len();
    let mut lists: Vec<Vec<usize>> = Vec::new();
    let mut d: usize = 0;
    while d < n
        invariant
            d <= n,
            lists@.len() == d,
            forall|a: int| 0 <= a < d ==> (#[trigger] lists@[a])@.len() == 0,
        decreases n - d,
    {
        lists.push(Vec::new());
        d += 1;
    }
    let mut c: usize = 0;
    while c < n
        invariant
            eg.wf(),
            n == eg.num_classes(),
            c <= n,
            lists@.len() == n,
            forall|d: int, k: int|
                0 <= d < n && 0 <= k < lists@[d]@.len() ==> #[trigger] lists@[d]@[k] < n,
            forall|a: int, i: int, j: int|
                0 <= a < c && eg.has_node(a, i) && 0 <= j < eg.children(a, i).len()
                    ==> lists@[#[trigger] eg.children(a, i)[j] as int]@.contains(a as usize),
        decreases n - c,
    {
        let class = &eg.classes[c];
        let mut i: usize = 0;
        while i < class.nodes.len()
            invariant
                eg.wf(),
                n == eg.num_classes(),
                c < n,
                class == eg.classes@[c as int],
                i <= class.nodes@.len(),
                lists@.len() == n,
                forall|d: int, k: int|
                    0 <= d < n && 0 <= k < lists@[d]@.len() ==> #[trigger] lists@[d]@[k] < n,
                forall|a: int, i: int, j: int|
                    0 <= a < c && eg.has_node(a, i) && 0 <= j < eg.children(a, i).len()
                        ==> lists@[#[trigger] eg.children(a, i)[j] as int]@.contains(a as usize),
                forall|b: int, j: int|
                    0 <= b < i && 0 <= j < eg.children(c as int, b).len() ==> lists@[#[trigger] eg.children(
                        c as int,
                        b,
                    )[j] as int]@.contains(c),
            decreases class.nodes@.len() - i,
        {
            let node = &class.nodes[i];
            let mut j: usize = 0;
            while j < node.children.len()
                invariant
                    eg.wf(),
                    n == eg.num_classes(),
                    c < n,
                    class == eg.classes@[c as int],
                    i < class.nodes@.len(),
                    node == class.nodes@[i as int],
                    j <= node.children@.len(),
                    lists@.len() == n,
                    forall|d: int, k: int|
                        0 <= d < n && 0 <= k < lists@[d]@.len() ==> #[trigger] lists@[d]@[k] < n,
                    forall|a: int, i: int, j: int|
                        0 <= a < c && eg.has_node(a, i) && 0 <= j < eg.children(a, i).len()
                            ==> lists@[#[trigger] eg.children(a, i)[j] as int]@.contains(
                            a as usize,
                        ),
                    forall|b: int, j: int|
                        0 <= b < i && 0 <= j < eg.children(c as int, b).len() ==> lists@[#[trigger] eg.children(
                            c as int,
                            b,
                        )[j] as int]@.contains(c),
                    forall|q: int|
                        0 <= q < j ==> lists@[#[trigger] node.children@[q] as int]@.contains(c),
                decreases node.children@.len() - j,
            {
                let d: usize = node.children[j];
                let ghost before = lists@;
                proof {
                    assert(eg.has_node(c as int, i as int));
                    assert(eg.children(c as int, i as int)[j as int] < n);
                }
                lists[d].push(c);
                proof {
                    assert forall|x: int, y: usize|
                        0 <= x < n && before[x]@.contains(y) implies lists@[x]@.contains(y) by {
                        let k = choose|k: int| 0 <= k < before[x]@.len() && before[x]@[k] == y;
                        assert(lists@[x]@[k] == y);
                    }
                    assert(lists@[d as int]@[before[d as int]@.len() as int] == c);
                    assert forall|a: int, i: int, j: int|
                        0 <= a < c && eg.has_node(a, i) && 0 <= j < eg.children(a, i).len() implies lists@[#[trigger] eg.children(
                        a,
                        i,
                    )[j] as int]@.contains(a as usize) by {
                        assert(before[eg.children(a, i)[j] as int]@.contains(a as usize));
                    }
                    assert forall|b: int, j: int|
                        0 <= b < i && 0 <= j < eg.children(c as int, b).len() implies lists@[#[trigger] eg.children(
                        c as int,
                        b,
                    )[j] as int]@.contains(c) by {
                        assert(eg.has_node(c as int, b));
                        assert(before[eg.children(c as int, b)[j] as int]@.contains(c));
                    }
                    assert forall|q: int| 0 <= q < j + 1 implies lists@[#[trigger] node.children@[q] as int]@.contains(
                        c,
                    ) by {
                        if q < j {
                            assert(eg.children(c as int, i as int)[q] < n);
                            assert(before[node.children@[q] as int]@.contains(c));
                        }
                    }
                }
                j += 1;
            }
            i += 1;
        }
        c += 1;
    }
    lists
}

/// Prices the classes of `pending` and returns an update for each that a sweep
/// lowers.
fn evaluate(
    eg: &EGraph,
    costs: &Vec<Cost>,
    choices: &Vec<Option<usize>>,
    pending: &Vec<usize>,
) -> (updates: Vec<Update>)
    requires
        eg.wf(),
        costs@.len() == eg.num_classes(),
        choices@.len() == eg.num_classes(),
        forall|q: int| 0 <= q < pending@.len() ==> #[trigger] pending@[q] < eg.num_classes(),
    ensures
        updates_relax(eg, Sweep { costs: costs@, choices: choices@ }, updates@),
        forall|q: int|
            0 <= q < pending@.len() ==> touched(
                updates@,
                updates@.len() as int,
                #[trigger] pending@[q] as int,
            ) || relax(
                eg,
                Sweep { costs: costs@, choices: choices@ },
                pending@[q] as int,
            ).0 >= costs@[pending@[q] as int],
{
    let ghost s = Sweep { costs: costs@, choices: choices@ };
    let mut updates: Vec<Update> = Vec::new();
    let mut q: usize = 0;
    while q < pending.len()
        invariant
            eg.wf(),
            s == (Sweep { costs: costs@, choices: choices@ }),
            costs@.len() == eg.num_classes(),
            choices@.len() == eg.num_classes(),
            forall|q: int| 0 <= q < pending@.len() ==> #[trigger] pending@[q] < eg.num_classes(),
            q <= pending@.len(),
            updates_relax(eg, s, updates@),
            forall|a: int|
                0 <= a < q ==> touched(
                    updates@,
                    updates@.len() as int,
                    #[trigger] pending@[a] as int,
                ) || relax(eg, s, pending@[a] as int).0 >= costs@[pending@[a] as int],
        decreases pending@.len() - q,
    {
        let c: usize = pending[q];
        let best = relax_class(eg, c, costs, (costs[c], choices[c]));
        let ghost before = updates@;
        if best.0 < costs[c] {
            updates.push((c, best.0, best.1));
            proof {
                assert(updates@[before.len() as int].0 == c);
            }
        }
        proof {
            assert forall|a: int| 0 <= a < q + 1 implies touched(
                updates@,
                updates@.len() as int,
                #[trigger] pending@[a] as int,
            ) || relax(eg, s, pending@[a] as int).0 >= costs@[pending@[a] as int] by {
                if a < q && touched(before, before.len() as int, pending@[a] as int) {
                    let u = choose|u: int|
                        0 <= u < before.len() && (#[trigger] before[u]).0 == pending@[a];
                    assert(updates@[u].0 == pending@[a]);
                }
            }
        }
        q += 1;
    }
    updates
}

/// Writes the updates into `costs` and `choices`.
fn apply(
    eg: &EGraph,
    costs: &mut Vec<Cost>,
    choices: &mut Vec<Option<usize>>,
    updates: &Vec<Update>,
)
    requires
        old(costs)@.len() == eg.num_classes(),
        old(choices)@.len() == eg.num_classes(),
        updates_relax(eg, Sweep { costs: old(costs)@, choices: old(choices)@ }, updates@),
    ensures
        final(costs)@.len() == eg.num_classes(),
        final(choices)@.len() == eg.num_classes(),
        forall|a: int|
            0 <= a < eg.num_classes() ==> (final(costs)@[a], final(choices)@[a])
                == #[trigger] applied(
                eg,
                Sweep { costs: old(costs)@, choices: old(choices)@ },
                updates@,
                updates@.len() as int,
                a,
            ),
{
    let ghost s = Sweep { costs: costs@, choices: choices@ };
    let mut u: usize = 0;
    while u < updates.len()
        invariant
            costs@.len() == eg.num_classes(),
            choices@.len() == eg.num_classes(),
            s.costs.len() == eg.num_classes(),
            s.choices.len() == eg.num_classes(),
            updates_relax(eg, s, updates@),
            u <= updates@.len(),
            forall|a: int|
                0 <= a < eg.num_classes() ==> (costs@[a], choices@[a]) == #[trigger] applied(
                    eg,
                    s,
                    updates@,
                    u as int,
                    a,
                ),
        decreases updates@.len() - u,
    {
        let (c, cost, node) = updates[u];
        let ghost costs_before = costs@;
        let ghost choices_before = choices@;
        costs.set(c, cost);
        choices.set(c, node);
        proof {
            assert forall|a: int| 0 <= a < eg.num_classes() implies (costs@[a], choices@[a])
                == #[trigger] applied(eg, s, updates@, u + 1, a) by {
                assert((costs_before[a], choices_before[a]) == applied(eg, s, updates@, u as int, a));
                if a == c {
                    assert(updates@[u as int].0 == a);
                    assert(touched(updates@, u + 1, a));
                    assert(updates@[u as int] == (c, cost, node));
                    assert((cost, node) == relax(eg, s, c as int));
                } else {
                    if touched(updates@, u + 1, a) {
                        let w = choose|w: int| 0 <= w < u + 1 && (#[trigger] updates@[w]).0 == a;
                        assert(w < u);
                    }
                    if touched(updates@, u as int, a) {
                        let w = choose|w: int| 0 <= w < u && (#[trigger] updates@[w]).0 == a;
                        assert(0 <= w < u + 1);
                    }
                    assert(costs@[a] == costs_before[a] && choices@[a] == choices_before[a]);
                }
            }
        }
        u += 1;
    }
}

/// Puts into `pending` every class that has a node with an updated class as a
/// child.
fn requeue(
    eg: &EGraph,
    parents: &Vec<Vec<usize>>,
    updates: &Vec<Update>,
    queued: &mut Vec<bool>,
    pending: &mut Vec<usize>,
)
    requires
        lists_parents(eg, parents@),
        forall|u: int| 0 <= u < updates@.len() ==> (#[trigger] updates@[u]).0 < eg.num_classes(),
        old(queued)@.len() == eg.num_classes(),
        old(pending)@.len() == 0,
        forall|a: int| 0 <= a < eg.num_classes() ==> !old(queued)@[a],
    ensures
        final(queued)@.len() == eg.num_classes(),
        forall|q: int|
            0 <= q < final(pending)@.len() ==> #[trigger] final(pending)@[q] < eg.num_classes(),
        forall|a: usize|
            a < eg.num_classes() && final(queued)@[a as int] ==> #[trigger] final(pending)@.contains(a),
        forall|u: int, k: int|
            0 <= u < updates@.len() && 0 <= k < parents@[updates@[u].0 as int]@.len()
                ==> final(pending)@.contains(#[trigger] parents@[updates@[u].0 as int]@[k]),
{
    let n: usize = queued.len();
    let mut u: usize = 0;
    while u < updates.len()
        invariant
            lists_parents(eg, parents@),
            forall|u: int|
                0 <= u < updates@.len() ==> (#[trigger] updates@[u]).0 < eg.num_classes(),
            n == eg.num_classes(),
            queued@.len() == n,
            u <= updates@.len(),
            forall|q: int| 0 <= q < pending@.len() ==> #[trigger] pending@[q] < n,
            forall|a: usize| a < n && queued@[a as int] ==> #[trigger] pending@.contains(a),
            forall|w: int, k: int|
                0 <= w < u && 0 <= k < parents@[updates@[w].0 as int]@.len() ==> pending@.contains(
                    #[trigger] parents@[updates@[w].0 as int]@[k],
                ),
        decreases updates@.len() - u,
    {
        let d: usize = updates[u].0;
        let list = &parents[d];
        let mut k: usize = 0;
        while k < list.len()
            invariant
                lists_parents(eg, parents@),
                forall|u: int|
                    0 <= u < updates@.len() ==> (#[trigger] updates@[u]).0 < eg.num_classes(),
                n == eg.num_classes(),
                queued@.len() == n,
                u < updates@.len(),
                d == updates@[u as int].0,
                list == parents@[d as int],
                k <= list@.len(),
                forall|q: int| 0 <= q < pending@.len() ==> #[trigger] pending@[q] < n,
                forall|a: usize| a < n && queued@[a as int] ==> #[trigger] pending@.contains(a),
                forall|w: int, k: int|
                    0 <= w < u && 0 <= k < parents@[updates@[w].0 as int]@.len()
                        ==> pending@.contains(#[trigger] parents@[updates@[w].0 as int]@[k]),
                forall|h: int| 0 <= h < k ==> pending@.contains(#[trigger] list@[h]),
            decreases list@.len() - k,
        {
            let p: usize = list[k];
            let ghost before = pending@;
            assert(p < n);
            if !queued[p] {
                queued.set(p, true);
                pending.push(p);
                proof {
                    assert(pending@[before.len() as int] == p);
                    assert forall|x: usize| before.contains(x) implies #[trigger] pending@.contains(
                        x,
                    ) by {
                        let h = choose|h: int| 0 <= h < before.len() && before[h] == x;
                        assert(pending@[h] == x);
                    }
                    assert forall|a: usize| a < n && queued@[a as int] implies #[trigger] pending@.contains(
                        a,
                    ) by {
                        if a != p {
                            assert(before.contains(a));
                        }
                    }
                    assert forall|w: int, k: int|
                        0 <= w < u && 0 <= k < parents@[updates@[w].0 as int]@.len() implies pending@.contains(
                        #[trigger] parents@[updates@[w].0 as int]@[k],
                    ) by {
                        assert(before.contains(parents@[updates@[w].0 as int]@[k]));
                    }
                    assert forall|h: int| 0 <= h < k implies pending@.contains(#[trigger] list@[h]) by {
                        assert(before.contains(list@[h]));
                    }
                }
            }
            k += 1;
        }
        u += 1;
    }
}

/// Extracts by repricing, round by round, only the classes below which a cost
/// fell.
pub struct FasterBottomUpExtractor;

impl Extractor for FasterBottomUpExtractor {
    /// Returns the fixpoint's choices, as full sweeps do. They are valid from `roots`
    /// and no selection has a lower tree cost. Fails where a root has no finite tree
    /// cost under any selection.
    fn extract(&self, eg: &EGraph, roots: &[usize]) -> (outcome: Result<
        ExtractionResult,
        ExtractError,
    >)
        ensures
            fixpoint_outcome(eg, roots@, outcome),
    {
        let (_, choices) = settle_by_rounds(eg);
        conclude(eg, roots, choices)
    }
}

/// Reprices, round by round, the classes below which a cost fell, until none
/// falls, and returns the cost and the choice of each class.
pub fn settle_by_rounds(eg: &EGraph) -> (rest: (Vec<Cost>, Vec<Option<usize>>))
    requires
        eg.wf(),
    ensures
        comes_to_rest(eg),
        rest.0@ == fixpoint(eg).costs,
        rest.1@ == fixpoint(eg).choices,
{
    let n: usize = eg.classes.len();
    let parents = build_parents(eg);
    let mut costs: Vec<Cost> = Vec::new();
    let mut choices: Vec<Option<usize>> = Vec::new();
    let mut queued: Vec<bool> = Vec::new();
    let mut pending: Vec<usize> = Vec::new();
    let mut c: usize = 0;
    while c < n
        invariant
            c <= n,
            costs@ == Seq::new(c as nat, |a: int| INFINITY),
            choices@ == Seq::new(c as nat, |a: int| None::<usize>),
            queued@.len() == c,
            pending@.len() == c,
            forall|a: int| 0 <= a < c ==> queued@[a],
            forall|a: int| 0 <= a < c ==> pending@[a] == a,
        decreases n - c,
    {
        costs.push(INFINITY);
        choices.push(None);
        queued.push(true);
        pending.push(c);
        proof {
            assert(costs@ =~= Seq::new((c + 1) as nat, |a: int| INFINITY));
            assert(choices@ =~= Seq::new((c + 1) as nat, |a: int| None::<usize>));
        }
        c += 1;
    }
    let ghost mut rounds: nat = 0;
    proof {
        assert forall|a: usize| a < n implies #[trigger] pending@.contains(a) by {
            assert(pending@[a as int] == a);
        }
    }
    loop
        invariant
            eg.wf(),
            n == eg.num_classes(),
            lists_parents(eg, parents@),
            costs@ == sweep(eg, rounds).costs,
            choices@ == sweep(eg, rounds).choices,
            queued@.len() == n,
            forall|q: int| 0 <= q < pending@.len() ==> #[trigger] pending@[q] < n,
            forall|a: usize| a < n && queued@[a as int] ==> #[trigger] pending@.contains(a),
            forall|a: usize|
                a < n && !(#[trigger] pending@.contains(a)) ==> quiet(
                    eg,
                    sweep(eg, rounds),
                    a as int,
                ),
        decreases weight(costs@),
    {
        let ghost s = sweep(eg, rounds);
        assert(s == (Sweep { costs: costs@, choices: choices@ }));
        let updates = evaluate(eg, &costs, &choices, &pending);
        let ghost t = next_sweep(eg, s);
        proof {
            lemma_next_lowers(eg, s);
            assert forall|a: int| 0 <= a < n && !touched(
                updates@,
                updates@.len() as int,
                a,
            ) implies relax(eg, s, a) == (s.costs[a], s.choices[a]) by {
                assert(lowered(eg, s, t, a));
                if pending@.contains(a as usize) {
                    let q = choose|q: int| 0 <= q < pending@.len() && pending@[q] == a as usize;
                    assert(pending@[q] as int == a);
                } else {
                    assert(quiet(eg, s, a));
                    lemma_quiet_scan(eg, a, s.costs, eg.num_nodes(a), (s.costs[a], s.choices[a]));
                }
            }
        }
        if updates.len() == 0 {
            proof {
                assert(t.costs =~= s.costs);
                assert(t.choices =~= s.choices);
                lemma_fixpoint_is_unique(eg, rounds);
            }
            return (costs, choices);
        }
        proof {
            assert forall|a: usize| a < n && #[trigger] queued@[a as int] implies exists|h: int|
                0 <= h < pending@.len() && pending@[h] == a by {
                assert(pending@.contains(a));
            }
        }
        let mut q: usize = 0;
        while q < pending.len()
            invariant
                queued@.len() == n,
                forall|q: int| 0 <= q < pending@.len() ==> #[trigger] pending@[q] < n,
                q <= pending@.len(),
                forall|a: usize|
                    a < n && #[trigger] queued@[a as int] ==> exists|h: int|
                        q <= h < pending@.len() && pending@[h] == a,
            decreases pending@.len() - q,
        {
            let c: usize = pending[q];
            let ghost before = queued@;
            queued.set(c, false);
            proof {
                assert forall|a: usize| a < n && #[trigger] queued@[a as int] implies exists|
                    h: int,
                |
                    q + 1 <= h < pending@.len() && pending@[h] == a by {
                    assert(before[a as int]);
                    let h = choose|h: int| q <= h < pending@.len() && pending@[h] == a;
                    assert(h != q);
                }
            }
            q += 1;
        }
        pending = Vec::new();
        apply(eg, &mut costs, &mut choices, &updates);
        requeue(eg, &parents, &updates, &mut queued, &mut pending);
        proof {
            assert forall|a: int| 0 <= a < n implies costs@[a] == t.costs[a] && choices@[a]
                == t.choices[a] by {
                assert((costs@[a], choices@[a]) == applied(
                    eg,
                    s,
                    updates@,
                    updates@.len() as int,
                    a,
                ));
            }
            assert(costs@ =~= t.costs);
            assert(choices@ =~= t.choices);
            assert forall|a: int| 0 <= a < n implies t.costs[a] <= s.costs[a] by {
                assert(lowered(eg, s, t, a));
            }
            let first = updates@[0].0 as int;
            assert(touched(updates@, updates@.len() as int, first));
            assert(t.costs[first] < s.costs[first]);
            lemma_weight_falls(s.costs, t.costs, true);
            assert forall|b: usize| b < n && !(#[trigger] pending@.contains(b)) implies quiet(
                eg,
                t,
                b as int,
            ) by {
                let a = b as int;
                lemma_scan(eg, a, s.costs, eg.num_nodes(a), (s.costs[a], s.choices[a]));
                assert forall|i: int| 0 <= i < eg.num_nodes(a) implies t.costs[a]
                    <= #[trigger] node_total(eg, a, i, t.costs) by {
                    assert(eg.has_node(a, i));
                    assert forall|j: int|
                        0 <= j < eg.children(a, i).len() implies s.costs[#[trigger] eg.children(
                        a,
                        i,
                    )[j] as int] == t.costs[eg.children(a, i)[j] as int] by {
                        let d = eg.children(a, i)[j] as int;
                        assert(d < n);
                        if touched(updates@, updates@.len() as int, d) {
                            let u = choose|u: int|
                                0 <= u < updates@.len() && (#[trigger] updates@[u]).0 == d;
                            assert(parents@[d]@.contains(a as usize));
                            let k = choose|k: int|
                                0 <= k < parents@[d]@.len() && parents@[d]@[k] == a as usize;
                            assert(pending@.contains(parents@[updates@[u].0 as int]@[k]));
                        }
                    }
                    lemma_node_total_agrees(eg, a, i, s.costs, t.costs);
                }
            }
            rounds = rounds + 1;
        }
    }
}

} // verus!
