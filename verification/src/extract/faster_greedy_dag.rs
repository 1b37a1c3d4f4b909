//! The greedy DAG extractor: a heuristic that starts from the tree-optimal
//! selection and moves single classes to other nodes while that lowers the DAG
//! cost. It promises a valid selection that is no dearer than where it started,
//! and no more.

use crate::cost::{add_cost, Cost, lemma_total_push, plus, total};
use crate::egraph::EGraph;
use crate::extract::bottom_up::conclude;
use crate::extract::faster_bottom_up::settle_by_rounds;
use crate::extract::fixpoint::{derivable, fixpoint};
use crate::extract::selection::{dag_cost_of, fits, Selection, valid};
use crate::extract::walk::{DONE, explore, reach_marks};
use crate::extract::{ExtractError, ExtractionResult, Extractor};
use vstd::prelude::*;

verus! {

/// The number of passes that [`FasterGreedyDagExtractor::new`] allows.
pub const DEFAULT_PASSES: usize = 16;

/// What each child of node `i` of class `c` is estimated to add: nothing where
/// `marks` has it as reached already, and its cost in `table` otherwise.
pub open spec fn fresh_costs(
    eg: &EGraph,
    c: int,
    i: int,
    table: Seq<Cost>,
    marks: Seq<u8>,
) -> Seq<Cost> {
    Seq::new(
        eg.children(c, i).len(),
        |j: int|
            if marks[eg.children(c, i)[j] as int] == DONE {
                0
            } else {
                table[eg.children(c, i)[j] as int]
            },
    )
}

/// The estimated marginal DAG cost of node `i` of class `c`: its own cost and what
/// its children are estimated to add.
pub open spec fn marginal_cost(
    eg: &EGraph,
    c: int,
    i: int,
    table: Seq<Cost>,
    marks: Seq<u8>,
) -> Cost {
    plus(eg.node_cost(c, i), total(fresh_costs(eg, c, i, table, marks)))
}

/// Estimates the marginal DAG cost of a node.
pub fn marginal(
    eg: &EGraph,
    class: usize,
    node: usize,
    table: &Vec<Cost>,
    marks: &Vec<u8>,
) -> (cost: Cost)
    requires
        eg.wf(),
        eg.has_node(class as int, node as int),
        table@.len() == eg.num_classes(),
        marks@.len() == eg.num_classes(),
    ensures
        cost == marginal_cost(eg, class as int, node as int, table@, marks@),
{
    let here = &eg.classes[class].nodes[node];
    let ghost terms = fresh_costs(eg, class as int, node as int, table@, marks@);
    let mut sum: Cost = 0;
    let mut j: usize = 0;
    while j < here.children.len()
        invariant
            eg.wf(),
            eg.has_node(class as int, node as int),
            table@.len() == eg.num_classes(),
            marks@.len() == eg.num_classes(),
            here == eg.classes@[class as int].nodes@[node as int],
            terms == fresh_costs(eg, class as int, node as int, table@, marks@),
            j <= here.children@.len(),
            sum == total(terms.take(j as int)),
        decreases here.children@.len() - j,
    {
        let d: usize = here.children[j];
        proof {
            assert(eg.children(class as int, node as int)[j as int] < eg.num_classes());
            assert(terms.take(j + 1) =~= terms.take(j as int).push(terms[j as int]));
            lemma_total_push(terms.take(j as int), terms[j as int]);
        }
        if marks[d] != DONE {
            sum = add_cost(sum, table[d]);
        }
        j += 1;
    }
    proof {
        assert(terms.take(j as int) =~= terms);
    }
    add_cost(here.cost, sum)
}

/// Where a climb over the nodes of one class stands: the selection, its DAG cost,
/// the node that the class holds, and that node's estimate.
pub struct Climb {
    pub sel: Selection,
    pub dag: Cost,
    pub held: usize,
    pub bar: Cost,
}

/// The climb after node `i` of class `c` has been tried: the class moves to the
/// node where its estimate is below the held node's, the selection stays valid
/// and its DAG cost falls.
pub open spec fn try_node(
    eg: &EGraph,
    roots: Seq<usize>,
    table: Seq<Cost>,
    marks: Seq<u8>,
    c: int,
    i: int,
    at: Climb,
) -> Climb {
    let estimate = marginal_cost(eg, c, i, table, marks);
    let trial = at.sel.update(c, Some(i as usize));
    if i != at.held && estimate < at.bar && valid(eg, trial, roots) && dag_cost_of(
        eg,
        trial,
        roots,
    ) < at.dag {
        Climb { sel: trial, dag: dag_cost_of(eg, trial, roots), held: i as usize, bar: estimate }
    } else {
        at
    }
}

/// The climb after the first `upto` nodes of class `c` have been tried in order.
pub open spec fn try_nodes(
    eg: &EGraph,
    roots: Seq<usize>,
    table: Seq<Cost>,
    marks: Seq<u8>,
    c: int,
    upto: nat,
    start: Climb,
) -> Climb
    decreases upto,
{
    if upto == 0 {
        start
    } else {
        try_node(
            eg,
            roots,
            table,
            marks,
            c,
            upto - 1,
            try_nodes(eg, roots, table, marks, c, (upto - 1) as nat, start),
        )
    }
}

/// The selection after every node of class `c` has been tried.
pub open spec fn improved_class(
    eg: &EGraph,
    roots: Seq<usize>,
    table: Seq<Cost>,
    marks: Seq<u8>,
    c: int,
    sel: Selection,
) -> Selection {
    match sel[c] {
        Some(first) => try_nodes(
            eg,
            roots,
            table,
            marks,
            c,
            eg.num_nodes(c),
            Climb {
                sel,
                dag: dag_cost_of(eg, sel, roots),
                held: first,
                bar: marginal_cost(eg, c, first as int, table, marks),
            },
        ).sel,
        None => sel,
    }
}

/// The selection after the nodes of the first `upto` classes have been tried, for
/// each class that `marks` has as reached.
pub open spec fn improved_classes(
    eg: &EGraph,
    roots: Seq<usize>,
    table: Seq<Cost>,
    marks: Seq<u8>,
    upto: nat,
    sel: Selection,
) -> Selection
    decreases upto,
{
    if upto == 0 {
        sel
    } else {
        let before = improved_classes(eg, roots, table, marks, (upto - 1) as nat, sel);
        if marks[upto - 1] == DONE {
            improved_class(eg, roots, table, marks, upto - 1, before)
        } else {
            before
        }
    }
}

/// The selection after one pass over all classes, with the marks of what `sel`
/// reaches.
pub open spec fn one_pass(
    eg: &EGraph,
    roots: Seq<usize>,
    table: Seq<Cost>,
    sel: Selection,
) -> Selection {
    improved_classes(eg, roots, table, reach_marks(eg, sel, roots), sel.len(), sel)
}

/// The selection after at most `budget` passes; a pass that leaves the DAG cost as
/// it was is the last.
pub open spec fn passes(
    eg: &EGraph,
    roots: Seq<usize>,
    table: Seq<Cost>,
    budget: nat,
    sel: Selection,
) -> Selection
    decreases budget,
{
    if budget == 0 {
        sel
    } else {
        let next = one_pass(eg, roots, table, sel);
        if dag_cost_of(eg, next, roots) == dag_cost_of(eg, sel, roots) {
            next
        } else {
            passes(eg, roots, table, (budget - 1) as nat, next)
        }
    }
}

/// What the greedy strategy selects in at most `budget` passes: it starts from the
/// choices of the sweeps' fixpoint and estimates with the fixpoint's costs.
pub open spec fn greedy_selection(eg: &EGraph, roots: Seq<usize>, budget: nat) -> Selection {
    passes(eg, roots, fixpoint(eg).costs, budget, fixpoint(eg).choices)
}

/// What a greedy extraction in at most `budget` passes returns: where every root
/// has a finite tree cost under some selection, the greedy selection, which is the
/// choices of the sweeps' fixpoint or a valid selection of lower DAG cost;
/// [`ExtractError::Infeasible`] where a root has none.
pub open spec fn greedy_outcome(
    eg: &EGraph,
    roots: Seq<usize>,
    budget: nat,
    outcome: Result<ExtractionResult, ExtractError>,
) -> bool {
    match outcome {
        Ok(result) => {
            &&& result@ == greedy_selection(eg, roots, budget)
            &&& fits(eg, result@)
            &&& valid(eg, result@, roots)
            &&& dag_cost_of(eg, result@, roots) <= dag_cost_of(eg, fixpoint(eg).choices, roots)
            &&& dag_cost_of(eg, result@, roots) == dag_cost_of(eg, fixpoint(eg).choices, roots)
                ==> result@ == fixpoint(eg).choices
            &&& forall|k: int| 0 <= k < roots.len() ==> derivable(eg, #[trigger] roots[k] as int)
        },
        Err(error) => {
            &&& error == ExtractError::Infeasible
            &&& exists|k: int| 0 <= k < roots.len() && !derivable(eg, #[trigger] roots[k] as int)
        },
    }
}

/// Extracts greedily towards a low DAG cost, in at most `max_passes` passes over
/// the classes.
pub struct FasterGreedyDagExtractor {
    pub max_passes: usize,
}

impl FasterGreedyDagExtractor {
    /// An extractor that makes at most [`DEFAULT_PASSES`] passes.
    pub fn new() -> (extractor: FasterGreedyDagExtractor)
        ensures
            extractor.max_passes == DEFAULT_PASSES,
    {
        FasterGreedyDagExtractor { max_passes: DEFAULT_PASSES }
    }

    /// Tries, for the reached class `class`, each node that is estimated to add
    /// less than the chosen one, and keeps a node where the selection stays valid
    /// and its DAG cost falls. Returns the DAG cost that this leaves.
    fn improve_class(
        eg: &EGraph,
        roots: &[usize],
        table: &Vec<Cost>,
        marks: &Vec<u8>,
        class: usize,
        current: &mut ExtractionResult,
        dag: Cost,
    ) -> (lower: Cost)
        requires
            eg.wf(),
            eg.has_roots(roots@),
            table@.len() == eg.num_classes(),
            marks@.len() == eg.num_classes(),
            class < eg.num_classes(),
            fits(eg, old(current)@),
            valid(eg, old(current)@, roots@),
            dag == dag_cost_of(eg, old(current)@, roots@),
        ensures
            final(current)@ == improved_class(
                eg,
                roots@,
                table@,
                marks@,
                class as int,
                old(current)@,
            ),
            fits(eg, final(current)@),
            valid(eg, final(current)@, roots@),
            lower == dag_cost_of(eg, final(current)@, roots@),
            lower <= dag,
            lower == dag ==> final(current)@ == old(current)@,
    {
        let mut dag = dag;
        match current.chosen(class) {
            None => {},
            Some(first) => {
                let mut held: usize = first;
                let mut bar: Cost = marginal(eg, class, held, table, marks);
                let m: usize = eg.classes[class].nodes.len();
                let ghost start = Climb { sel: current@, dag, held, bar };
                let mut i: usize = 0;
                while i < m
                    invariant
                        (Climb { sel: current@, dag, held, bar }) == try_nodes(
                            eg,
                            roots@,
                            table@,
                            marks@,
                            class as int,
                            i as nat,
                            start,
                        ),
                        eg.wf(),
                        eg.has_roots(roots@),
                        table@.len() == eg.num_classes(),
                        marks@.len() == eg.num_classes(),
                        class < eg.num_classes(),
                        m == eg.num_nodes(class as int),
                        i <= m,
                        fits(eg, current@),
                        valid(eg, current@, roots@),
                        current@[class as int] == Some(held),
                        dag == dag_cost_of(eg, current@, roots@),
                        dag <= dag_cost_of(eg, old(current)@, roots@),
                        dag == dag_cost_of(eg, old(current)@, roots@) ==> current@ == old(current)@,
                    decreases m - i,
                {
                    if i != held {
                        let estimate = marginal(eg, class, i, table, marks);
                        if estimate < bar {
                            let ghost before = current@;
                            current.pick(class, i);
                            let verdict = current.assess(eg, roots);
                            let mut keep: bool = false;
                            match verdict {
                                Some(cost) => {
                                    if cost < dag {
                                        keep = true;
                                        dag = cost;
                                        held = i;
                                        bar = estimate;
                                    }
                                },
                                None => {},
                            }
                            if !keep {
                                current.pick(class, held);
                                proof {
                                    assert(current@ =~= before);
                                }
                            }
                        }
                    }
                    i += 1;
                }
            },
        }
        dag
    }
}

impl Extractor for FasterGreedyDagExtractor {
    /// Starts from the sweeps' fixpoint and improves it class by class. What it
    /// returns is valid from `roots` and has at most the fixpoint's DAG cost. Fails
    /// where a root has no finite tree cost under any selection.
    fn extract(&self, eg: &EGraph, roots: &[usize]) -> (outcome: Result<
        ExtractionResult,
        ExtractError,
    >)
        ensures
            greedy_outcome(eg, roots@, self.max_passes as nat, outcome),
    {
        let n: usize = eg.classes.len();
        let (table, choices) = settle_by_rounds(eg);
        let mut current = match conclude(eg, roots, choices) {
            Ok(result) => result,
            Err(error) => {
                return Err(error);
            },
        };
        let mut dag: Cost = current.dag_cost(eg, roots);
        let mut pass: usize = 0;
        while pass < self.max_passes
            invariant_except_break
                greedy_selection(eg, roots@, self.max_passes as nat) == passes(
                    eg,
                    roots@,
                    table@,
                    (self.max_passes - pass) as nat,
                    current@,
                ),
            invariant
                eg.wf(),
                eg.has_roots(roots@),
                n == eg.num_classes(),
                table@.len() == n,
                fits(eg, current@),
                valid(eg, current@, roots@),
                dag == dag_cost_of(eg, current@, roots@),
                dag <= dag_cost_of(eg, fixpoint(eg).choices, roots@),
                dag == dag_cost_of(eg, fixpoint(eg).choices, roots@) ==> current@ == fixpoint(
                    eg,
                ).choices,
                table@ == fixpoint(eg).costs,
                pass <= self.max_passes,
            ensures
                current@ == greedy_selection(eg, roots@, self.max_passes as nat),
            decreases self.max_passes - pass,
        {
            let walk = explore(eg, &current.choices, roots);
            let start: Cost = dag;
            let ghost held = current@;
            proof {
                walk.lemma_marks(eg, held, roots@);
            }
            let mut c: usize = 0;
            while c < n
                invariant
                    eg.wf(),
                    eg.has_roots(roots@),
                    n == eg.num_classes(),
                    table@.len() == n,
                    walk.state@.len() == n,
                    c <= n,
                    fits(eg, current@),
                    valid(eg, current@, roots@),
                    dag == dag_cost_of(eg, current@, roots@),
                    dag <= start,
                    dag == start ==> current@ == held,
                    current@ == improved_classes(
                        eg,
                        roots@,
                        table@,
                        walk.state@,
                        c as nat,
                        held,
                    ),
                decreases n - c,
            {
                if walk.state[c] == DONE {
                    dag = FasterGreedyDagExtractor::improve_class(
                        eg,
                        roots,
                        &table,
                        &walk.state,
                        c,
                        &mut current,
                        dag,
                    );
                }
                c += 1;
            }
            assert(current@ == one_pass(eg, roots@, table@, held));
            pass += 1;
            if dag == start {
                break ;
            }
        }
        Ok(current)
    }
}

} // verus!
