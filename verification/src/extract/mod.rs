//! Extraction: the selection model, its validator and cost measures, and the
//! strategies that build selections.

pub mod bottom_up;
pub mod clock;
pub mod faster_bottom_up;
pub mod faster_greedy_dag;
pub mod fixpoint;
pub mod ilp;
pub mod ranking;
pub mod search;
pub mod selection;
pub mod walk;

use crate::cost::{add_cost, Cost, INFINITY, lemma_total_push, total};
use crate::egraph::{EGraph, Node};
use crate::extract::selection::{
    child_costs, chosen_children, class_tree_cost, dag_cost_of, dag_share, edge, fits,
    lemma_hopeless_cycle, lemma_hopeless_parent, lemma_hopeless_tree_cost, lemma_hopeless_unchosen,
    lemma_reachable_step, lemma_root_reachable, lemma_settles_parent, node_total, on_cycle,
    reachable, resolved, roots_chosen, Selection, settles, tree_cost_of, valid,
};
use crate::extract::walk::{DONE, explore};
use vstd::prelude::*;

verus! {

/// What makes a selection invalid.
#[derive(Debug, Clone, Copy, PartialEq, Eq)]
pub enum Defect {
    /// A root without a chosen node.
    UnresolvedClass(usize),
    /// A reachable class whose chosen node has a child without a chosen node.
    DanglingChild { class: usize, child: usize },
    /// A reachable class that its chosen nodes' children lead back to.
    Cycle(usize),
}

impl Defect {
    /// Whether `sel` has this defect from `roots`, and none of a kind that is
    /// reported before this one. An unresolved class is the first of the roots
    /// without a chosen node.
    pub open spec fn found_in(self, eg: &EGraph, sel: Selection, roots: Seq<usize>) -> bool {
        match self {
            Defect::UnresolvedClass(c) => exists|k: int|
                0 <= k < roots.len() && #[trigger] roots[k] == c && sel[c as int] is None
                    && roots_chosen(sel, roots.take(k)),
            Defect::DanglingChild { class, child } => {
                &&& roots_chosen(sel, roots)
                &&& reachable(eg, sel, roots, class as int)
                &&& edge(eg, sel, class as int, child as int)
                &&& child < sel.len()
                &&& sel[child as int] is None
            },
            Defect::Cycle(c) => {
                &&& resolved(eg, sel, roots)
                &&& reachable(eg, sel, roots, c as int)
                &&& on_cycle(eg, sel, c as int)
            },
        }
    }
}

/// What validation from `roots` says of `sel`: `Ok` where `sel` is valid, and
/// otherwise a defect that `sel` has, of the first kind of which it has any.
pub open spec fn checked(
    eg: &EGraph,
    sel: Selection,
    roots: Seq<usize>,
    verdict: Result<(), Defect>,
) -> bool {
    &&& verdict is Ok <==> valid(eg, sel, roots)
    &&& verdict matches Err(defect) ==> defect.found_in(eg, sel, roots)
}

/// Why an extraction gave no result.
#[derive(Debug, Clone, Copy, PartialEq, Eq)]
pub enum ExtractError {
    /// No finite extraction exists. From the fixpoint strategies: a root has no
    /// finite tree cost under any selection. From the exact solver: no selection is
    /// valid from the roots.
    Infeasible,
    /// The solver stopped at its deadline before it had found a valid selection.
    NoSolution,
}

impl ExtractError {
    /// The error in words.
    pub fn message(&self) -> (words: &'static str)
        ensures
            words@ == match *self {
                ExtractError::Infeasible => "no finite extraction exists"@,
                ExtractError::NoSolution => "the solver ran out of time before it found a selection"@,
            },
    {
        match self {
            ExtractError::Infeasible => "no finite extraction exists",
            ExtractError::NoSolution => "the solver ran out of time before it found a selection",
        }
    }
}

/// A strategy of extraction. Whatever else a strategy promises, what it returns is
/// valid from the roots.
pub trait Extractor {
    /// Chooses a node for every class that the roots need.
    fn extract(&self, eg: &EGraph, roots: &[usize]) -> (outcome: Result<
        ExtractionResult,
        ExtractError,
    >)
        requires
            eg.wf(),
            eg.has_roots(roots@),
        ensures
            outcome matches Ok(result) ==> fits(eg, result@) && valid(eg, result@, roots@),
    ;
}

/// The outcome of an extraction: the node chosen for each class, if any.
pub struct ExtractionResult {
    pub choices: Vec<Option<usize>>,
}

impl View for ExtractionResult {
    type V = Selection;

    open spec fn view(&self) -> Selection {
        self.choices@
    }
}

/// The cost of node `node` of class `class` where `costs` gives the cost of each
/// class.
pub fn node_sum_cost(eg: &EGraph, class: usize, node: usize, costs: &Vec<Cost>) -> (sum: Cost)
    requires
        eg.wf(),
        eg.has_node(class as int, node as int),
        costs@.len() == eg.num_classes(),
    ensures
        sum == node_total(eg, class as int, node as int, costs@),
{
    let here = &eg.classes[class].nodes[node];
    let ghost terms = child_costs(eg, class as int, node as int, costs@);
    let mut sum: Cost = 0;
    let mut j: usize = 0;
    while j < here.children.len()
        invariant
            eg.wf(),
            eg.has_node(class as int, node as int),
            costs@.len() == eg.num_classes(),
            here == eg.classes@[class as int].nodes@[node as int],
            terms == child_costs(eg, class as int, node as int, costs@),
            j <= here.children@.len(),
            sum == total(terms.take(j as int)),
        decreases here.children@.len() - j,
    {
        let d: usize = here.children[j];
        proof {
            assert(eg.children(class as int, node as int)[j as int] < eg.num_classes());
            assert(terms.take(j + 1) =~= terms.take(j as int).push(terms[j as int]));
            lemma_total_push(terms.take(j as int), terms[j as int]);
        }
        sum = add_cost(sum, costs[d]);
        j += 1;
    }
    proof {
        assert(terms.take(j as int) =~= terms);
    }
    add_cost(here.cost, sum)
}

impl ExtractionResult {
    /// A result for a graph of `n` classes in which no class has a chosen node.
    pub fn new(n: usize) -> (result: ExtractionResult)
        ensures
            result@ == Seq::new(n as nat, |c: int| None::<usize>),
    {
        let mut choices: Vec<Option<usize>> = Vec::new();
        let mut c: usize = 0;
        while c < n
            invariant
                c <= n,
                choices@ == Seq::new(c as nat, |a: int| None::<usize>),
            decreases n - c,
        {
            choices.push(None);
            proof {
                assert(choices@ =~= Seq::new((c + 1) as nat, |a: int| None::<usize>));
            }
            c += 1;
        }
        ExtractionResult { choices }
    }

    /// Chooses node `node` for class `class`.
    pub fn pick(&mut self, class: usize, node: usize)
        requires
            class < old(self)@.len(),
        ensures
            final(self)@ == old(self)@.update(class as int, Some(node)),
    {
        self.choices.set(class, Some(node));
    }

    /// Leaves class `class` without a chosen node.
    pub fn unpick(&mut self, class: usize)
        requires
            class < old(self)@.len(),
        ensures
            final(self)@ == old(self)@.update(class as int, None),
    {
        self.choices.set(class, None);
    }

    /// A copy of this result.
    pub fn duplicate(&self) -> (copy: ExtractionResult)
        ensures
            copy@ == self@,
    {
        let mut choices: Vec<Option<usize>> = Vec::new();
        let mut c: usize = 0;
        while c < self.choices.len()
            invariant
                c <= self@.len(),
                choices@ == self@.take(c as int),
            decreases self@.len() - c,
        {
            choices.push(self.choices[c]);
            proof {
                assert(choices@ =~= self@.take(c + 1));
            }
            c += 1;
        }
        proof {
            assert(self@.take(c as int) =~= self@);
        }
        ExtractionResult { choices }
    }

    /// The node chosen for class `class` with its label, its own cost and its
    /// children, if any is chosen.
    pub fn chosen_node<'a>(&self, eg: &'a EGraph, class: usize) -> (node: Option<&'a Node>)
        requires
            fits(eg, self@),
        ensures
            node == if class < self@.len() && self@[class as int] is Some {
                Some(&eg.classes@[class as int].nodes@[self@[class as int].unwrap() as int])
            } else {
                None
            },
    {
        if class < self.choices.len() {
            match self.choices[class] {
                Some(i) => Some(&eg.classes[class].nodes[i]),
                None => None,
            }
        } else {
            None
        }
    }

    /// The node chosen for class `class`, if any.
    pub fn chosen(&self, class: usize) -> (node: Option<usize>)
        ensures
            node == if class < self@.len() {
                self@[class as int]
            } else {
                None
            },
    {
        if class < self.choices.len() {
            self.choices[class]
        } else {
            None
        }
    }

    /// Tests whether this result has one entry per class of `eg`, each naming a
    /// node of its class.
    pub fn fits(&self, eg: &EGraph) -> (good: bool)
        ensures
            good == fits(eg, self@),
    {
        let n: usize = eg.classes.len();
        if self.choices.len() != n {
            return false;
        }
        let mut c: usize = 0;
        while c < n
            invariant
                n == eg.num_classes(),
                n == self@.len(),
                c <= n,
                forall|a: int|
                    0 <= a < c && (#[trigger] self@[a]) is Some ==> self@[a].unwrap()
                        < eg.num_nodes(a),
            decreases n - c,
        {
            match self.choices[c] {
                Some(i) => {
                    if i >= eg.classes[c].nodes.len() {
                        assert(self@[c as int] is Some);
                        return false;
                    }
                },
                None => {},
            }
            c += 1;
        }
        true
    }

    /// Validates this result from the roots of `eg`: every root has a chosen node,
    /// no reachable chosen node has a child without one, and no reachable class
    /// lies on a cycle. Reports the first kind of defect that is present, in this
    /// order.
    pub fn check(&self, eg: &EGraph) -> (outcome: Result<(), Defect>)
        requires
            eg.wf(),
            eg.has_roots(eg.roots@),
            fits(eg, self@),
        ensures
            checked(eg, self@, eg.roots@, outcome),
    {
        self.check_from(eg, eg.roots.as_slice())
    }

    /// Validates this result from `roots`, as [`ExtractionResult::check`] does from
    /// the roots of the graph.
    pub fn check_from(&self, eg: &EGraph, roots: &[usize]) -> (outcome: Result<(), Defect>)
        requires
            eg.wf(),
            eg.has_roots(roots@),
            fits(eg, self@),
        ensures
            checked(eg, self@, roots@, outcome),
    {
        let ghost sel = self@;
        let mut k: usize = 0;
        while k < roots.len()
            invariant
                eg.has_roots(roots@),
                fits(eg, self@),
                sel == self@,
                k <= roots@.len(),
                forall|q: int| 0 <= q < k ==> sel[#[trigger] roots@[q] as int] is Some,
            decreases roots@.len() - k,
        {
            let r: usize = roots[k];
            if self.choices[r].is_none() {
                proof {
                    lemma_root_reachable(eg, sel, roots@, k as int);
                    assert(roots@[k as int] == r);
                    assert forall|q: int| 0 <= q < roots@.take(k as int).len() implies sel[#[trigger] roots@.take(
                        k as int,
                    )[q] as int] is Some by {
                        assert(roots@.take(k as int)[q] == roots@[q]);
                    }
                }
                return Err(Defect::UnresolvedClass(r));
            }
            k += 1;
        }
        let walk = explore(eg, &self.choices, roots);
        match walk.dangling {
            Some((class, child)) => {
                proof {
                    lemma_reachable_step(eg, sel, roots@, class as int, child as int);
                }
                return Err(Defect::DanglingChild { class, child });
            },
            None => {},
        }
        proof {
            walk.lemma_resolved(eg, sel, roots@);
        }
        match walk.cycle {
            Some(c) => Err(Defect::Cycle(c)),
            None => {
                proof {
                    walk.lemma_acyclic(eg, sel, roots@);
                }
                Ok(())
            },
        }
    }

    /// The DAG cost of this result from `roots` if it is valid from them.
    pub fn assess(&self, eg: &EGraph, roots: &[usize]) -> (verdict: Option<Cost>)
        requires
            eg.wf(),
            eg.has_roots(roots@),
            fits(eg, self@),
        ensures
            verdict is Some <==> valid(eg, self@, roots@),
            verdict matches Some(cost) ==> cost == dag_cost_of(eg, self@, roots@),
    {
        match self.check_from(eg, roots) {
            Ok(()) => Some(self.dag_cost(eg, roots)),
            Err(_) => None,
        }
    }

    /// The tree cost of this result from `roots`: the own cost of each chosen node,
    /// once for every occurrence of its class below a root. It is [`INFINITY`] where
    /// a reachable class is unresolved or lies on a cycle.
    pub fn tree_cost(&self, eg: &EGraph, roots: &[usize]) -> (cost: Cost)
        requires
            eg.wf(),
            eg.has_roots(roots@),
            fits(eg, self@),
        ensures
            cost == tree_cost_of(eg, self@, roots@),
    {
        let ghost sel = self@;
        let n: usize = self.choices.len();
        let walk = explore(eg, &self.choices, roots);
        let mut k: usize = 0;
        while k < roots.len()
            invariant
                eg.has_roots(roots@),
                fits(eg, self@),
                sel == self@,
                k <= roots@.len(),
                forall|q: int| 0 <= q < k ==> sel[#[trigger] roots@[q] as int] is Some,
            decreases roots@.len() - k,
        {
            if self.choices[roots[k]].is_none() {
                proof {
                    lemma_root_reachable(eg, sel, roots@, k as int);
                    lemma_hopeless_unchosen(eg, sel, roots@[k as int] as int);
                    lemma_hopeless_tree_cost(eg, sel, roots@, roots@[k as int] as int);
                }
                return INFINITY;
            }
            k += 1;
        }
        match walk.dangling {
            Some((class, child)) => {
                proof {
                    lemma_hopeless_unchosen(eg, sel, child as int);
                    lemma_hopeless_parent(eg, sel, class as int, child as int);
                    lemma_hopeless_tree_cost(eg, sel, roots@, class as int);
                }
                return INFINITY;
            },
            None => {},
        }
        match walk.cycle {
            Some(c) => {
                proof {
                    lemma_hopeless_cycle(eg, sel, c as int);
                    lemma_hopeless_tree_cost(eg, sel, roots@, c as int);
                }
                return INFINITY;
            },
            None => {},
        }
        let mut memo: Vec<Cost> = Vec::new();
        let mut c: usize = 0;
        while c < n
            invariant
                c <= n,
                memo@.len() == c,
            decreases n - c,
        {
            memo.push(INFINITY);
            c += 1;
        }
        proof {
            walk.lemma_topological(eg, sel, roots@);
        }
        let mut k: usize = 0;
        while k < walk.order.len()
            invariant
                eg.wf(),
                fits(eg, sel),
                sel == self@,
                n == sel.len(),
                memo@.len() == n,
                walk.topological(eg, sel),
                k <= walk.order@.len(),
                forall|q: int|
                    0 <= q < k ==> settles(
                        eg,
                        sel,
                        #[trigger] walk.order@[q] as int,
                        (q + 1) as nat,
                        memo@[walk.order@[q] as int],
                    ),
            decreases walk.order@.len() - k,
        {
            let c: usize = walk.order[k];
            let ghost before = memo@;
            match self.choices[c] {
                Some(i) => {
                    let cost = node_sum_cost(eg, c, i, &memo);
                    memo.set(c, cost);
                    proof {
                        assert forall|j: int|
                            0 <= j < chosen_children(eg, sel, c as int).len() implies settles(
                            eg,
                            sel,
                            #[trigger] chosen_children(eg, sel, c as int)[j] as int,
                            k as nat,
                            before[chosen_children(eg, sel, c as int)[j] as int],
                        ) by {
                            let d = chosen_children(eg, sel, c as int)[j] as int;
                            assert(walk.stands_before(d, k as int));
                            let at = walk.place@[d] as int;
                            assert(settles(
                                eg,
                                sel,
                                walk.order@[at] as int,
                                (at + 1) as nat,
                                before[walk.order@[at] as int],
                            ));
                        }
                        lemma_settles_parent(eg, sel, c as int, k as nat, before);
                    }
                },
                None => {
                    memo.set(c, INFINITY);
                    proof {
                        lemma_hopeless_unchosen(eg, sel, c as int);
                    }
                },
            }
            proof {
                assert forall|q: int| 0 <= q < k + 1 implies settles(
                    eg,
                    sel,
                    #[trigger] walk.order@[q] as int,
                    (q + 1) as nat,
                    memo@[walk.order@[q] as int],
                ) by {
                    if q < k {
                        assert(walk.order@[q] != c);
                        assert(memo@[walk.order@[q] as int] == before[walk.order@[q] as int]);
                    }
                }
            }
            k += 1;
        }
        let ghost terms = Seq::new(
            roots@.len(),
            |q: int| class_tree_cost(eg, sel, roots@[q] as int),
        );
        proof {
            assert forall|q: int| 0 <= q < roots@.len() implies terms[q] == memo@[roots@[q] as int] by {
                let r = roots@[q] as int;
                assert(walk.stands_before(r, walk.order@.len() as int));
                let at = walk.place@[r] as int;
                assert(settles(eg, sel, walk.order@[at] as int, (at + 1) as nat, memo@[r]));
            }
        }
        let mut cost: Cost = 0;
        let mut k: usize = 0;
        while k < roots.len()
            invariant
                eg.has_roots(roots@),
                fits(eg, sel),
                n == sel.len(),
                memo@.len() == n,
                terms.len() == roots@.len(),
                forall|q: int| 0 <= q < roots@.len() ==> terms[q] == memo@[roots@[q] as int],
                k <= roots@.len(),
                cost == total(terms.take(k as int)),
            decreases roots@.len() - k,
        {
            let r: usize = roots[k];
            proof {
                assert(terms.take(k + 1) =~= terms.take(k as int).push(terms[k as int]));
                lemma_total_push(terms.take(k as int), terms[k as int]);
            }
            cost = add_cost(cost, memo[r]);
            k += 1;
        }
        proof {
            assert(terms.take(k as int) =~= terms);
        }
        cost
    }

    /// The DAG cost of this result from `roots`: the own cost of the chosen node of
    /// each reachable class, counted once however often the class is reached.
    pub fn dag_cost(&self, eg: &EGraph, roots: &[usize]) -> (cost: Cost)
        requires
            eg.wf(),
            eg.has_roots(roots@),
            fits(eg, self@),
        ensures
            cost == dag_cost_of(eg, self@, roots@),
    {
        let ghost sel = self@;
        let n: usize = self.choices.len();
        let walk = explore(eg, &self.choices, roots);
        let ghost terms = Seq::new(sel.len(), |c: int| dag_share(eg, sel, roots@, c));
        proof {
            walk.lemma_done_is_reachable(eg, sel, roots@);
        }
        let mut cost: Cost = 0;
        let mut c: usize = 0;
        while c < n
            invariant
                fits(eg, sel),
                sel == self@,
                n == sel.len(),
                walk.state@.len() == n,
                forall|a: int| #[trigger] reachable(eg, sel, roots@, a) <==> walk.done(a),
                terms == Seq::new(sel.len(), |c: int| dag_share(eg, sel, roots@, c)),
                c <= n,
                cost == total(terms.take(c as int)),
            decreases n - c,
        {
            let mut share: Cost = 0;
            if walk.state[c] == DONE {
                match self.choices[c] {
                    Some(i) => {
                        share = eg.classes[c].nodes[i].cost;
                    },
                    None => {},
                }
            }
            proof {
                assert(walk.done(c as int) <==> reachable(eg, sel, roots@, c as int));
                assert(share == terms[c as int]);
                assert(terms.take(c + 1) =~= terms.take(c as int).push(terms[c as int]));
                lemma_total_push(terms.take(c as int), terms[c as int]);
            }
            cost = add_cost(cost, share);
            c += 1;
        }
        proof {
            assert(terms.take(c as int) =~= terms);
        }
        cost
    }
}

} // verus!
