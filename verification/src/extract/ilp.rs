//! The exact DAG extractor. Extraction is a 0/1 program: a class is active if it
//! is a root or a child of the node selected for an active class, every active
//! class selects exactly one of its nodes, the selected nodes form no cycle, and
//! the sum of their own costs is to be minimal. The program is solved by branch
//! and bound over the active classes, under a wall-clock timeout.

use crate::cost::{add_cost, Cost, INFINITY};
use crate::egraph::EGraph;
use crate::extract::clock::Deadline;
use crate::extract::search::{
    activates, agrees, covered, dag_optimal, enlisted, exact_find, Find, front_of,
    lemma_covered_by_cases, lemma_covered_improves, lemma_distinct_bound, lemma_front_advance,
    lemma_leaf_resolved, lemma_pruned, lemma_resolved_same, lemma_spent_is_dag_cost,
    lemma_spent_more, lemma_spent_nothing, lemma_stands_longer, searched, solvable, spent_on,
    stands, weighed, width,
};
use crate::extract::selection::{
    dag_cost_of, fits, lemma_root_reachable, reachable, Selection, valid,
};
use crate::extract::{ExtractError, ExtractionResult, Extractor};
use vstd::prelude::*;

verus! {

/// The active classes in the order in which they became active, each once.
struct Agenda {
    /// The active classes.
    list: Vec<usize>,
    /// For each class, whether it is active.
    flags: Vec<bool>,
}

impl Agenda {
    /// The agenda's invariant, over `n` classes.
    spec fn inv(&self, n: nat) -> bool {
        &&& self.flags@.len() == n
        &&& self.list@.len() <= n
        &&& forall|q: int| 0 <= q < self.list@.len() ==> #[trigger] self.list@[q] < n
        &&& forall|p: int, q: int|
            0 <= p < q < self.list@.len() ==> self.list@[p] != self.list@[q]
        &&& forall|c: usize|
            c < n ==> (self.flags@[c as int] <==> #[trigger] self.list@.contains(c))
    }

    /// An agenda over `n` classes on which nothing stands.
    fn new(n: usize) -> (agenda: Agenda)
        ensures
            agenda.inv(n as nat),
            agenda.list@.len() == 0,
    {
        let mut flags: Vec<bool> = Vec::new();
        let mut c: usize = 0;
        while c < n
            invariant
                c <= n,
                flags@.len() == c,
                forall|a: int| 0 <= a < c ==> !flags@[a],
            decreases n - c,
        {
            flags.push(false);
            c += 1;
        }
        Agenda { list: Vec::new(), flags }
    }

    /// Puts class `c` on the agenda unless it stands there.
    fn add(&mut self, c: usize)
        requires
            old(self).inv(old(self).flags@.len()),
            c < old(self).flags@.len(),
        ensures
            final(self).inv(old(self).flags@.len()),
            final(self).list@ == if old(self).list@.contains(c) {
                old(self).list@
            } else {
                old(self).list@.push(c)
            },
    {
        if !self.flags[c] {
            let ghost before = self.list@;
            let ghost n = self.flags@.len();
            self.flags.set(c, true);
            self.list.push(c);
            proof {
                assert(self.list@[before.len() as int] == c);
                assert forall|x: usize| x < n implies (self.flags@[x as int]
                    <==> #[trigger] self.list@.contains(x)) by {
                    if before.contains(x) {
                        let h = choose|h: int| 0 <= h < before.len() && before[h] == x;
                        assert(self.list@[h] == x);
                    }
                    if self.list@.contains(x) && x != c {
                        let h = choose|h: int| 0 <= h < self.list@.len() && self.list@[h] == x;
                        assert(before[h] == x);
                    }
                }
                assert forall|p: int, q: int| 0 <= p < q < self.list@.len() implies self.list@[p]
                    != self.list@[q] by {
                    if q == before.len() {
                        assert(before[p] == self.list@[p]);
                        assert(before.contains(self.list@[p]));
                    }
                }
                lemma_distinct_bound(self.list@, n);
            }
        }
    }

    /// Takes off the agenda all that became active after the first `mark` classes.
    fn retract(&mut self, mark: usize)
        requires
            old(self).inv(old(self).flags@.len()),
            mark <= old(self).list@.len(),
        ensures
            final(self).inv(old(self).flags@.len()),
            final(self).list@ == old(self).list@.take(mark as int),
    {
        let ghost n = self.flags@.len();
        while self.list.len() > mark
            invariant
                self.inv(n),
                n == old(self).flags@.len(),
                mark <= self.list@.len() <= old(self).list@.len(),
                self.list@ == old(self).list@.take(self.list@.len() as int),
            decreases self.list@.len(),
        {
            let ghost before = self.list@;
            let last = self.list.pop();
            match last {
                Some(d) => {
                    self.flags.set(d, false);
                    proof {
                        assert(self.list@ =~= before.drop_last());
                        assert(d == before[before.len() - 1]);
                        assert forall|x: usize| x < n implies (self.flags@[x as int]
                            <==> #[trigger] self.list@.contains(x)) by {
                            if self.list@.contains(x) {
                                let h = choose|h: int|
                                    0 <= h < self.list@.len() && self.list@[h] == x;
                                assert(before[h] == x);
                                assert(before.contains(x));
                            }
                            if before.contains(x) && x != d {
                                let h = choose|h: int| 0 <= h < before.len() && before[h] == x;
                                assert(self.list@[h] == x);
                            }
                        }
                        assert(self.list@ =~= old(self).list@.take(self.list@.len() as int));
                    }
                },
                None => {},
            }
        }
    }
}

/// The state of a search: the decisions made, the active classes, and the best
/// valid selection found.
struct Search {
    /// The node chosen for each decided class.
    partial: ExtractionResult,
    /// The active classes, the decided ones first.
    agenda: Agenda,
    /// The own costs of the chosen nodes together.
    spent: Cost,
    /// The best valid selection found, if any.
    best: Option<ExtractionResult>,
    /// The DAG cost of `best`.
    best_cost: Cost,
    /// Whether the deadline passed before the search was through.
    timed_out: bool,
}

impl Search {
    /// The invariant of a search that has decided the first `next` classes of its
    /// agenda.
    spec fn front(&self, eg: &EGraph, roots: Seq<usize>, next: int) -> bool {
        &&& self.agenda.inv(eg.num_classes())
        &&& front_of(eg, roots, self.partial@, self.agenda.list@, next)
        &&& self.spent == spent_on(eg, self.partial@)
    }

    /// Whether what the search holds as its best is valid and costs what the search
    /// says.
    spec fn holds_best(&self, eg: &EGraph, roots: Seq<usize>) -> bool {
        match self.best {
            Some(result) => {
                &&& fits(eg, result@)
                &&& valid(eg, result@, roots)
                &&& self.best_cost == dag_cost_of(eg, result@, roots)
            },
            None => true,
        }
    }

    /// The best find of the search.
    spec fn found(&self) -> Option<Find> {
        match self.best {
            Some(result) => Some(Find { sel: result@, cost: self.best_cost }),
            None => None,
        }
    }

    /// Whether the search stands where `before` stood, with a best that is no
    /// worse.
    spec fn resumes(&self, before: &Search) -> bool {
        &&& self.partial@ == before.partial@
        &&& self.agenda.list@ == before.agenda.list@
        &&& before.timed_out ==> self.timed_out
        &&& before.best is Some ==> self.best is Some && self.best_cost <= before.best_cost
    }
}

/// Puts the children of node `node` of class `class` on the agenda.
fn activate(eg: &EGraph, class: usize, node: usize, agenda: &mut Agenda)
    requires
        eg.wf(),
        eg.has_node(class as int, node as int),
        old(agenda).inv(eg.num_classes()),
    ensures
        final(agenda).inv(eg.num_classes()),
        activates(eg, old(agenda).list@, final(agenda).list@, class as int, node as int),
        final(agenda).list@ == enlisted(
            old(agenda).list@,
            eg.children(class as int, node as int),
            eg.children(class as int, node as int).len(),
        ),
{
    let kids = &eg.classes[class].nodes[node].children;
    let ghost start = agenda.list@;
    let mut j: usize = 0;
    while j < kids.len()
        invariant
            eg.wf(),
            eg.has_node(class as int, node as int),
            kids@ == eg.children(class as int, node as int),
            agenda.inv(eg.num_classes()),
            j <= kids@.len(),
            start.len() <= agenda.list@.len(),
            agenda.list@ == enlisted(start, kids@, j as nat),
            forall|q: int| 0 <= q < start.len() ==> #[trigger] agenda.list@[q] == start[q],
            forall|h: int| 0 <= h < j ==> stands(agenda.list@, #[trigger] kids@[h] as int),
            forall|q: int|
                start.len() <= q < agenda.list@.len() ==> kids@.contains(#[trigger] agenda.list@[q]),
        decreases kids@.len() - j,
    {
        let d: usize = kids[j];
        let ghost before = agenda.list@;
        proof {
            assert(eg.children(class as int, node as int)[j as int] < eg.num_classes());
        }
        agenda.add(d);
        proof {
            reveal(stands);
            if before.contains(d) {
                let h = choose|h: int| 0 <= h < before.len() && before[h] == d;
                assert(agenda.list@[h] == d);
            } else {
                assert(agenda.list@[before.len() as int] == d);
                assert(kids@[j as int] == d);
            }
            assert forall|h: int| 0 <= h < j + 1 implies stands(
                agenda.list@,
                #[trigger] kids@[h] as int,
            ) by {
                if h < j {
                    lemma_stands_longer(before, agenda.list@, kids@[h] as int);
                }
            }
        }
        j += 1;
    }
}

/// Weighs the selection that a search has completed against its best. What the
/// search has spent is the DAG cost of the selection.
fn record(eg: &EGraph, roots: &[usize], st: &mut Search)
    requires
        eg.wf(),
        eg.has_roots(roots@),
        old(st).front(eg, roots@, old(st).agenda.list@.len() as int),
        old(st).holds_best(eg, roots@),
    ensures
        final(st).front(eg, roots@, old(st).agenda.list@.len() as int),
        final(st).holds_best(eg, roots@),
        final(st).resumes(old(st)),
        final(st).timed_out == old(st).timed_out,
        final(st).found() == weighed(eg, roots@, old(st).partial@, old(st).found()),
        covered(eg, roots@, old(st).partial@, final(st).best is Some, final(st).best_cost),
{
    let ghost partial = st.partial@;
    proof {
        lemma_spent_is_dag_cost(
            eg,
            roots@,
            partial,
            st.agenda.list@,
            st.agenda.list@.len() as int,
        );
        lemma_leaf_resolved(eg, roots@, partial, st.agenda.list@);
        assert forall|full: Selection| agrees(partial, full) implies dag_cost_of(eg, partial, roots@)
            == dag_cost_of(eg, full, roots@) && (#[trigger] valid(eg, full, roots@) ==> valid(
            eg,
            partial,
            roots@,
        )) by {
            lemma_resolved_same(eg, partial, full, roots@);
        }
    }
    match st.partial.check_from(eg, roots) {
        Ok(()) => {
            let cost: Cost = st.spent;
            let better: bool = match &st.best {
                Some(_) => cost < st.best_cost,
                None => true,
            };
            if better {
                st.best = Some(st.partial.duplicate());
                st.best_cost = cost;
            }
        },
        Err(_) => {},
    }
}

/// Decides the classes of the agenda from the `next` on, in every way that may
/// lead below the best found, and leaves the search where it stood. It calls itself
/// once for every class that it decides, and so goes as deep as a selection has
/// classes.
fn branch(eg: &EGraph, roots: &[usize], deadline: &Deadline, st: &mut Search, next: usize)
    requires
        eg.wf(),
        eg.has_roots(roots@),
        old(st).front(eg, roots@, next as int),
        old(st).holds_best(eg, roots@),
    ensures
        final(st).front(eg, roots@, next as int),
        final(st).holds_best(eg, roots@),
        final(st).resumes(old(st)),
        !final(st).timed_out ==> covered(
            eg,
            roots@,
            old(st).partial@,
            final(st).best is Some,
            final(st).best_cost,
        ),
        !final(st).timed_out ==> final(st).found() == searched(
            eg,
            roots@,
            old(st).partial@,
            old(st).agenda.list@,
            next as nat,
            width(eg, old(st).agenda.list@, next as nat),
            old(st).found(),
        ),
        deadline.limit_secs is None && !old(st).timed_out ==> !final(st).timed_out,
    decreases eg.num_classes() - next,
{
    if st.timed_out {
        return ;
    }
    if deadline.passed() {
        st.timed_out = true;
        return ;
    }
    if next == st.agenda.list.len() {
        record(eg, roots, st);
        return ;
    }
    let c: usize = st.agenda.list[next];
    let m: usize = eg.classes[c].nodes.len();
    let base: Cost = st.spent;
    let ghost entry = st.partial@;
    let ghost waiting = st.agenda.list@;
    proof {
        assert(entry[waiting[next as int] as int] is None);
        assert(reachable(eg, entry, roots@, waiting[next as int] as int));
    }
    let mut i: usize = 0;
    while i < m
        invariant
            eg.wf(),
            eg.has_roots(roots@),
            next < waiting.len(),
            c == waiting[next as int],
            c < eg.num_classes(),
            m == eg.num_nodes(c as int),
            i <= m,
            entry == old(st).partial@,
            entry[c as int] is None,
            st.front(eg, roots@, next as int),
            st.holds_best(eg, roots@),
            st.resumes(old(st)),
            st.partial@ == entry,
            st.agenda.list@ == waiting,
            st.spent == base,
            !st.timed_out ==> st.found() == searched(
                eg,
                roots@,
                entry,
                waiting,
                next as nat,
                i as nat,
                old(st).found(),
            ),
            !st.timed_out ==> forall|h: int|
                0 <= h < i ==> covered(
                    eg,
                    roots@,
                    #[trigger] entry.update(c as int, Some(h as usize)),
                    st.best is Some,
                    st.best_cost,
                ),
            deadline.limit_secs is None && !old(st).timed_out ==> !st.timed_out,
        decreases m - i,
    {
        let price: Cost = eg.classes[c].nodes[i].cost;
        let spent: Cost = add_cost(base, price);
        let ghost found = st.best is Some;
        let ghost bound = st.best_cost;
        let ghost late = st.timed_out;
        proof {
            lemma_spent_more(eg, entry, c as int, i);
        }
        let prune: bool = match &st.best {
            Some(_) => spent >= st.best_cost,
            None => false,
        };
        if prune {
            proof {
                lemma_pruned(eg, roots@, entry, waiting, next as int, i, st.best_cost);
            }
        } else {
            let mark: usize = st.agenda.list.len();
            st.partial.pick(c, i);
            st.spent = spent;
            activate(eg, c, i, &mut st.agenda);
            proof {
                lemma_front_advance(eg, roots@, entry, waiting, st.agenda.list@, next as int, i);
            }
            branch(eg, roots, deadline, st, next + 1);
            st.agenda.retract(mark);
            st.partial.unpick(c);
            st.spent = base;
            proof {
                assert(st.partial@ =~= entry);
                assert(st.agenda.list@ =~= waiting);
            }
        }
        proof {
            if !st.timed_out {
                assert forall|h: int| 0 <= h < i + 1 implies covered(
                    eg,
                    roots@,
                    #[trigger] entry.update(c as int, Some(h as usize)),
                    st.best is Some,
                    st.best_cost,
                ) by {
                    if h < i {
                        assert(!late);
                        lemma_covered_improves(
                            eg,
                            roots@,
                            entry.update(c as int, Some(h as usize)),
                            found,
                            bound,
                            st.best is Some,
                            st.best_cost,
                        );
                    }
                }
            }
        }
        i += 1;
    }
    proof {
        if !st.timed_out {
            lemma_covered_by_cases(
                eg,
                roots@,
                entry,
                c as int,
                st.best is Some,
                st.best_cost,
            );
        }
    }
}

/// What the exact solver found.
pub struct Solved {
    /// The best valid selection found.
    pub result: ExtractionResult,
    /// Whether the search was through before the deadline, so that no valid
    /// selection has a lower DAG cost than `result`.
    pub proved_optimal: bool,
}

/// The selection that an exhaustive search from `roots` finds, if any is valid.
pub open spec fn exact_selection(eg: &EGraph, roots: Seq<usize>) -> Option<Selection> {
    match exact_find(eg, roots) {
        Some(find) => Some(find.sel),
        None => None,
    }
}

/// What solving gives from `roots` under a limit of `limit_secs` seconds, if
/// any. A selection that is returned is valid. Where the solver says that it has
/// proved it optimal, it is what the exhaustive search finds, and no valid
/// selection has a lower DAG cost; the solver says so whenever it has no limit. The
/// solver reports [`ExtractError::Infeasible`] only where no selection is valid,
/// and [`ExtractError::NoSolution`] only where it has a limit.
pub open spec fn solved_outcome(
    eg: &EGraph,
    roots: Seq<usize>,
    limit_secs: Option<u64>,
    outcome: Result<Solved, ExtractError>,
) -> bool {
    &&& match outcome {
        Ok(solved) => {
            &&& fits(eg, solved.result@)
            &&& valid(eg, solved.result@, roots)
            &&& solved.proved_optimal ==> dag_optimal(eg, solved.result@, roots)
            &&& solved.proved_optimal ==> exact_selection(eg, roots) == Some(solved.result@)
            &&& limit_secs is None ==> solved.proved_optimal
        },
        Err(ExtractError::Infeasible) => !solvable(eg, roots) && exact_selection(eg, roots) is None,
        Err(ExtractError::NoSolution) => limit_secs is Some,
    }
    &&& limit_secs is None ==> (outcome is Ok <==> solvable(eg, roots))
}

/// What an exact extraction gives from `roots` under a limit of `limit_secs`
/// seconds, if any: without a limit, the selection that the exhaustive search
/// finds, which no valid selection undercuts in DAG cost, or
/// [`ExtractError::Infeasible`] where no selection is valid; with a limit, a valid
/// selection or an error, of which [`ExtractError::Infeasible`] comes only where no
/// selection is valid.
pub open spec fn exact_outcome(
    eg: &EGraph,
    roots: Seq<usize>,
    limit_secs: Option<u64>,
    outcome: Result<ExtractionResult, ExtractError>,
) -> bool {
    &&& match outcome {
        Ok(result) => {
            &&& fits(eg, result@)
            &&& valid(eg, result@, roots)
            &&& limit_secs is None ==> dag_optimal(eg, result@, roots)
            &&& limit_secs is None ==> exact_selection(eg, roots) == Some(result@)
        },
        Err(ExtractError::Infeasible) => !solvable(eg, roots) && exact_selection(eg, roots) is None,
        Err(ExtractError::NoSolution) => limit_secs is Some,
    }
    &&& limit_secs is None ==> (outcome is Ok <==> solvable(eg, roots))
}

/// Extracts a selection of least DAG cost by branch and bound, within
/// `timeout_secs` seconds where that is given.
pub struct IlpExtractor {
    pub timeout_secs: Option<u64>,
}

impl IlpExtractor {
    /// Searches the selections from `roots` for a valid one of least DAG cost. At
    /// the deadline the search stops and returns the best it has found, without a
    /// proof that none is better.
    pub fn solve(&self, eg: &EGraph, roots: &[usize]) -> (outcome: Result<Solved, ExtractError>)
        requires
            eg.wf(),
            eg.has_roots(roots@),
        ensures
            solved_outcome(eg, roots@, self.timeout_secs, outcome),
    {
        let n: usize = eg.classes.len();
        let deadline = Deadline::starting_now(self.timeout_secs);
        let mut agenda = Agenda::new(n);
        let mut k: usize = 0;
        while k < roots.len()
            invariant
                eg.has_roots(roots@),
                n == eg.num_classes(),
                agenda.inv(n as nat),
                k <= roots@.len(),
                agenda.list@ == enlisted(Seq::empty(), roots@, k as nat),
                forall|q: int| 0 <= q < k ==> stands(agenda.list@, #[trigger] roots@[q] as int),
                forall|q: int|
                    0 <= q < agenda.list@.len() ==> roots@.contains(#[trigger] agenda.list@[q]),
            decreases roots@.len() - k,
        {
            let r: usize = roots[k];
            let ghost before = agenda.list@;
            agenda.add(r);
            proof {
                reveal(stands);
                if before.contains(r) {
                    let h = choose|h: int| 0 <= h < before.len() && before[h] == r;
                    assert(agenda.list@[h] == r);
                } else {
                    assert(agenda.list@[before.len() as int] == r);
                }
                assert forall|q: int| 0 <= q < k + 1 implies stands(
                    agenda.list@,
                    #[trigger] roots@[q] as int,
                ) by {
                    if q < k {
                        assert(stands(before, roots@[q] as int));
                        let h = choose|h: int|
                            0 <= h < before.len() && (#[trigger] before[h]) == roots@[q];
                        assert(agenda.list@[h] == before[h]);
                    }
                }
                assert forall|q: int| 0 <= q < agenda.list@.len() implies roots@.contains(
                    #[trigger] agenda.list@[q],
                ) by {
                    if q < before.len() {
                        assert(agenda.list@[q] == before[q]);
                    } else {
                        assert(roots@[k as int] == r);
                    }
                }
            }
            k += 1;
        }
        let mut st = Search {
            partial: ExtractionResult::new(n),
            agenda,
            spent: 0,
            best: None,
            best_cost: INFINITY,
            timed_out: false,
        };
        proof {
            let none = st.partial@;
            lemma_spent_nothing(eg, n as nat);
            assert forall|q: int| 0 <= q < st.agenda.list@.len() implies reachable(
                eg,
                none,
                roots@,
                #[trigger] st.agenda.list@[q] as int,
            ) by {
                let r = st.agenda.list@[q];
                let h = choose|h: int| 0 <= h < roots@.len() && roots@[h] == r;
                lemma_root_reachable(eg, none, roots@, h);
            }
            assert(front_of(eg, roots@, none, st.agenda.list@, 0));
        }
        branch(eg, roots, &deadline, &mut st, 0);
        let proved_optimal: bool = !st.timed_out;
        proof {
            let none = Seq::new(n as nat, |c: int| None::<usize>);
            assert forall|full: Selection| fits(eg, full) implies agrees(none, full) by {}
        }
        match st.best {
            Some(result) => Ok(Solved { result, proved_optimal }),
            None => {
                if proved_optimal {
                    Err(ExtractError::Infeasible)
                } else {
                    Err(ExtractError::NoSolution)
                }
            },
        }
    }
}

impl Extractor for IlpExtractor {
    /// Returns the selection that [`IlpExtractor::solve`] finds. It is valid from
    /// `roots`. Without a timeout it is what the exhaustive search finds, no valid
    /// selection has a lower DAG cost, and the extraction fails only where no
    /// selection is valid.
    fn extract(&self, eg: &EGraph, roots: &[usize]) -> (outcome: Result<
        ExtractionResult,
        ExtractError,
    >)
        ensures
            exact_outcome(eg, roots@, self.timeout_secs, outcome),
    {
        match self.solve(eg, roots) {
            Ok(solved) => Ok(solved.result),
            Err(error) => Err(error),
        }
    }
}

} // verus!
