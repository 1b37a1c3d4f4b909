//! A depth-first walk over a selection from its roots. It finds the reachable
//! classes, an order of them in which children come before parents, and the
//! first dangling child and the first cycle, if there are any.

use crate::egraph::EGraph;
use crate::extract::selection::{
    acyclic, chosen_children, edge, fits, is_path, leads, lemma_path_push, lemma_reachable_step,
    lemma_root_reachable, lemma_subpath, on_cycle, reachable, resolved, roots_chosen, Selection,
};
use vstd::prelude::*;

verus! {

/// The mark of a class that the walk has not met.
pub const UNSEEN: u8 = 0;

/// The mark of a class that the walk has entered and not left.
pub const OPEN: u8 = 1;

/// The mark of a class that the walk has left.
pub const DONE: u8 = 2;

/// How many entries of `marks` are [`UNSEEN`].
pub open spec fn count_unseen(marks: Seq<u8>) -> nat
    decreases marks.len(),
{
    if marks.len() == 0 {
        0
    } else {
        count_unseen(marks.drop_last()) + if marks.last() == UNSEEN {
            1nat
        } else {
            0nat
        }
    }
}

/// No more entries are unseen than there are entries.
pub proof fn lemma_count_unseen_bound(marks: Seq<u8>)
    ensures
        count_unseen(marks) <= marks.len(),
    decreases marks.len(),
{
    if marks.len() > 0 {
        lemma_count_unseen_bound(marks.drop_last());
    }
}

/// Marking an entry changes the count by what that entry was and becomes.
pub proof fn lemma_count_unseen_update(marks: Seq<u8>, at: int, mark: u8)
    requires
        0 <= at < marks.len(),
    ensures
        count_unseen(marks.update(at, mark)) + (if marks[at] == UNSEEN {
            1nat
        } else {
            0nat
        }) == count_unseen(marks) + (if mark == UNSEEN {
            1nat
        } else {
            0nat
        }),
    decreases marks.len(),
{
    let after = marks.update(at, mark);
    if at == marks.len() - 1 {
        assert(after.drop_last() =~= marks.drop_last());
    } else {
        lemma_count_unseen_update(marks.drop_last(), at, mark);
        assert(after.drop_last() =~= marks.drop_last().update(at, mark));
    }
}

/// What a sequence with one more element holds.
pub proof fn lemma_push_contains(s: Seq<int>, last: int, x: int)
    ensures
        s.push(last).contains(x) <==> s.contains(x) || x == last,
{
    let t = s.push(last);
    if s.contains(x) {
        let k = choose|k: int| 0 <= k < s.len() && s[k] == x;
        assert(t[k] == x);
    }
    if x == last {
        assert(t[s.len() as int] == x);
    }
    if t.contains(x) {
        let k = choose|k: int| 0 <= k < t.len() && t[k] == x;
        if k < s.len() {
            assert(s[k] == x);
        }
    }
}

/// The marks that a walk from `roots` leaves: [`DONE`] on what it reaches, and
/// [`UNSEEN`] on the rest.
pub open spec fn reach_marks(eg: &EGraph, sel: Selection, roots: Seq<usize>) -> Seq<u8> {
    Seq::new(
        sel.len(),
        |c: int|
            if reachable(eg, sel, roots, c) {
                DONE
            } else {
                UNSEEN
            },
    )
}

/// The state of a walk.
pub struct Walk {
    /// The mark of each class.
    pub state: Vec<u8>,
    /// The classes that the walk has left, in the order in which it left them.
    pub order: Vec<usize>,
    /// For each class that the walk has left, its place in `order`.
    pub place: Vec<usize>,
    /// The first chosen node met with an unresolved child: its class and that child.
    pub dangling: Option<(usize, usize)>,
    /// The first class met again while the walk was still inside it.
    pub cycle: Option<usize>,
    /// The classes that the walk is inside, from the outermost to the innermost.
    pub path: Vec<usize>,
    /// For each class that the walk is inside, how many children of its chosen node
    /// the walk has gone to.
    pub turn: Vec<usize>,
}

impl Walk {
    /// What the walk knows of a child `d` of a class that it has left or is about
    /// to leave at place `limit`.
    pub open spec fn child_ok(&self, sel: Selection, d: int, limit: int) -> bool {
        &&& 0 <= d < sel.len()
        &&& self.state@[d] != UNSEEN
        &&& self.dangling is None ==> sel[d] is Some
        &&& self.cycle is None ==> self.state@[d] == DONE && self.place@[d] < limit
    }

    /// What the walk knows of a class `c` that it has left.
    pub open spec fn settled(&self, eg: &EGraph, sel: Selection, c: int) -> bool {
        &&& self.place@[c] < self.order@.len()
        &&& self.order@[self.place@[c] as int] == c
        &&& forall|j: int|
            0 <= j < chosen_children(eg, sel, c).len() ==> self.child_ok(
                sel,
                #[trigger] chosen_children(eg, sel, c)[j] as int,
                self.place@[c] as int,
            )
    }

    /// The walk's invariant, while it is inside the classes of `stack`.
    pub open spec fn inv(
        &self,
        eg: &EGraph,
        sel: Selection,
        roots: Seq<usize>,
        stack: Seq<int>,
    ) -> bool {
        &&& self.state@.len() == sel.len()
        &&& self.place@.len() == sel.len()
        &&& self.order@.len() + count_unseen(self.state@) + stack.len() <= sel.len()
        &&& is_path(eg, sel, stack)
        &&& forall|c: int| 0 <= c < sel.len() ==> #[trigger] self.state@[c] <= DONE
        &&& forall|c: int|
            0 <= c < sel.len() ==> (#[trigger] self.state@[c] == OPEN <==> stack.contains(c))
        &&& forall|c: int|
            0 <= c < sel.len() && #[trigger] self.state@[c] != UNSEEN ==> reachable(
                eg,
                sel,
                roots,
                c,
            )
        &&& forall|c: int|
            0 <= c < sel.len() && #[trigger] self.state@[c] == DONE ==> self.settled(eg, sel, c)
        &&& forall|k: int|
            0 <= k < self.order@.len() ==> (#[trigger] self.order@[k]) < sel.len()
                && self.state@[self.order@[k] as int] == DONE && self.place@[self.order@[k] as int]
                == k
        &&& self.dangling matches Some((p, d)) ==> p < sel.len() && reachable(
            eg,
            sel,
            roots,
            p as int,
        ) && edge(eg, sel, p as int, d as int) && d < sel.len() && sel[d as int] is None
        &&& self.cycle matches Some(c) ==> c < sel.len() && reachable(eg, sel, roots, c as int)
            && on_cycle(eg, sel, c as int)
    }

    /// A walk that has met no class of a graph of `n` classes.
    fn start(n: usize) -> (walk: Walk)
        ensures
            walk.state@.len() == n,
            walk.place@.len() == n,
            walk.turn@.len() == n,
            walk.order@.len() == 0,
            walk.path@.len() == 0,
            walk.dangling is None,
            walk.cycle is None,
            forall|c: int| 0 <= c < n ==> walk.state@[c] == UNSEEN,
    {
        let mut state: Vec<u8> = Vec::new();
        let mut place: Vec<usize> = Vec::new();
        let mut turn: Vec<usize> = Vec::new();
        let mut c: usize = 0;
        while c < n
            invariant
                c <= n,
                state@.len() == c,
                place@.len() == c,
                turn@.len() == c,
                forall|a: int| 0 <= a < c ==> state@[a] == UNSEEN,
            decreases n - c,
        {
            state.push(UNSEEN);
            place.push(0);
            turn.push(0);
            c += 1;
        }
        Walk {
            state,
            order: Vec::new(),
            place,
            dangling: None,
            cycle: None,
            path: Vec::new(),
            turn,
        }
    }

    /// The classes that the walk is inside, from the outermost to the innermost.
    pub open spec fn trail(&self) -> Seq<int> {
        Seq::new(self.path@.len(), |t: int| self.path@[t] as int)
    }

    /// What the walk knows of a child `d` of the class at place `t` of its path:
    /// it has left the child, or the child is the last it went to and stands next
    /// on the path.
    pub open spec fn child_met(&self, sel: Selection, d: int, t: int, last: bool) -> bool {
        &&& 0 <= d < sel.len()
        &&& self.state@[d] != UNSEEN
        &&& self.dangling is None ==> sel[d] is Some
        &&& self.cycle is None ==> (self.state@[d] == DONE && self.place@[d] < self.order@.len())
            || (last && t + 1 < self.path@.len() && self.path@[t + 1] == d)
    }

    /// What the walk knows of the class at place `t` of its path: of each child
    /// that it has gone to, what [`Walk::child_met`] says.
    pub open spec fn frame_ok(&self, eg: &EGraph, sel: Selection, t: int) -> bool {
        let c = self.path@[t] as int;
        &&& self.turn@[c] <= chosen_children(eg, sel, c).len()
        &&& forall|j: int|
            0 <= j < self.turn@[c] ==> self.child_met(
                sel,
                #[trigger] chosen_children(eg, sel, c)[j] as int,
                t,
                j == self.turn@[c] - 1,
            )
    }

    /// The invariant of a walk that is under way.
    pub open spec fn going(&self, eg: &EGraph, sel: Selection, roots: Seq<usize>) -> bool {
        &&& self.inv(eg, sel, roots, self.trail())
        &&& self.turn@.len() == sel.len()
        &&& forall|t: int| 0 <= t < self.path@.len() ==> (#[trigger] self.path@[t]) < sel.len()
        &&& forall|p: int, q: int|
            0 <= p < q < self.path@.len() ==> self.path@[p] != self.path@[q]
        &&& forall|t: int| 0 <= t < self.path@.len() ==> #[trigger] self.frame_ok(eg, sel, t)
    }

    /// How many children of the chosen node of the innermost class the walk has
    /// still to go to; none where the walk is inside no class.
    pub open spec fn rest(&self, eg: &EGraph, sel: Selection) -> int {
        if self.path@.len() > 0 {
            chosen_children(eg, sel, self.path@.last() as int).len() - self.turn@[self.path@.last() as int]
        } else {
            0
        }
    }

    /// Whether the walk is nearer its end than `before` was: it has met a class
    /// more, or it is inside the same classes and has a child less to go to.
    pub open spec fn nearer(&self, before: &Walk, eg: &EGraph, sel: Selection) -> bool {
        ||| count_unseen(self.state@) < count_unseen(before.state@)
        ||| {
            &&& count_unseen(self.state@) == count_unseen(before.state@)
            &&& self.path@ == before.path@
            &&& self.rest(eg, sel) < before.rest(eg, sel)
        }
    }

    /// Whether the walk has left what `before` had left, and has met what `before`
    /// had met.
    pub open spec fn keeps(&self, before: &Walk) -> bool {
        &&& self.state@.len() == before.state@.len()
        &&& forall|x: int|
            0 <= x < before.state@.len() && #[trigger] before.state@[x] == DONE
                ==> self.state@[x] == DONE
        &&& forall|x: int|
            0 <= x < before.state@.len() && #[trigger] before.state@[x] != UNSEEN
                ==> self.state@[x] != UNSEEN
    }
}

/// Enters the unseen class `r` from outside every class.
fn begin(
    walk: &mut Walk,
    eg: &EGraph,
    choices: &Vec<Option<usize>>,
    r: usize,
    Ghost(roots): Ghost<Seq<usize>>,
)
    requires
        fits(eg, choices@),
        old(walk).going(eg, choices@, roots),
        old(walk).path@.len() == 0,
        r < choices@.len(),
        old(walk).state@[r as int] == UNSEEN,
        reachable(eg, choices@, roots, r as int),
    ensures
        final(walk).going(eg, choices@, roots),
        final(walk).keeps(old(walk)),
        final(walk).state@[r as int] == OPEN,
{
    let ghost sel = choices@;
    let ghost before = *walk;
    proof {
        lemma_count_unseen_update(walk.state@, r as int, OPEN);
        assert(before.trail() =~= Seq::empty());
    }
    walk.state.set(r, OPEN);
    walk.turn.set(r, 0);
    walk.path.push(r);
    proof {
        assert(walk.trail() =~= seq![r as int]);
        assert forall|x: int| walk.trail().contains(x) <==> x == r by {
            if x == r {
                assert(walk.trail()[0] == x);
            }
        }
        assert(walk.inv(eg, sel, roots, walk.trail()));
        assert(walk.frame_ok(eg, sel, 0));
    }
}

/// Goes to the next child of the chosen node of the innermost class: enters it if
/// it is unseen, and notes a cycle if the walk is inside it.
fn advance(walk: &mut Walk, eg: &EGraph, choices: &Vec<Option<usize>>, Ghost(roots): Ghost<Seq<usize>>)
    requires
        eg.wf(),
        fits(eg, choices@),
        old(walk).going(eg, choices@, roots),
        old(walk).path@.len() > 0,
        old(walk).rest(eg, choices@) > 0,
    ensures
        final(walk).going(eg, choices@, roots),
        final(walk).keeps(old(walk)),
        final(walk).nearer(old(walk), eg, choices@),
{
    let ghost sel = choices@;
    let ghost before = *walk;
    let ghost trail = walk.trail();
    let t: usize = walk.path.len() - 1;
    let c: usize = walk.path[t];
    let j: usize = walk.turn[c];
    assert(trail[t as int] == c);
    assert(trail.contains(c as int));
    assert(c < sel.len());
    assert(walk.state@[c as int] == OPEN);
    assert(before.frame_ok(eg, sel, t as int));
    match choices[c] {
        None => {},
        Some(i) => {
            let kids = &eg.classes[c].nodes[i].children;
            assert(kids@ == chosen_children(eg, sel, c as int));
            assert(j < kids.len());
            let d: usize = kids[j];
            proof {
                assert(eg.has_node(c as int, i as int));
                assert(eg.children(c as int, i as int)[j as int] < eg.num_classes());
                assert(chosen_children(eg, sel, c as int)[j as int] == d);
                assert(edge(eg, sel, c as int, d as int));
                lemma_reachable_step(eg, sel, roots, c as int, d as int);
            }
            walk.turn.set(c, j + 1);
            if choices[d].is_none() && walk.dangling.is_none() {
                walk.dangling = Some((c, d));
            }
            if walk.state[d] == UNSEEN {
                proof {
                    lemma_count_unseen_update(walk.state@, d as int, OPEN);
                    assert(trail.last() == c);
                    lemma_path_push(eg, sel, trail, d as int);
                    assert forall|x: int| trail.push(d as int).contains(x) <==> trail.contains(x)
                        || x == d by {
                        lemma_push_contains(trail, d as int, x);
                    }
                    assert(!trail.contains(d as int));
                }
                walk.state.set(d, OPEN);
                walk.turn.set(d, 0);
                walk.path.push(d);
                proof {
                    assert(walk.trail() =~= trail.push(d as int));
                    assert(walk.inv(eg, sel, roots, walk.trail()));
                    assert forall|p: int, q: int| 0 <= p < q < walk.path@.len() implies walk.path@[p]
                        != walk.path@[q] by {
                        if q == t + 1 {
                            assert(trail[p] == walk.path@[p]);
                            assert(trail.contains(walk.path@[p] as int));
                        }
                    }
                }
            } else if walk.state[d] == OPEN {
                if walk.cycle.is_none() {
                    proof {
                        let from = choose|k: int| 0 <= k < trail.len() && trail[k] == d;
                        lemma_subpath(eg, sel, trail, from, trail.len() as int);
                        let tail = trail.subrange(from, trail.len() as int);
                        lemma_path_push(eg, sel, tail, d as int);
                        let round = tail.push(d as int);
                        assert(is_path(eg, sel, round) && round.len() >= 2 && round[0] == d
                            && round.last() == d);
                    }
                    walk.cycle = Some(d);
                }
                proof {
                    assert(walk.trail() =~= trail);
                    assert(walk.inv(eg, sel, roots, walk.trail()));
                }
            } else {
                proof {
                    assert(walk.trail() =~= trail);
                    assert(before.settled(eg, sel, d as int));
                    assert(walk.inv(eg, sel, roots, walk.trail()));
                }
            }
            proof {
                assert forall|s: int| 0 <= s < walk.path@.len() implies #[trigger] walk.frame_ok(
                    eg,
                    sel,
                    s,
                ) by {
                    if s <= t {
                        assert(before.frame_ok(eg, sel, s));
                        assert(walk.path@[s] == before.path@[s]);
                        if s < t {
                            assert(before.path@[s] != before.path@[t as int]);
                            assert(before.path@[s + 1] == walk.path@[s + 1]);
                        }
                    }
                }
            }
        },
    }
}

/// Leaves the innermost class, which has no child left to go to.
fn leave(walk: &mut Walk, eg: &EGraph, choices: &Vec<Option<usize>>, Ghost(roots): Ghost<Seq<usize>>)
    requires
        eg.wf(),
        fits(eg, choices@),
        old(walk).going(eg, choices@, roots),
        old(walk).path@.len() > 0,
        old(walk).rest(eg, choices@) == 0,
    ensures
        final(walk).going(eg, choices@, roots),
        final(walk).keeps(old(walk)),
        count_unseen(final(walk).state@) == count_unseen(old(walk).state@),
        final(walk).path@.len() == old(walk).path@.len() - 1,
{
    let ghost sel = choices@;
    let ghost before = *walk;
    let ghost trail = walk.trail();
    let t: usize = walk.path.len() - 1;
    let c: usize = walk.path[t];
    proof {
        assert(trail[t as int] == c);
        assert(trail.contains(c as int));
        assert(before.frame_ok(eg, sel, t as int));
        lemma_count_unseen_update(walk.state@, c as int, DONE);
        lemma_subpath(eg, sel, trail, 0, t as int);
    }
    let at: usize = walk.order.len();
    walk.path.pop();
    walk.state.set(c, DONE);
    walk.place.set(c, at);
    walk.order.push(c);
    proof {
        assert(walk.trail() =~= trail.subrange(0, t as int));
        assert forall|x: int| 0 <= x < sel.len() implies (#[trigger] walk.state@[x] == OPEN
            <==> walk.trail().contains(x)) by {
            if walk.trail().contains(x) {
                let k = choose|k: int| 0 <= k < walk.trail().len() && walk.trail()[k] == x;
                assert(trail[k] == x);
                assert(before.path@[k] != before.path@[t as int]);
            }
            if x != c && before.state@[x] == OPEN {
                assert(trail.contains(x));
                let k = choose|k: int| 0 <= k < trail.len() && trail[k] == x;
                assert(walk.trail()[k] == x);
            }
        }
        assert(walk.settled(eg, sel, c as int)) by {
            assert forall|j: int| 0 <= j < chosen_children(eg, sel, c as int).len() implies walk.child_ok(
                sel,
                #[trigger] chosen_children(eg, sel, c as int)[j] as int,
                walk.place@[c as int] as int,
            ) by {
                assert(before.child_met(
                    sel,
                    chosen_children(eg, sel, c as int)[j] as int,
                    t as int,
                    j == before.turn@[c as int] - 1,
                ));
            }
        }
        assert forall|x: int| 0 <= x < sel.len() && #[trigger] walk.state@[x] == DONE implies walk.settled(
            eg,
            sel,
            x,
        ) by {
            if x != c {
                assert(before.settled(eg, sel, x));
            }
        }
        assert(walk.inv(eg, sel, roots, walk.trail()));
        assert forall|s: int| 0 <= s < walk.path@.len() implies #[trigger] walk.frame_ok(
            eg,
            sel,
            s,
        ) by {
            assert(before.frame_ok(eg, sel, s));
            assert(before.path@[s] != before.path@[t as int]);
            assert(walk.path@[s] == before.path@[s]);
        }
    }
}

/// Walks from every class of `roots` through all that they lead to. The walk keeps
/// its own path and turns in place of the machine's stack, so that it goes as deep
/// as a selection is.
pub fn explore(eg: &EGraph, choices: &Vec<Option<usize>>, roots: &[usize]) -> (walk: Walk)
    requires
        eg.wf(),
        fits(eg, choices@),
        eg.has_roots(roots@),
    ensures
        walk.finished(eg, choices@, roots@),
{
    let n: usize = choices.len();
    let mut walk = Walk::start(n);
    let ghost sel = choices@;
    proof {
        lemma_count_unseen_bound(walk.state@);
        assert(walk.trail() =~= Seq::empty());
        assert(walk.inv(eg, sel, roots@, walk.trail()));
    }
    let mut k: usize = 0;
    while k < roots.len()
        invariant
            eg.wf(),
            fits(eg, sel),
            sel == choices@,
            eg.has_roots(roots@),
            k <= roots@.len(),
            walk.going(eg, sel, roots@),
            walk.path@.len() == 0,
            forall|q: int| 0 <= q < k ==> walk.state@[#[trigger] roots@[q] as int] == DONE,
        decreases roots@.len() - k,
    {
        let r: usize = roots[k];
        if walk.state[r] == UNSEEN {
            proof {
                lemma_root_reachable(eg, sel, roots@, k as int);
            }
            begin(&mut walk, eg, choices, r, Ghost(roots@));
            while walk.path.len() > 0
                invariant
                    eg.wf(),
                    fits(eg, sel),
                    sel == choices@,
                    eg.has_roots(roots@),
                    k < roots@.len(),
                    r == roots@[k as int],
                    walk.going(eg, sel, roots@),
                    walk.state@[r as int] != UNSEEN,
                    forall|q: int| 0 <= q < k ==> walk.state@[#[trigger] roots@[q] as int] == DONE,
                decreases count_unseen(walk.state@), walk.path@.len(), walk.rest(eg, sel),
            {
                let ghost before = walk;
                let c: usize = walk.path[walk.path.len() - 1];
                let width: usize = match choices[c] {
                    Some(i) => eg.classes[c].nodes[i].children.len(),
                    None => 0,
                };
                proof {
                    assert(walk.frame_ok(eg, sel, walk.path@.len() - 1));
                }
                if walk.turn[c] < width {
                    advance(&mut walk, eg, choices, Ghost(roots@));
                } else {
                    leave(&mut walk, eg, choices, Ghost(roots@));
                }
                proof {
                    assert(before.state@[r as int] != UNSEEN);
                    if walk.path@.len() > 0 {
                        assert(walk.frame_ok(eg, sel, walk.path@.len() - 1));
                    }
                }
            }
        }
        proof {
            assert(walk.trail() =~= Seq::empty());
            assert(!walk.trail().contains(r as int));
        }
        k += 1;
    }
    proof {
        assert(walk.trail() =~= Seq::empty());
    }
    walk
}

impl Walk {
    /// A walk that has left every class it met, and has met every root.
    pub open spec fn finished(&self, eg: &EGraph, sel: Selection, roots: Seq<usize>) -> bool {
        &&& self.inv(eg, sel, roots, Seq::empty())
        &&& forall|q: int|
            0 <= q < roots.len() ==> (#[trigger] roots[q]) < sel.len() && self.state@[roots[q] as int]
                == DONE
    }

    /// Whether the walk has left class `c`.
    pub open spec fn done(&self, c: int) -> bool {
        0 <= c < self.state@.len() && self.state@[c] == DONE
    }

    /// A finished walk has left every class on a path that starts at a class it
    /// has left. Where it found no cycle, it left the later classes earlier.
    pub proof fn lemma_done_along(
        &self,
        eg: &EGraph,
        sel: Selection,
        roots: Seq<usize>,
        p: Seq<int>,
        k: int,
    )
        requires
            self.finished(eg, sel, roots),
            is_path(eg, sel, p),
            0 <= k < p.len(),
            self.done(p[0]),
        ensures
            self.done(p[k]),
            self.cycle is None && k > 0 ==> self.place@[p[k]] < self.place@[p[0]],
            self.dangling is None && k > 0 ==> sel[p[k]] is Some,
        decreases k,
    {
        if k > 0 {
            self.lemma_done_along(eg, sel, roots, p, k - 1);
            let a = p[k - 1];
            assert(edge(eg, sel, a, p[k]));
            let j = choose|j: int|
                0 <= j < chosen_children(eg, sel, a).len() && #[trigger] chosen_children(
                    eg,
                    sel,
                    a,
                )[j] == p[k];
            assert(self.settled(eg, sel, a));
            assert(self.child_ok(sel, chosen_children(eg, sel, a)[j] as int, self.place@[a] as int));
            assert(!Seq::<int>::empty().contains(p[k]));
        }
    }

    /// A finished walk has left exactly the reachable classes.
    pub proof fn lemma_done_is_reachable(&self, eg: &EGraph, sel: Selection, roots: Seq<usize>)
        requires
            self.finished(eg, sel, roots),
        ensures
            forall|c: int| #[trigger] reachable(eg, sel, roots, c) <==> self.done(c),
    {
        assert forall|c: int| #[trigger] reachable(eg, sel, roots, c) implies self.done(c) by {
            let k = choose|k: int|
                0 <= k < roots.len() && leads(eg, sel, #[trigger] roots[k] as int, c);
            let p = choose|p: Seq<int>| #[trigger]
                is_path(eg, sel, p) && p.len() > 0 && p[0] == roots[k] as int && p.last() == c;
            assert(self.done(roots[k] as int));
            self.lemma_done_along(eg, sel, roots, p, p.len() - 1);
        }
    }

    /// A finished walk has marked the reachable classes as left and no other class
    /// at all.
    pub proof fn lemma_marks(&self, eg: &EGraph, sel: Selection, roots: Seq<usize>)
        requires
            self.finished(eg, sel, roots),
        ensures
            self.state@ == reach_marks(eg, sel, roots),
    {
        self.lemma_done_is_reachable(eg, sel, roots);
        assert forall|c: int| 0 <= c < sel.len() implies self.state@[c] == reach_marks(
            eg,
            sel,
            roots,
        )[c] by {
            assert(self.done(c) <==> reachable(eg, sel, roots, c));
            assert(!Seq::<int>::empty().contains(c));
        }
        assert(self.state@ =~= reach_marks(eg, sel, roots));
    }

    /// Where the walk found no dangling child and every root has a chosen node,
    /// every reachable class has one.
    pub proof fn lemma_resolved(&self, eg: &EGraph, sel: Selection, roots: Seq<usize>)
        requires
            self.finished(eg, sel, roots),
            self.dangling is None,
            roots_chosen(sel, roots),
        ensures
            resolved(eg, sel, roots),
    {
        assert forall|c: int| #[trigger] reachable(eg, sel, roots, c) implies 0 <= c < sel.len()
            && sel[c] is Some by {
            let k = choose|k: int|
                0 <= k < roots.len() && leads(eg, sel, #[trigger] roots[k] as int, c);
            let p = choose|p: Seq<int>| #[trigger]
                is_path(eg, sel, p) && p.len() > 0 && p[0] == roots[k] as int && p.last() == c;
            assert(self.done(roots[k] as int));
            self.lemma_done_along(eg, sel, roots, p, p.len() - 1);
        }
    }

    /// Where the walk found no cycle, no reachable class lies on one.
    pub proof fn lemma_acyclic(&self, eg: &EGraph, sel: Selection, roots: Seq<usize>)
        requires
            self.finished(eg, sel, roots),
            self.cycle is None,
        ensures
            acyclic(eg, sel, roots),
    {
        self.lemma_done_is_reachable(eg, sel, roots);
        assert forall|c: int| #[trigger] reachable(eg, sel, roots, c) implies !on_cycle(
            eg,
            sel,
            c,
        ) by {
            if on_cycle(eg, sel, c) {
                let p = choose|p: Seq<int>| #[trigger]
                    is_path(eg, sel, p) && p.len() >= 2 && p[0] == c && p.last() == c;
                self.lemma_done_along(eg, sel, roots, p, p.len() - 1);
            }
        }
    }

    /// Whether class `d` stands in the order before place `q`.
    pub open spec fn stands_before(&self, d: int, q: int) -> bool {
        &&& 0 <= d < self.place@.len()
        &&& self.place@[d] < q
        &&& self.place@[d] < self.order@.len()
        &&& self.order@[self.place@[d] as int] == d
    }

    /// Whether the order holds each class once, after the children of its chosen
    /// node.
    pub open spec fn topological(&self, eg: &EGraph, sel: Selection) -> bool {
        &&& self.place@.len() == sel.len()
        &&& self.order@.len() <= sel.len()
        &&& forall|q: int|
            0 <= q < self.order@.len() ==> (#[trigger] self.order@[q]) < sel.len()
                && self.place@[self.order@[q] as int] == q
        &&& forall|q: int, j: int|
            0 <= q < self.order@.len() && 0 <= j < chosen_children(
                eg,
                sel,
                self.order@[q] as int,
            ).len() ==> self.stands_before(
                #[trigger] chosen_children(eg, sel, self.order@[q] as int)[j] as int,
                q,
            )
    }

    /// The order of a finished walk that found no cycle is topological, and holds
    /// the roots.
    pub proof fn lemma_topological(&self, eg: &EGraph, sel: Selection, roots: Seq<usize>)
        requires
            self.finished(eg, sel, roots),
            self.cycle is None,
        ensures
            self.topological(eg, sel),
            forall|k: int|
                0 <= k < roots.len() ==> self.stands_before(
                    #[trigger] roots[k] as int,
                    self.order@.len() as int,
                ),
    {
        assert forall|q: int, j: int|
            0 <= q < self.order@.len() && 0 <= j < chosen_children(
                eg,
                sel,
                self.order@[q] as int,
            ).len() implies self.stands_before(
            #[trigger] chosen_children(eg, sel, self.order@[q] as int)[j] as int,
            q,
        ) by {
            let c = self.order@[q] as int;
            let d = chosen_children(eg, sel, c)[j] as int;
            assert(self.settled(eg, sel, c));
            assert(self.child_ok(sel, d, self.place@[c] as int));
            assert(self.settled(eg, sel, d));
        }
        assert forall|k: int| 0 <= k < roots.len() implies self.stands_before(
            #[trigger] roots[k] as int,
            self.order@.len() as int,
        ) by {
            assert(self.settled(eg, sel, roots[k] as int));
        }
    }
}

} // verus!
