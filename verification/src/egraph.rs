//! The e-graph that extraction reads: classes of interchangeable nodes that share
//! child classes.

use crate::cost::{Cost, INFINITY};
use vstd::prelude::*;

verus! {

/// An operator with its own cost and its child classes, in order.
pub struct Node {
    pub op: String,
    pub cost: Cost,
    pub children: Vec<usize>,
}

/// A class: its interchangeable member nodes. A class is named by its place in
/// [`EGraph::classes`], a node by its place in its class.
pub struct EClass {
    pub nodes: Vec<Node>,
}

/// An e-graph with its root classes.
pub struct EGraph {
    pub classes: Vec<EClass>,
    pub roots: Vec<usize>,
}

impl EGraph {
    /// The number of classes.
    pub open spec fn num_classes(&self) -> nat {
        self.classes@.len()
    }

    /// The number of member nodes of class `c`.
    pub open spec fn num_nodes(&self, c: int) -> nat {
        self.classes@[c].nodes@.len()
    }

    /// Whether `i` names a node of class `c`.
    pub open spec fn has_node(&self, c: int, i: int) -> bool {
        0 <= c < self.num_classes() && 0 <= i < self.num_nodes(c)
    }

    /// The own cost of node `i` of class `c`.
    pub open spec fn node_cost(&self, c: int, i: int) -> Cost {
        self.classes@[c].nodes@[i].cost
    }

    /// The child classes of node `i` of class `c`.
    pub open spec fn children(&self, c: int, i: int) -> Seq<usize> {
        self.classes@[c].nodes@[i].children@
    }

    /// Every class has a member, every node has a finite cost and names only classes
    /// of this graph as children.
    pub open spec fn wf(&self) -> bool {
        &&& forall|c: int|
            0 <= c < self.num_classes() ==> 0 < #[trigger] self.num_nodes(c) <= usize::MAX
        &&& forall|c: int, i: int| #[trigger]
            self.has_node(c, i) ==> self.node_cost(c, i) < INFINITY
        &&& forall|c: int, i: int, j: int|
            self.has_node(c, i) && 0 <= j < self.children(c, i).len() ==> #[trigger] self.children(
                c,
                i,
            )[j] < self.num_classes()
    }

    /// Whether every class in `roots` is a class of this graph.
    pub open spec fn has_roots(&self, roots: Seq<usize>) -> bool {
        forall|k: int| 0 <= k < roots.len() ==> #[trigger] roots[k] < self.num_classes()
    }

    /// An e-graph without classes or roots.
    pub fn new() -> (graph: EGraph)
        ensures
            graph.num_classes() == 0,
            graph.roots@.len() == 0,
    {
        EGraph { classes: Vec::new(), roots: Vec::new() }
    }

    /// Tests [`EGraph::has_roots`].
    pub fn contains_roots(&self, roots: &[usize]) -> (all: bool)
        ensures
            all == self.has_roots(roots@),
    {
        let n: usize = self.classes.len();
        let mut k: usize = 0;
        while k < roots.len()
            invariant
                n == self.num_classes(),
                k <= roots@.len(),
                forall|q: int| 0 <= q < k ==> #[trigger] roots@[q] < n,
            decreases roots@.len() - k,
        {
            if roots[k] >= n {
                return false;
            }
            k += 1;
        }
        true
    }

    /// Tests [`EGraph::wf`].
    pub fn is_well_formed(&self) -> (good: bool)
        ensures
            good == self.wf(),
    {
        let n: usize = self.classes.len();
        let mut c: usize = 0;
        while c < n
            invariant
                n == self.num_classes(),
                c <= n,
                forall|a: int| 0 <= a < c ==> 0 < #[trigger] self.num_nodes(a) <= usize::MAX,
                forall|a: int, i: int|
                    0 <= a < c && #[trigger] self.has_node(a, i) ==> self.node_cost(a, i)
                        < INFINITY,
                forall|a: int, i: int, j: int|
                    0 <= a < c && self.has_node(a, i) && 0 <= j < self.children(a, i).len()
                        ==> #[trigger] self.children(a, i)[j] < n,
            decreases n - c,
        {
            let class = &self.classes[c];
            let m: usize = class.nodes.len();
            if m == 0 {
                assert(!(0 < self.num_nodes(c as int)));
                return false;
            }
            let mut i: usize = 0;
            while i < m
                invariant
                    n == self.num_classes(),
                    c < n,
                    class == self.classes@[c as int],
                    m == self.num_nodes(c as int),
                    i <= m,
                    forall|b: int| 0 <= b < i ==> self.node_cost(c as int, b) < INFINITY,
                    forall|b: int, j: int|
                        0 <= b < i && 0 <= j < self.children(c as int, b).len()
                            ==> #[trigger] self.children(c as int, b)[j] < n,
                decreases m - i,
            {
                let node = &class.nodes[i];
                if node.cost >= INFINITY {
                    assert(self.has_node(c as int, i as int));
                    return false;
                }
                let mut j: usize = 0;
                while j < node.children.len()
                    invariant
                        n == self.num_classes(),
                        c < n,
                        i < m,
                        m == self.num_nodes(c as int),
                        node == self.classes@[c as int].nodes@[i as int],
                        j <= node.children@.len(),
                        forall|q: int| 0 <= q < j ==> #[trigger] node.children@[q] < n,
                    decreases node.children@.len() - j,
                {
                    if node.children[j] >= n {
                        assert(self.has_node(c as int, i as int));
                        assert(!(self.children(c as int, i as int)[j as int] < n));
                        return false;
                    }
                    j += 1;
                }
                i += 1;
            }
            c += 1;
        }
        true
    }
}

} // verus!
