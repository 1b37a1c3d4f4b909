use extraction_gym::cost::{add_cost, INFINITY};
use extraction_gym::egraph::{EClass, EGraph, Node};
use extraction_gym::extract::{node_sum_cost, Defect, ExtractionResult};

fn node(op: &str, cost: u64, children: Vec<usize>) -> Node {
    Node { op: op.to_string(), cost, children }
}

fn graph(classes: Vec<Vec<Node>>, roots: Vec<usize>) -> EGraph {
    EGraph { classes: classes.into_iter().map(|nodes| EClass { nodes }).collect(), roots }
}

fn selection(choices: Vec<Option<usize>>) -> ExtractionResult {
    ExtractionResult { choices }
}

/// 0: top(1, 2) | 1: left(3) or left-leaf | 2: right(3) | 3: shared leaf | 4: spare
fn diamond() -> EGraph {
    graph(
        vec![
            vec![node("top", 1, vec![1, 2])],
            vec![node("left", 2, vec![3]), node("left-leaf", 20, vec![])],
            vec![node("right", 3, vec![3]), node("back", 0, vec![0])],
            vec![node("shared", 10, vec![])],
            vec![node("spare", 7, vec![])],
        ],
        vec![0],
    )
}

#[test]
fn costs_add_exactly_below_infinity() {
    assert_eq!(add_cost(2, 3), 5);
    assert_eq!(add_cost(0, 0), 0);
    assert_eq!(add_cost(INFINITY - 2, 1), INFINITY - 1);
}

#[test]
fn costs_saturate_at_infinity() {
    assert_eq!(INFINITY, u64::MAX);
    assert_eq!(add_cost(INFINITY - 1, 1), INFINITY);
    assert_eq!(add_cost(INFINITY, 5), INFINITY);
    assert_eq!(add_cost(5, INFINITY), INFINITY);
    assert_eq!(add_cost(INFINITY / 2 + 1, INFINITY / 2 + 1), INFINITY);
}

#[test]
fn well_formed_graphs_are_told_from_others() {
    assert!(diamond().is_well_formed());
    assert!(EGraph::new().is_well_formed());
    assert!(!graph(vec![vec![]], vec![]).is_well_formed());
    assert!(!graph(vec![vec![node("a", 1, vec![1])]], vec![]).is_well_formed());
    assert!(!graph(vec![vec![node("a", INFINITY, vec![])]], vec![]).is_well_formed());
    assert!(diamond().contains_roots(&[0, 4]));
    assert!(!diamond().contains_roots(&[0, 5]));
}

#[test]
fn results_fit_only_their_graph() {
    let eg = diamond();
    assert!(ExtractionResult::new(5).fits(&eg));
    assert!(!ExtractionResult::new(4).fits(&eg));
    assert!(selection(vec![Some(0), Some(1), Some(1), Some(0), None]).fits(&eg));
    assert!(!selection(vec![Some(1), None, None, None, None]).fits(&eg));
}

#[test]
fn picking_and_unpicking_change_one_class() {
    let mut result = ExtractionResult::new(3);
    assert_eq!(result.choices, vec![None, None, None]);
    result.pick(1, 4);
    assert_eq!(result.choices, vec![None, Some(4), None]);
    assert_eq!(result.chosen(1), Some(4));
    assert_eq!(result.chosen(2), None);
    assert_eq!(result.chosen(9), None);
    let copy = result.duplicate();
    result.unpick(1);
    assert_eq!(result.choices, vec![None, None, None]);
    assert_eq!(copy.choices, vec![None, Some(4), None]);
}

#[test]
fn node_sum_cost_adds_own_cost_and_children() {
    let eg = diamond();
    let table = vec![100, 12, 13, 10, 7];
    assert_eq!(node_sum_cost(&eg, 0, 0, &table), 1 + 12 + 13);
    assert_eq!(node_sum_cost(&eg, 3, 0, &table), 10);
    let unreachable = vec![100, INFINITY, 13, 10, 7];
    assert_eq!(node_sum_cost(&eg, 0, 0, &unreachable), INFINITY);
}

#[test]
fn valid_selection_passes_check() {
    let eg = diamond();
    let result = selection(vec![Some(0), Some(0), Some(0), Some(0), None]);
    assert_eq!(result.check(&eg), Ok(()));
    assert_eq!(result.assess(&eg, &eg.roots), Some(16));
}

#[test]
fn tree_cost_pays_per_occurrence_and_dag_cost_once() {
    let eg = diamond();
    let result = selection(vec![Some(0), Some(0), Some(0), Some(0), None]);
    assert_eq!(result.tree_cost(&eg, &eg.roots), 1 + (2 + 10) + (3 + 10));
    assert_eq!(result.dag_cost(&eg, &eg.roots), 1 + 2 + 3 + 10);
}

#[test]
fn unreachable_choices_cost_nothing() {
    let eg = diamond();
    let result = selection(vec![Some(0), Some(1), Some(0), Some(0), Some(0)]);
    assert_eq!(result.tree_cost(&eg, &eg.roots), 1 + 20 + 3 + 10);
    assert_eq!(result.dag_cost(&eg, &eg.roots), 1 + 20 + 3 + 10);
    assert_eq!(result.tree_cost(&eg, &[3]), 10);
    assert_eq!(result.dag_cost(&eg, &[4]), 7);
}

#[test]
fn repeated_root_counts_twice_in_tree_cost_only() {
    let eg = diamond();
    let result = selection(vec![Some(0), Some(0), Some(0), Some(0), None]);
    assert_eq!(result.tree_cost(&eg, &[3, 3, 1]), 10 + 10 + 12);
    assert_eq!(result.dag_cost(&eg, &[3, 3, 1]), 10 + 2);
    assert_eq!(result.tree_cost(&eg, &[]), 0);
    assert_eq!(result.dag_cost(&eg, &[]), 0);
}

#[test]
fn root_without_choice_is_unresolved() {
    let eg = diamond();
    let result = selection(vec![None, Some(0), Some(0), Some(0), None]);
    assert_eq!(result.check(&eg), Err(Defect::UnresolvedClass(0)));
    assert_eq!(result.tree_cost(&eg, &eg.roots), INFINITY);
    assert_eq!(result.dag_cost(&eg, &eg.roots), 0);
    assert_eq!(result.assess(&eg, &eg.roots), None);
}

#[test]
fn child_without_choice_is_dangling() {
    let eg = diamond();
    let result = selection(vec![Some(0), Some(0), Some(0), None, None]);
    assert_eq!(result.check(&eg), Err(Defect::DanglingChild { class: 1, child: 3 }));
    assert_eq!(result.tree_cost(&eg, &eg.roots), INFINITY);
    assert_eq!(result.dag_cost(&eg, &eg.roots), 1 + 2 + 3);
}

#[test]
fn choice_that_leads_back_is_a_cycle() {
    let eg = diamond();
    let result = selection(vec![Some(0), Some(0), Some(1), Some(0), None]);
    assert_eq!(result.check(&eg), Err(Defect::Cycle(0)));
    assert_eq!(result.tree_cost(&eg, &eg.roots), INFINITY);
    assert_eq!(result.dag_cost(&eg, &eg.roots), 1 + 2 + 0 + 10);
    assert_eq!(result.check_from(&eg, &[1]), Ok(()));
    assert_eq!(result.tree_cost(&eg, &[1]), 12);
}

#[test]
fn dangling_child_is_reported_before_a_cycle() {
    let eg = diamond();
    let result = selection(vec![Some(0), Some(0), Some(1), None, None]);
    assert_eq!(result.check(&eg), Err(Defect::DanglingChild { class: 1, child: 3 }));
    let unrooted = selection(vec![None, Some(0), Some(1), None, None]);
    assert_eq!(unrooted.check(&eg), Err(Defect::UnresolvedClass(0)));
}

#[test]
fn self_loop_is_a_cycle() {
    let eg = graph(vec![vec![node("loop", 1, vec![0])]], vec![0]);
    let result = selection(vec![Some(0)]);
    assert_eq!(result.check(&eg), Err(Defect::Cycle(0)));
    assert_eq!(result.tree_cost(&eg, &eg.roots), INFINITY);
    assert_eq!(result.dag_cost(&eg, &eg.roots), 1);
}

#[test]
fn tree_cost_saturates_where_dag_cost_stays_finite() {
    let mut classes = Vec::new();
    for level in 0..70usize {
        classes.push(vec![node("pair", 1, vec![level + 1, level + 1])]);
    }
    classes.push(vec![node("leaf", 1, vec![])]);
    let eg = graph(classes, vec![0]);
    let result = selection(vec![Some(0); 71]);
    assert_eq!(result.check(&eg), Ok(()));
    assert_eq!(result.tree_cost(&eg, &eg.roots), INFINITY);
    assert_eq!(result.dag_cost(&eg, &eg.roots), 71);
    assert_eq!(result.tree_cost(&eg, &[60]), (1 << 11) - 1);
}

#[test]
fn first_root_without_choice_is_the_one_reported() {
    let eg = diamond();
    let result = selection(vec![Some(0), Some(0), Some(0), None, None]);
    assert_eq!(result.check_from(&eg, &[3, 4]), Err(Defect::UnresolvedClass(3)));
    assert_eq!(result.check_from(&eg, &[1, 4, 3]), Err(Defect::UnresolvedClass(4)));
    assert_eq!(result.check_from(&eg, &[]), Ok(()));
}

#[test]
fn chosen_node_gives_label_cost_and_children() {
    let eg = diamond();
    let result = selection(vec![Some(0), Some(1), None, Some(0), None]);
    let top = result.chosen_node(&eg, 0).unwrap();
    assert_eq!((top.op.as_str(), top.cost, top.children.clone()), ("top", 1, vec![1, 2]));
    let left = result.chosen_node(&eg, 1).unwrap();
    assert_eq!((left.op.as_str(), left.cost, left.children.len()), ("left-leaf", 20, 0));
    assert!(result.chosen_node(&eg, 2).is_none());
    assert!(result.chosen_node(&eg, 17).is_none());
}

#[test]
fn empty_selection_of_empty_graph_is_valid() {
    let eg = EGraph::new();
    let result = ExtractionResult::new(0);
    assert!(result.fits(&eg));
    assert_eq!(result.check(&eg), Ok(()));
    assert_eq!(result.tree_cost(&eg, &eg.roots), 0);
    assert_eq!(result.dag_cost(&eg, &eg.roots), 0);
}

#[test]
fn deep_selections_are_walked_without_recursion() {
    let depth = 300_000usize;
    let mut classes = Vec::new();
    for level in 0..depth {
        classes.push(vec![node("step", 1, vec![level + 1])]);
    }
    classes.push(vec![node("ground", 1, vec![])]);
    let eg = graph(classes, vec![0]);
    let result = selection(vec![Some(0); depth + 1]);
    assert_eq!(result.check(&eg), Ok(()));
    assert_eq!(result.tree_cost(&eg, &eg.roots), depth as u64 + 1);
    assert_eq!(result.dag_cost(&eg, &eg.roots), depth as u64 + 1);
}
