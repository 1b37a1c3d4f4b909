use extraction_gym::egraph::{EClass, EGraph, Node};
use extraction_gym::extract::bottom_up::BottomUpExtractor;
use extraction_gym::extract::faster_bottom_up::FasterBottomUpExtractor;
use extraction_gym::extract::faster_greedy_dag::FasterGreedyDagExtractor;
use extraction_gym::extract::ilp::IlpExtractor;
use extraction_gym::extract::{ExtractError, ExtractionResult, Extractor};
use extraction_gym::Strategy;

fn node(op: &str, cost: u64, children: Vec<usize>) -> Node {
    Node { op: op.to_string(), cost, children }
}

fn graph(classes: Vec<Vec<Node>>, roots: Vec<usize>) -> EGraph {
    EGraph { classes: classes.into_iter().map(|nodes| EClass { nodes }).collect(), roots }
}

fn strategies() -> Vec<Strategy> {
    vec![
        Strategy::BottomUp,
        Strategy::FasterBottomUp,
        Strategy::FasterGreedyDag { max_passes: 8 },
        Strategy::Ilp { timeout_secs: None },
    ]
}

fn costs(eg: &EGraph, result: &ExtractionResult) -> (u64, u64) {
    assert!(result.fits(eg));
    assert!(result.check(eg).is_ok());
    (result.tree_cost(eg, &eg.roots), result.dag_cost(eg, &eg.roots))
}

fn single_leaf() -> EGraph {
    graph(vec![vec![node("a", 3, vec![])]], vec![0])
}

fn chain() -> EGraph {
    graph(vec![vec![node("f", 1, vec![1])], vec![node("b", 2, vec![])]], vec![0])
}

fn shared_twice() -> EGraph {
    graph(vec![vec![node("r", 1, vec![1, 1])], vec![node("s", 5, vec![])]], vec![0])
}

fn self_loop_only() -> EGraph {
    graph(vec![vec![node("loop", 1, vec![0])]], vec![0])
}

fn self_loop_or_leaf() -> EGraph {
    graph(vec![vec![node("loop", 0, vec![0]), node("leaf", 6, vec![])]], vec![0])
}

fn two_candidates() -> EGraph {
    graph(vec![vec![node("cheap", 4, vec![]), node("dear", 9, vec![])]], vec![0])
}

#[test]
fn one_class_one_node_costs_three() {
    let eg = single_leaf();
    assert!(eg.is_well_formed());
    for strategy in strategies() {
        let result = strategy.extract(&eg, &eg.roots).unwrap();
        assert_eq!(costs(&eg, &result), (3, 3));
    }
}

#[test]
fn root_with_one_child_costs_three() {
    let eg = chain();
    for strategy in strategies() {
        let result = strategy.extract(&eg, &eg.roots).unwrap();
        assert_eq!(costs(&eg, &result), (3, 3));
    }
}

#[test]
fn child_referenced_twice_counts_twice_in_tree_cost_only() {
    let eg = shared_twice();
    for strategy in strategies() {
        let result = strategy.extract(&eg, &eg.roots).unwrap();
        assert_eq!(costs(&eg, &result), (11, 6));
    }
}

#[test]
fn class_with_only_a_self_loop_is_infeasible() {
    let eg = self_loop_only();
    assert!(eg.is_well_formed());
    for strategy in strategies() {
        assert_eq!(strategy.extract(&eg, &eg.roots).err(), Some(ExtractError::Infeasible));
    }
}

#[test]
fn self_loop_is_never_selected_where_a_leaf_exists() {
    let eg = self_loop_or_leaf();
    for strategy in strategies() {
        let result = strategy.extract(&eg, &eg.roots).unwrap();
        assert_eq!(result.chosen(0), Some(1));
        assert_eq!(costs(&eg, &result), (6, 6));
    }
}

#[test]
fn cheaper_of_two_candidates_is_selected() {
    let eg = two_candidates();
    for strategy in strategies() {
        let result = strategy.extract(&eg, &eg.roots).unwrap();
        assert_eq!(result.chosen(0), Some(0));
        assert_eq!(costs(&eg, &result), (4, 4));
    }
    let flipped = graph(vec![vec![node("dear", 9, vec![]), node("cheap", 4, vec![])]], vec![0]);
    for strategy in strategies() {
        let result = strategy.extract(&flipped, &flipped.roots).unwrap();
        assert_eq!(result.chosen(0), Some(1));
    }
}

#[test]
fn unit_extractors_match_the_strategies() {
    let eg = shared_twice();
    let a = BottomUpExtractor.extract(&eg, &eg.roots).unwrap();
    let b = FasterBottomUpExtractor.extract(&eg, &eg.roots).unwrap();
    let c = FasterGreedyDagExtractor::new().extract(&eg, &eg.roots).unwrap();
    let d = IlpExtractor { timeout_secs: None }.extract(&eg, &eg.roots).unwrap();
    for result in [a, b, c, d] {
        assert_eq!(result.choices, vec![Some(0), Some(0)]);
    }
}
