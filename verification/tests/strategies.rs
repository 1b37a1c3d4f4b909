use extraction_gym::cost::INFINITY;
use extraction_gym::egraph::{EClass, EGraph, Node};
use extraction_gym::extract::bottom_up::{relax_class, sweep_to_rest, BottomUpExtractor};
use extraction_gym::extract::clock::is_overdue;
use extraction_gym::extract::faster_bottom_up::{settle_by_rounds, FasterBottomUpExtractor};
use extraction_gym::extract::faster_greedy_dag::{marginal, FasterGreedyDagExtractor};
use extraction_gym::extract::ilp::IlpExtractor;
use extraction_gym::extract::walk::{explore, DONE, UNSEEN};
use extraction_gym::extract::{ExtractError, Extractor};
use extraction_gym::Strategy;

fn node(op: &str, cost: u64, children: Vec<usize>) -> Node {
    Node { op: op.to_string(), cost, children }
}

fn graph(classes: Vec<Vec<Node>>, roots: Vec<usize>) -> EGraph {
    EGraph { classes: classes.into_iter().map(|nodes| EClass { nodes }).collect(), roots }
}

/// 0: pair(1, 2) | 1: x-leaf 5 or x-via(2) 1 | 2: shared leaf 7
fn one_swap_helps() -> EGraph {
    graph(
        vec![
            vec![node("pair", 0, vec![1, 2])],
            vec![node("x-leaf", 5, vec![]), node("x-via", 1, vec![2])],
            vec![node("shared", 7, vec![])],
        ],
        vec![0],
    )
}

/// 0: pair(1, 2) | 1: x-leaf 5 or x-via(3) 0 | 2: y-leaf 5 or y-via(3) 0 | 3: shared leaf 7
fn two_swaps_help() -> EGraph {
    graph(
        vec![
            vec![node("pair", 0, vec![1, 2])],
            vec![node("x-leaf", 5, vec![]), node("x-via", 0, vec![3])],
            vec![node("y-leaf", 5, vec![]), node("y-via", 0, vec![3])],
            vec![node("shared", 7, vec![])],
        ],
        vec![0],
    )
}

/// Two classes that lead to each other at no cost, each with a leaf of cost 5.
fn free_cycle() -> EGraph {
    graph(
        vec![
            vec![node("to-b", 0, vec![1]), node("a-leaf", 5, vec![])],
            vec![node("to-a", 0, vec![0]), node("b-leaf", 5, vec![])],
        ],
        vec![0, 1],
    )
}

/// A chain whose costs fall only sweep by sweep: class k leads to class k + 1.
fn ladder(len: usize) -> EGraph {
    let mut classes = Vec::new();
    for level in 0..len {
        classes.push(vec![node("step", 1, vec![level + 1]), node("jump", 1000, vec![])]);
    }
    classes.push(vec![node("ground", 2, vec![])]);
    graph(classes, vec![0])
}

fn samples() -> Vec<EGraph> {
    vec![one_swap_helps(), two_swaps_help(), free_cycle(), ladder(12)]
}

#[test]
fn every_strategy_returns_what_check_accepts() {
    for eg in samples() {
        assert!(eg.is_well_formed());
        for strategy in [
            Strategy::BottomUp,
            Strategy::FasterBottomUp,
            Strategy::FasterGreedyDag { max_passes: 4 },
            Strategy::Ilp { timeout_secs: None },
            Strategy::Ilp { timeout_secs: Some(3600) },
        ] {
            let result = strategy.extract(&eg, &eg.roots).unwrap();
            assert!(result.fits(&eg));
            assert_eq!(result.check(&eg), Ok(()));
        }
    }
}

#[test]
fn tree_optimal_strategies_agree() {
    for eg in samples() {
        let slow = BottomUpExtractor.extract(&eg, &eg.roots).unwrap();
        let fast = FasterBottomUpExtractor.extract(&eg, &eg.roots).unwrap();
        assert_eq!(slow.choices, fast.choices);
        assert_eq!(slow.tree_cost(&eg, &eg.roots), fast.tree_cost(&eg, &eg.roots));
        assert_eq!(sweep_to_rest(&eg), settle_by_rounds(&eg));
    }
}

#[test]
fn bottom_up_reaches_the_least_tree_costs() {
    let eg = ladder(12);
    let (costs, choices) = sweep_to_rest(&eg);
    assert_eq!(costs[12], 2);
    assert_eq!(costs[0], 14);
    assert_eq!(costs[5], 9);
    assert!(choices.iter().all(|choice| *choice == Some(0)));
    let result = BottomUpExtractor.extract(&eg, &eg.roots).unwrap();
    assert_eq!(result.tree_cost(&eg, &eg.roots), 14);
}

#[test]
fn bottom_up_leaves_underivable_classes_unchosen() {
    let eg = graph(
        vec![vec![node("leaf", 1, vec![])], vec![node("loop", 1, vec![1])]],
        vec![0],
    );
    let (costs, choices) = settle_by_rounds(&eg);
    assert_eq!(costs, vec![1, INFINITY]);
    assert_eq!(choices, vec![Some(0), None]);
    assert!(FasterBottomUpExtractor.extract(&eg, &[0]).is_ok());
    assert_eq!(FasterBottomUpExtractor.extract(&eg, &[0, 1]).err(), Some(ExtractError::Infeasible));
    assert_eq!(BottomUpExtractor.extract(&eg, &[1]).err(), Some(ExtractError::Infeasible));
}

#[test]
fn bottom_up_breaks_free_cycles() {
    let eg = free_cycle();
    let result = BottomUpExtractor.extract(&eg, &eg.roots).unwrap();
    assert_eq!(result.check(&eg), Ok(()));
    assert_eq!(result.tree_cost(&eg, &[0]), 5);
    assert_eq!(result.tree_cost(&eg, &[1]), 5);
    assert_eq!(result.choices, vec![Some(1), Some(1)]);
}

#[test]
fn relax_class_keeps_the_first_of_the_cheapest() {
    let eg = graph(
        vec![vec![node("a", 4, vec![]), node("b", 3, vec![]), node("c", 3, vec![])]],
        vec![0],
    );
    let table = vec![INFINITY];
    assert_eq!(relax_class(&eg, 0, &table, (INFINITY, None)), (3, Some(1)));
    assert_eq!(relax_class(&eg, 0, &table, (3, Some(2))), (3, Some(2)));
    assert_eq!(relax_class(&eg, 0, &table, (2, None)), (2, None));
}

#[test]
fn marginal_cost_skips_children_already_reached() {
    let eg = one_swap_helps();
    let table = vec![12, 5, 7];
    assert_eq!(marginal(&eg, 1, 1, &table, &vec![DONE, DONE, DONE]), 1);
    assert_eq!(marginal(&eg, 1, 1, &table, &vec![DONE, DONE, UNSEEN]), 8);
    assert_eq!(marginal(&eg, 0, 0, &table, &vec![UNSEEN, UNSEEN, UNSEEN]), 12);
}

#[test]
fn greedy_improves_the_dag_cost_by_a_single_swap() {
    let eg = one_swap_helps();
    let base = BottomUpExtractor.extract(&eg, &eg.roots).unwrap();
    assert_eq!(base.choices, vec![Some(0), Some(0), Some(0)]);
    assert_eq!(base.dag_cost(&eg, &eg.roots), 12);
    let greedy = FasterGreedyDagExtractor::new().extract(&eg, &eg.roots).unwrap();
    assert_eq!(greedy.choices, vec![Some(0), Some(1), Some(0)]);
    assert_eq!(greedy.dag_cost(&eg, &eg.roots), 8);
    assert_eq!(greedy.tree_cost(&eg, &eg.roots), 15);
}

#[test]
fn greedy_without_passes_returns_the_baseline() {
    let eg = one_swap_helps();
    let base = FasterBottomUpExtractor.extract(&eg, &eg.roots).unwrap();
    let greedy = FasterGreedyDagExtractor { max_passes: 0 }.extract(&eg, &eg.roots).unwrap();
    assert_eq!(greedy.choices, base.choices);
}

#[test]
fn greedy_fails_where_the_baseline_fails() {
    let eg = graph(vec![vec![node("loop", 1, vec![0])]], vec![0]);
    let outcome = FasterGreedyDagExtractor::new().extract(&eg, &eg.roots);
    assert_eq!(outcome.err(), Some(ExtractError::Infeasible));
}

#[test]
fn exact_solver_finds_what_needs_two_swaps() {
    let eg = two_swaps_help();
    let greedy = FasterGreedyDagExtractor::new().extract(&eg, &eg.roots).unwrap();
    assert_eq!(greedy.dag_cost(&eg, &eg.roots), 10);
    let solved = IlpExtractor { timeout_secs: None }.solve(&eg, &eg.roots).ok().unwrap();
    assert!(solved.proved_optimal);
    assert_eq!(solved.result.check(&eg), Ok(()));
    assert_eq!(solved.result.dag_cost(&eg, &eg.roots), 7);
    assert_eq!(solved.result.choices, vec![Some(0), Some(1), Some(1), Some(0)]);
}

#[test]
fn exact_solver_is_no_dearer_than_the_others() {
    for eg in samples() {
        let exact = IlpExtractor { timeout_secs: None }.extract(&eg, &eg.roots).unwrap();
        let greedy = FasterGreedyDagExtractor::new().extract(&eg, &eg.roots).unwrap();
        let tree = BottomUpExtractor.extract(&eg, &eg.roots).unwrap();
        let best = exact.dag_cost(&eg, &eg.roots);
        assert!(best <= greedy.dag_cost(&eg, &eg.roots));
        assert!(greedy.dag_cost(&eg, &eg.roots) <= tree.dag_cost(&eg, &eg.roots));
    }
}

#[test]
fn exact_solver_out_of_time_has_no_solution() {
    let eg = one_swap_helps();
    let outcome = IlpExtractor { timeout_secs: Some(0) }.solve(&eg, &eg.roots);
    assert_eq!(outcome.err(), Some(ExtractError::NoSolution));
    let through = IlpExtractor { timeout_secs: Some(3600) }.solve(&eg, &eg.roots).ok().unwrap();
    assert!(through.proved_optimal);
    assert_eq!(through.result.dag_cost(&eg, &eg.roots), 8);
}

#[test]
fn exact_solver_leaves_unneeded_classes_unchosen() {
    let eg = one_swap_helps();
    let exact = IlpExtractor { timeout_secs: None }.extract(&eg, &[1]).unwrap();
    assert_eq!(exact.choices, vec![None, Some(0), None]);
    assert_eq!(exact.dag_cost(&eg, &[1]), 5);
    let nothing = IlpExtractor { timeout_secs: None }.extract(&eg, &[]).unwrap();
    assert_eq!(nothing.choices, vec![None, None, None]);
}

#[test]
fn exact_solver_succeeds_where_only_the_tree_cost_is_infinite() {
    let mut classes = Vec::new();
    for level in 0..70usize {
        classes.push(vec![node("pair", 1, vec![level + 1, level + 1])]);
    }
    classes.push(vec![node("leaf", 1, vec![])]);
    let eg = graph(classes, vec![0]);
    assert_eq!(BottomUpExtractor.extract(&eg, &eg.roots).err(), Some(ExtractError::Infeasible));
    let exact = IlpExtractor { timeout_secs: None }.extract(&eg, &eg.roots).unwrap();
    assert_eq!(exact.dag_cost(&eg, &eg.roots), 71);
    assert_eq!(exact.tree_cost(&eg, &eg.roots), INFINITY);
}

#[test]
fn dag_cost_never_exceeds_tree_cost() {
    for eg in samples() {
        for strategy in [Strategy::BottomUp, Strategy::FasterGreedyDag { max_passes: 4 }, Strategy::Ilp { timeout_secs: None }] {
            let result = strategy.extract(&eg, &eg.roots).unwrap();
            assert!(result.dag_cost(&eg, &eg.roots) <= result.tree_cost(&eg, &eg.roots));
        }
    }
}

#[test]
fn rerunning_a_strategy_gives_the_same() {
    for eg in samples() {
        for strategy in [
            Strategy::BottomUp,
            Strategy::FasterBottomUp,
            Strategy::FasterGreedyDag { max_passes: 4 },
            Strategy::Ilp { timeout_secs: None },
        ] {
            let one = strategy.extract(&eg, &eg.roots).unwrap();
            let other = strategy.extract(&eg, &eg.roots).unwrap();
            assert_eq!(one.choices, other.choices);
            assert_eq!(one.tree_cost(&eg, &eg.roots), other.tree_cost(&eg, &eg.roots));
            assert_eq!(one.dag_cost(&eg, &eg.roots), other.dag_cost(&eg, &eg.roots));
        }
    }
}

#[test]
fn every_strategy_extracts_nothing_from_no_roots() {
    let eg = one_swap_helps();
    for strategy in [
        Strategy::BottomUp,
        Strategy::FasterBottomUp,
        Strategy::FasterGreedyDag { max_passes: 2 },
        Strategy::Ilp { timeout_secs: None },
    ] {
        let result = strategy.extract(&eg, &[]).unwrap();
        assert_eq!(result.check_from(&eg, &[]), Ok(()));
        assert_eq!(result.dag_cost(&eg, &[]), 0);
    }
    let empty = EGraph::new();
    for strategy in [Strategy::BottomUp, Strategy::FasterBottomUp, Strategy::Ilp { timeout_secs: None }] {
        let result = strategy.extract(&empty, &[]).unwrap();
        assert!(result.choices.is_empty());
    }
}

#[test]
fn exact_solver_takes_repeated_roots_once() {
    let eg = two_swaps_help();
    let roots = [1, 2, 1, 2, 1];
    let exact = IlpExtractor { timeout_secs: None }.extract(&eg, &roots).unwrap();
    assert_eq!(exact.check_from(&eg, &roots), Ok(()));
    assert_eq!(exact.choices, vec![None, Some(1), Some(1), Some(0)]);
    assert_eq!(exact.dag_cost(&eg, &roots), 7);
    assert_eq!(exact.tree_cost(&eg, &roots), 35);
}

#[test]
fn exact_solver_keeps_the_first_of_equally_cheap_selections() {
    let eg = graph(
        vec![
            vec![node("via-a", 1, vec![1]), node("via-b", 1, vec![2])],
            vec![node("a", 4, vec![])],
            vec![node("b", 4, vec![])],
        ],
        vec![0],
    );
    let exact = IlpExtractor { timeout_secs: None }.extract(&eg, &eg.roots).unwrap();
    assert_eq!(exact.choices, vec![Some(0), Some(0), None]);
    assert_eq!(exact.dag_cost(&eg, &eg.roots), 5);
}

#[test]
fn exact_solver_avoids_cycles_that_cost_nothing() {
    let eg = free_cycle();
    let exact = IlpExtractor { timeout_secs: None }.extract(&eg, &[0]).unwrap();
    assert_eq!(exact.check_from(&eg, &[0]), Ok(()));
    assert_eq!(exact.dag_cost(&eg, &[0]), 5);
    assert_eq!(exact.choices, vec![Some(0), Some(1)]);
}

#[test]
fn greedy_stops_when_its_passes_are_used_up() {
    let eg = one_swap_helps();
    let one = FasterGreedyDagExtractor { max_passes: 1 }.extract(&eg, &eg.roots).unwrap();
    let many = FasterGreedyDagExtractor { max_passes: 50 }.extract(&eg, &eg.roots).unwrap();
    assert_eq!(one.dag_cost(&eg, &eg.roots), 8);
    assert_eq!(many.choices, one.choices);
}

#[test]
fn walk_marks_what_the_roots_reach_and_orders_children_first() {
    let eg = one_swap_helps();
    let choices = vec![Some(0), Some(1), Some(0)];
    let walk = explore(&eg, &choices, &[1]);
    assert_eq!(walk.state, vec![UNSEEN, DONE, DONE]);
    assert_eq!(walk.order, vec![2, 1]);
    assert!(walk.dangling.is_none() && walk.cycle.is_none());
    let all = explore(&eg, &choices, &[0]);
    assert_eq!(all.order, vec![2, 1, 0]);
    let broken = explore(&eg, &vec![Some(0), None, Some(0)], &[0]);
    assert_eq!(broken.dangling, Some((0, 1)));
    assert_eq!(broken.order, vec![1, 2, 0]);
}

#[test]
fn work_is_overdue_once_its_seconds_reach_the_limit() {
    assert!(!is_overdue(0, None));
    assert!(!is_overdue(u64::MAX, None));
    assert!(is_overdue(0, Some(0)));
    assert!(!is_overdue(9, Some(10)));
    assert!(is_overdue(10, Some(10)));
    assert!(is_overdue(11, Some(10)));
}
