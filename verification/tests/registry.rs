use extraction_gym::egraph::{EClass, EGraph, Node};
use extraction_gym::extract::faster_greedy_dag::DEFAULT_PASSES;
use extraction_gym::extract::{ExtractError, Extractor};
use extraction_gym::{detail, extractors, Optimal, Strategy, TIMEOUT_SECS};

#[test]
fn registry_lists_the_strategies_in_order() {
    let map = extractors();
    let names: Vec<&str> = map.keys().copied().collect();
    assert_eq!(
        names,
        vec!["bottom-up", "faster-bottom-up", "faster-greedy-dag", "ilp-cbc-timeout", "ilp-cbc"]
    );
}

#[test]
fn registry_labels_each_strategy() {
    let map = extractors();
    assert_eq!(map["bottom-up"].optimal, Optimal::Tree);
    assert_eq!(map["faster-bottom-up"].optimal, Optimal::Tree);
    assert_eq!(map["faster-greedy-dag"].optimal, Optimal::Neither);
    assert_eq!(map["ilp-cbc-timeout"].optimal, Optimal::DAG);
    assert_eq!(map["ilp-cbc"].optimal, Optimal::DAG);
    for (_, listed) in map.iter() {
        assert_eq!(listed.optimal, listed.extractor.optimality());
    }
}

#[test]
fn registry_keeps_the_unbounded_solver_out_of_benchmarks() {
    let map = extractors();
    let benched: Vec<&str> =
        map.iter().filter(|(_, listed)| listed.use_for_bench).map(|(name, _)| *name).collect();
    assert_eq!(benched, vec!["bottom-up", "faster-bottom-up", "faster-greedy-dag", "ilp-cbc-timeout"]);
    assert!(!map["ilp-cbc"].use_for_bench);
}

#[test]
fn registry_holds_the_strategies_with_their_settings() {
    let map = extractors();
    assert!(matches!(map["bottom-up"].extractor, Strategy::BottomUp));
    assert!(matches!(map["faster-bottom-up"].extractor, Strategy::FasterBottomUp));
    assert!(matches!(
        map["faster-greedy-dag"].extractor,
        Strategy::FasterGreedyDag { max_passes: DEFAULT_PASSES }
    ));
    assert!(matches!(
        map["ilp-cbc-timeout"].extractor,
        Strategy::Ilp { timeout_secs: Some(TIMEOUT_SECS) }
    ));
    assert!(matches!(map["ilp-cbc"].extractor, Strategy::Ilp { timeout_secs: None }));
    assert_eq!(TIMEOUT_SECS, 10);
    assert!(map.get("print").is_none());
}

#[test]
fn registered_strategies_extract() {
    let eg = EGraph {
        classes: vec![
            EClass { nodes: vec![Node { op: "f".to_string(), cost: 1, children: vec![1] }] },
            EClass { nodes: vec![Node { op: "b".to_string(), cost: 2, children: vec![] }] },
        ],
        roots: vec![0],
    };
    for (_, listed) in extractors().iter() {
        let result = listed.extractor.extract(&eg, &eg.roots).unwrap();
        assert_eq!(result.check(&eg), Ok(()));
        assert_eq!(result.tree_cost(&eg, &eg.roots), 3);
    }
}

#[test]
fn detail_labels_a_strategy() {
    let listed = detail(Strategy::Ilp { timeout_secs: None }, false);
    assert_eq!(listed.optimal, Optimal::DAG);
    assert!(!listed.use_for_bench);
    assert_eq!(detail(Strategy::BottomUp, true).optimal, Optimal::Tree);
    assert_eq!(detail(Strategy::FasterGreedyDag { max_passes: 1 }, true).optimal, Optimal::Neither);
}

#[test]
fn errors_say_what_went_wrong() {
    assert_eq!(ExtractError::Infeasible.message(), "no finite extraction exists");
    assert_eq!(
        ExtractError::NoSolution.message(),
        "the solver ran out of time before it found a selection"
    );
}
