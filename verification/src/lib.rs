//! Minimum-cost extraction from e-graphs.
//!
//! An e-graph holds many equivalent programs at once: classes of interchangeable
//! nodes that share child classes. To extract is to choose one node for every
//! class that the roots need, so that the choice is resolved and free of cycles,
//! at a low tree cost or DAG cost. This crate holds the model of such a choice
//! with its validator and its cost measures, and a family of strategies that
//! trade optimality for time.

pub mod cost;
pub mod egraph;
pub mod extract;
pub mod laws;
pub mod sharing;

use crate::egraph::EGraph;
use crate::extract::bottom_up::{BottomUpExtractor, fixpoint_outcome};
use crate::extract::faster_bottom_up::FasterBottomUpExtractor;
use crate::extract::faster_greedy_dag::{DEFAULT_PASSES, FasterGreedyDagExtractor, greedy_outcome};
use crate::extract::ilp::{exact_outcome, IlpExtractor};
use crate::extract::{ExtractError, ExtractionResult, Extractor};
use indexmap::IndexMap;
use vstd::prelude::*;

verus! {

/// What a strategy minimises.
#[derive(Debug, Clone, Copy, PartialEq, Eq, Structural)]
pub enum Optimal {
    /// The tree cost.
    Tree,
    /// The DAG cost.
    DAG,
    /// Neither: a heuristic.
    Neither,
}

/// The strategies of extraction.
#[derive(Debug, Clone, Copy)]
pub enum Strategy {
    /// Full sweeps to the fixpoint.
    BottomUp,
    /// The same fixpoint, repricing only where a cost fell.
    FasterBottomUp,
    /// Greedy improvement of the DAG cost, in at most `max_passes` passes.
    FasterGreedyDag { max_passes: usize },
    /// Exact minimisation of the DAG cost, within `timeout_secs` seconds if given.
    Ilp { timeout_secs: Option<u64> },
}

impl Strategy {
    /// What the strategy minimises. The exact solver minimises the DAG cost where it
    /// is through before its deadline.
    pub open spec fn label(self) -> Optimal {
        match self {
            Strategy::BottomUp => Optimal::Tree,
            Strategy::FasterBottomUp => Optimal::Tree,
            Strategy::FasterGreedyDag { .. } => Optimal::Neither,
            Strategy::Ilp { .. } => Optimal::DAG,
        }
    }

    /// What the strategy promises of the outcome of an extraction from `roots`.
    pub open spec fn promises(
        self,
        eg: &EGraph,
        roots: Seq<usize>,
        outcome: Result<ExtractionResult, ExtractError>,
    ) -> bool {
        match self {
            Strategy::BottomUp => fixpoint_outcome(eg, roots, outcome),
            Strategy::FasterBottomUp => fixpoint_outcome(eg, roots, outcome),
            Strategy::FasterGreedyDag { max_passes } => greedy_outcome(
                eg,
                roots,
                max_passes as nat,
                outcome,
            ),
            Strategy::Ilp { timeout_secs } => exact_outcome(eg, roots, timeout_secs, outcome),
        }
    }

    /// What the strategy minimises.
    pub fn optimality(&self) -> (label: Optimal)
        ensures
            label == self.label(),
    {
        match self {
            Strategy::BottomUp => Optimal::Tree,
            Strategy::FasterBottomUp => Optimal::Tree,
            Strategy::FasterGreedyDag { .. } => Optimal::Neither,
            Strategy::Ilp { .. } => Optimal::DAG,
        }
    }
}

impl Extractor for Strategy {
    /// Extracts as the strategy says.
    fn extract(&self, eg: &EGraph, roots: &[usize]) -> (outcome: Result<
        ExtractionResult,
        ExtractError,
    >)
        ensures
            self.promises(eg, roots@, outcome),
    {
        match self {
            Strategy::BottomUp => BottomUpExtractor.extract(eg, roots),
            Strategy::FasterBottomUp => FasterBottomUpExtractor.extract(eg, roots),
            Strategy::FasterGreedyDag { max_passes } => {
                let greedy = FasterGreedyDagExtractor { max_passes: *max_passes };
                greedy.extract(eg, roots)
            },
            Strategy::Ilp { timeout_secs } => {
                let solver = IlpExtractor { timeout_secs: *timeout_secs };
                solver.extract(eg, roots)
            },
        }
    }
}

/// A strategy as the registry lists it.
#[derive(Debug, Clone, Copy)]
pub struct ExtractorDetail {
    /// The strategy.
    pub extractor: Strategy,
    /// What the strategy minimises.
    pub optimal: Optimal,
    /// Whether the strategy takes part in benchmarks.
    pub use_for_bench: bool,
}

/// `indexmap::IndexMap`: a map that keeps its entries in the order in which they
/// were inserted. It is carried through as it is.
#[verifier::external_type_specification]
#[verifier::external_body]
#[verifier::reject_recursive_types(K)]
#[verifier::reject_recursive_types(V)]
#[verifier::reject_recursive_types(S)]
pub struct ExIndexMap<K, V, S>(IndexMap<K, V, S>);

/// What an `indexmap::IndexMap` of strategies holds: its entries in the order in
/// which the map keeps them, which is the order of their insertion, each name with
/// what it stands for.
pub uninterp spec fn entries(map: IndexMap<&'static str, ExtractorDetail>) -> Seq<
    (Seq<char>, ExtractorDetail),
>;

/// Whether `listed` has an entry under `name`.
pub open spec fn has_name(listed: Seq<(Seq<char>, ExtractorDetail)>, name: Seq<char>) -> bool {
    exists|at: int| 0 <= at < listed.len() && (#[trigger] listed[at]).0 == name
}

/// A name that is as long as no listed name is not listed.
pub proof fn lemma_fresh(listed: Seq<(Seq<char>, ExtractorDetail)>, name: Seq<char>)
    requires
        forall|at: int| 0 <= at < listed.len() ==> (#[trigger] listed[at]).0.len() != name.len(),
    ensures
        !has_name(listed, name),
{
}

/// `IndexMap::new`: a map without entries.
#[verifier::external_body]
fn empty_registry() -> (map: IndexMap<&'static str, ExtractorDetail>)
    ensures
        entries(map).len() == 0,
{
    IndexMap::new()
}

/// `IndexMap::insert`: under a name that the map does not hold, the entry goes to
/// the end and nothing comes back; under a name that it holds, the entry takes the
/// place of the one that was there, which comes back.
#[verifier::external_body]
fn register(
    map: &mut IndexMap<&'static str, ExtractorDetail>,
    name: &'static str,
    detail: ExtractorDetail,
) -> (displaced: Option<ExtractorDetail>)
    ensures
        !has_name(entries(*old(map)), name@) ==> displaced is None && entries(*final(map))
            == entries(*old(map)).push((name@, detail)),
        has_name(entries(*old(map)), name@) ==> exists|at: int|
            0 <= at < entries(*old(map)).len() && (#[trigger] entries(*old(map))[at]).0 == name@
                && displaced == Some(entries(*old(map))[at].1) && entries(*final(map))
                == entries(*old(map)).update(at, (name@, detail)),
{
    map.insert(name, detail)
}

/// How many seconds the exact solver may take where the registry gives it a
/// timeout.
pub const TIMEOUT_SECS: u64 = 10;

/// What the registry lists, in order.
pub open spec fn registry() -> Seq<(Seq<char>, ExtractorDetail)> {
    seq![
        (
            "bottom-up"@,
            ExtractorDetail {
                extractor: Strategy::BottomUp,
                optimal: Optimal::Tree,
                use_for_bench: true,
            },
        ),
        (
            "faster-bottom-up"@,
            ExtractorDetail {
                extractor: Strategy::FasterBottomUp,
                optimal: Optimal::Tree,
                use_for_bench: true,
            },
        ),
        (
            "faster-greedy-dag"@,
            ExtractorDetail {
                extractor: Strategy::FasterGreedyDag { max_passes: DEFAULT_PASSES },
                optimal: Optimal::Neither,
                use_for_bench: true,
            },
        ),
        (
            "ilp-cbc-timeout"@,
            ExtractorDetail {
                extractor: Strategy::Ilp { timeout_secs: Some(TIMEOUT_SECS) },
                optimal: Optimal::DAG,
                use_for_bench: true,
            },
        ),
        (
            "ilp-cbc"@,
            ExtractorDetail {
                extractor: Strategy::Ilp { timeout_secs: None },
                optimal: Optimal::DAG,
                use_for_bench: false,
            },
        ),
    ]
}

/// A registry entry for `extractor`, labelled with what it minimises.
pub fn detail(extractor: Strategy, use_for_bench: bool) -> (listed: ExtractorDetail)
    ensures
        listed == (ExtractorDetail { extractor, optimal: extractor.label(), use_for_bench }),
{
    ExtractorDetail { extractor, optimal: extractor.optimality(), use_for_bench }
}

/// The registry: the strategies by name, in a fixed order, each with what it
/// minimises and whether it takes part in benchmarks. The exact solver without a
/// timeout can take hours, and therefore takes no part.
pub fn extractors() -> (map: IndexMap<&'static str, ExtractorDetail>)
    ensures
        entries(map) == registry(),
{
    proof {
        reveal_strlit("bottom-up");
        reveal_strlit("faster-bottom-up");
        reveal_strlit("faster-greedy-dag");
        reveal_strlit("ilp-cbc-timeout");
        reveal_strlit("ilp-cbc");
    }
    let mut map = empty_registry();
    assert(entries(map) =~= registry().take(0));
    proof {
        lemma_fresh(entries(map), "bottom-up"@);
    }
    register(&mut map, "bottom-up", detail(Strategy::BottomUp, true));
    assert(entries(map) =~= registry().take(1));
    proof {
        lemma_fresh(entries(map), "faster-bottom-up"@);
    }
    register(&mut map, "faster-bottom-up", detail(Strategy::FasterBottomUp, true));
    assert(entries(map) =~= registry().take(2));
    proof {
        lemma_fresh(entries(map), "faster-greedy-dag"@);
    }
    register(
        &mut map,
        "faster-greedy-dag",
        detail(Strategy::FasterGreedyDag { max_passes: DEFAULT_PASSES }, true),
    );
    assert(entries(map) =~= registry().take(3));
    proof {
        lemma_fresh(entries(map), "ilp-cbc-timeout"@);
    }
    register(
        &mut map,
        "ilp-cbc-timeout",
        detail(Strategy::Ilp { timeout_secs: Some(TIMEOUT_SECS) }, true),
    );
    assert(entries(map) =~= registry().take(4));
    proof {
        lemma_fresh(entries(map), "ilp-cbc"@);
    }
    register(&mut map, "ilp-cbc", detail(Strategy::Ilp { timeout_secs: None }, false));
    assert(entries(map) =~= registry());
    map
}

} // verus!
