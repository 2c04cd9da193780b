//! Search parameters.
use vstd::prelude::*;

use super::heuristic::Heuristic;

verus! {

/// Search parameters for a solver.
#[derive(Debug, Copy, Clone, PartialEq)]
pub struct BlockBuildingSearchParams {
    /// Blockbuilding targets for each stage.
    pub targets: Targets,
    /// Heuristic for pruning search branches.
    pub heuristic: Heuristic,
    /// Maximum depth for IDDFS.
    pub max_depth: usize,
    /// Maximum depth to parallelize.
    pub parallel_depth: usize,
    /// How much to print.
    pub verbosity: u8,
    /// Number of solutions to target for each depth from 0 to 4.
    pub solution_count_targets: [usize; 5],
}

impl Default for BlockBuildingSearchParams {
    fn default() -> (p: BlockBuildingSearchParams)
        ensures
            p.targets == Targets::Simple,
            p.heuristic == Heuristic::Fast,
            p.max_depth == 4,
            p.parallel_depth == 2,
            p.verbosity == 1,
            p.solution_count_targets@ == seq![1_000_000usize, 10_000, 5_000, 500, 50],
    {
        let p = BlockBuildingSearchParams {
            targets: Targets::Simple,
            heuristic: Heuristic::Fast,
            max_depth: 4,
            parallel_depth: 2,
            verbosity: 1,
            solution_count_targets: [1_000_000, 10_000, 5_000, 500, 50],
        };
        assert(p.solution_count_targets@ =~= seq![1_000_000usize, 10_000, 5_000, 500, 50]);
        p
    }
}

/// Blockbuilding targets for each stage.
#[derive(Debug, Copy, Clone, PartialEq, Eq, Hash, Structural)]
pub enum Targets {
    /// Take less time to generate a slightly longer solution.
    Simple,
    /// Take longer to generate a shorter solution by starting each stage
    /// slightly before finishing the previous one.
    CutCorners,
}

impl Default for Targets {
    fn default() -> (t: Targets)
        ensures
            t == Targets::Simple,
    {
        Targets::Simple
    }
}

impl Targets {
    /// Returns `simple` for [`Targets::Simple`] or `cut_corners` for
    /// [`Targets::CutCorners`].
    pub fn select<T>(self, simple: T, cut_corners: T) -> (r: T)
        ensures
            r == (match self {
                Targets::Simple => simple,
                Targets::CutCorners => cut_corners,
            }),
    {
        match self {
            Targets::Simple => simple,
            Targets::CutCorners => cut_corners,
        }
    }
}

} // verus!
