//! Blockbuilding search for the 4-dimensional 3x3x3x3 Rubik's cube.

pub mod bits;
pub mod mc4d;
pub mod search;
pub mod sim;
pub mod util;

pub use search::{
    dfs_blockbuild, BlockBuildingSearchParams, Continuation, Heuristic, Segment, SegmentId, SegmentStore,
    SolutionMetadata, Solver, Targets,
};
pub use util::stackvec::StackVec;
