//! Sources that generate paths one at a time.
use vstd::prelude::*;

pub mod astar_sampling;
pub mod bfs;
pub mod dfs;

pub use astar_sampling::AStarSamplingSource;
pub use bfs::BFSSource;
pub use dfs::DFSSource;

verus! {

/// A generator of paths.
pub trait PathSource {
    type Item;

    /// The next path, or `None` when the source is exhausted.
    fn next_path(&mut self) -> Option<Self::Item>;
}

} // verus!
