//! Sinks that consume, aggregate and filter the paths of a query.
use vstd::prelude::*;

pub mod astar_sink;
pub mod count;
pub mod scored_path;
pub mod weighted_sample;

pub use astar_sink::{BestKSink, ThresholdSink};
pub use count::CountSink;
pub use scored_path::ScoredPath;
pub use weighted_sample::WeightedSampleSink;

verus! {

/// The lifecycle of a path sink: it takes in paths one at a time and is finalized once.
pub trait PathSink<P>: Sized {
    /// Whether the sink can take in one more path.
    spec fn can_sink(&self) -> bool;

    /// Whether the sink holds, or has counted, anything.
    spec fn has_output(&self) -> bool;

    /// Takes in one path of the stream.
    fn sink(&mut self, path: P)
        requires
            old(self).can_sink(),
    ;

    /// The state that `finalize` leaves the sink in, flushed.
    spec fn finalized(&self) -> Self;

    /// Ends the stream, flushing what the sink accumulated; the result says whether the
    /// sink holds, or has counted, anything.
    fn finalize(&mut self) -> (r: bool)
        ensures
            r == old(self).has_output(),
            *final(self) == old(self).finalized(),
    ;
}

} // verus!
