//! Path sources, path sinks and weighted sampling helpers.

pub mod cost_order;
pub mod reservoir;
pub mod sampling_zipper;
pub mod sinks;
pub mod sources;
