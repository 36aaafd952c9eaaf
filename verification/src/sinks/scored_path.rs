//! A path paired with the cost that orders it.
use vstd::prelude::*;
use vstd::std_specs::cmp::PartialEqSpecImpl;
use vstd::std_specs::cmp::PartialOrdSpecImpl;
use core::cmp::Ordering;

verus! {

/// A path together with its total estimated cost `f(n) = g(n) + h(n)`.
///
/// Costs are carried as order keys: `a.f_cost < b.f_cost` exactly when the cost of `a`
/// is below the cost of `b`, so every decision the sinks and sources make on costs is
/// a decision on these keys.
#[derive(Debug, Clone)]
pub struct ScoredPath<P> {
    pub path: P,
    pub f_cost: u64,
}

/// Two scored paths are equal when their costs are.
impl<P> PartialEq for ScoredPath<P> {
    fn eq(&self, other: &Self) -> (r: bool) {
        self.f_cost == other.f_cost
    }
}

impl<P> PartialEqSpecImpl for ScoredPath<P> {
    open spec fn obeys_eq_spec() -> bool {
        true
    }

    open spec fn eq_spec(&self, other: &Self) -> bool {
        self.f_cost == other.f_cost
    }
}

impl<P> Eq for ScoredPath<P> {
}

/// Scored paths are ordered by cost alone.
impl<P> PartialOrd for ScoredPath<P> {
    fn partial_cmp(&self, other: &Self) -> (r: Option<Ordering>) {
        if self.f_cost < other.f_cost {
            Some(Ordering::Less)
        } else if self.f_cost == other.f_cost {
            Some(Ordering::Equal)
        } else {
            Some(Ordering::Greater)
        }
    }
}

impl<P> PartialOrdSpecImpl for ScoredPath<P> {
    open spec fn obeys_partial_cmp_spec() -> bool {
        true
    }

    open spec fn partial_cmp_spec(&self, other: &Self) -> Option<Ordering> {
        if self.f_cost < other.f_cost {
            Some(Ordering::Less)
        } else if self.f_cost == other.f_cost {
            Some(Ordering::Equal)
        } else {
            Some(Ordering::Greater)
        }
    }
}

} // verus!
