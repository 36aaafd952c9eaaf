//! A sink that counts the paths it is given.
use vstd::prelude::*;

use super::PathSink;

verus! {

/// Counts the incoming paths without storing them.
#[derive(Debug, Default, Clone)]
pub struct CountSink {
    count: usize,
}

impl CountSink {
    /// The number of paths taken in since creation or the last reset.
    pub closed spec fn spec_count(&self) -> nat {
        self.count as nat
    }

    /// A new sink whose count is zero.
    pub fn new() -> (s: Self)
        ensures
            s.spec_count() == 0,
    {
        CountSink { count: 0 }
    }

    /// The number of paths taken in so far.
    pub fn count(&self) -> (n: usize)
        ensures
            n == self.spec_count(),
    {
        self.count
    }

    /// Sets the count back to zero.
    pub fn reset(&mut self)
        ensures
            final(self).spec_count() == 0,
    {
        self.count = 0;
    }
}

impl<P> PathSink<P> for CountSink {
    open spec fn can_sink(&self) -> bool {
        self.spec_count() < usize::MAX
    }

    fn sink(&mut self, _path: P)
        ensures
            final(self).spec_count() == old(self).spec_count() + 1,
    {
        self.count = self.count + 1;
    }

    open spec fn has_output(&self) -> bool {
        self.spec_count() > 0
    }

    /// Nothing is flushed: the sink keeps its state.
    open spec fn finalized(&self) -> Self {
        *self
    }

    fn finalize(&mut self) -> (r: bool) {
        self.count > 0
    }
}

/// A count starts from zero and grows by one with each path: along the states
/// `states[0], states[1], ...` of a sink that is new or was just reset (count zero) and
/// then takes in one path per step, the count of `states[j]` is `j`, so after `n` paths
/// the sink counts `n`.
pub proof fn lemma_count_after_sinks(states: Seq<CountSink>)
    requires
        states.len() > 0,
        states[0].spec_count() == 0,
        forall|j: int|
            0 <= j < states.len() - 1 ==> #[trigger] states[j + 1].spec_count() == states[j].spec_count()
                + 1,
    ensures
        forall|j: int| 0 <= j < states.len() ==> #[trigger] states[j].spec_count() == j,
        states.last().spec_count() == states.len() - 1,
    decreases states.len(),
{
    if states.len() > 1 {
        let t = states.drop_last();
        assert forall|j: int| 0 <= j < t.len() - 1 implies #[trigger] t[j + 1].spec_count()
            == t[j].spec_count() + 1 by {
            assert(t[j + 1] == states[j + 1]);
            assert(t[j] == states[j]);
        }
        lemma_count_after_sinks(t);
        assert forall|j: int| 0 <= j < states.len() implies #[trigger] states[j].spec_count() == j by {
            if j < states.len() - 1 {
                assert(t[j] == states[j]);
            } else {
                assert(t[j - 1] == states[j - 1]);
                assert(t[j - 1].spec_count() == j - 1);
                assert(states[(j - 1) + 1].spec_count() == states[j - 1].spec_count() + 1);
            }
        }
    }
}

} // verus!
