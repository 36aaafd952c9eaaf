//! Sinks for the scored paths of an A* traversal: the best `k` and a cost threshold.
use vstd::prelude::*;

use super::PathSink;
use super::scored_path::ScoredPath;
use crate::cost_order::{
    cost_rank, lemma_max_cost_index, lemma_sort_by_cost, max_cost_position, sort_by_cost,
    sort_scored_by_cost, sorted_by_cost,
};
use crate::reservoir::{
    keep_lowest_after, keep_lowest_offer, lemma_keep_lowest, lemma_keep_lowest_after_push,
};

verus! {

/// The buffer of a best-`k` sink of capacity `k` after it is offered `e`: below capacity
/// `e` is added; at capacity `e` replaces the first costliest entry when it costs less
/// than that entry, and is turned away otherwise.
pub open spec fn best_k_offer<P>(k: nat, buf: Seq<ScoredPath<P>>, e: ScoredPath<P>) -> Seq<
    ScoredPath<P>,
> {
    keep_lowest_offer(k, buf, e, cost_rank())
}

/// The buffer of a fresh best-`k` sink after it is offered the entries of `s` in order.
pub open spec fn best_k_after<P>(k: nat, s: Seq<ScoredPath<P>>) -> Seq<ScoredPath<P>> {
    keep_lowest_after(k, s, cost_rank())
}

/// Retains only the `k` lowest-cost paths discovered by an A* traversal.
pub struct BestKSink<P> {
    k: usize,
    buffer: Vec<ScoredPath<P>>,
    offered: Ghost<Seq<ScoredPath<P>>>,
}

impl<P> View for BestKSink<P> {
    type V = Seq<ScoredPath<P>>;

    /// The retained paths.
    closed spec fn view(&self) -> Seq<ScoredPath<P>> {
        self.buffer@
    }
}

impl<P> BestKSink<P> {
    #[verifier::type_invariant]
    spec fn well_formed(&self) -> bool {
        &&& 0 < self.k
        &&& self.buffer@ == best_k_after(self.k as nat, self.offered@)
    }

    /// The number of paths the sink retains at most.
    pub closed spec fn capacity(&self) -> nat {
        self.k as nat
    }

    /// Every path offered to the sink since it was made, in order.
    pub closed spec fn offered(&self) -> Seq<ScoredPath<P>> {
        self.offered@
    }

    /// A sink that retains at most `k` paths (`k` is positive).
    pub fn new(k: usize) -> (s: Self)
        requires
            0 < k,
        ensures
            s.capacity() == k,
            s.offered() == Seq::<ScoredPath<P>>::empty(),
            s@ == Seq::<ScoredPath<P>>::empty(),
    {
        BestKSink { k, buffer: Vec::new(), offered: Ghost(Seq::empty()) }
    }

    /// Offers a path of cost `f_cost`; it is kept when the sink has room or when it costs
    /// less than the costliest path retained, which then leaves.
    pub fn sink_scored(&mut self, path: P, f_cost: u64)
        ensures
            final(self).capacity() == old(self).capacity(),
            final(self)@ == best_k_offer(
                old(self).capacity(),
                old(self)@,
                ScoredPath { path, f_cost },
            ),
            final(self).offered() == old(self).offered().push(ScoredPath { path, f_cost }),
            final(self)@ == best_k_after(final(self).capacity(), final(self).offered()),
            final(self)@.len() <= final(self).capacity(),
    {
        proof {
            use_type_invariant(&*self);
        }
        let entry = ScoredPath { path, f_cost };
        let ghost e = entry;
        let k = self.k;
        let mut taken = BestKSink { k, buffer: Vec::new(), offered: Ghost(Seq::empty()) };
        std::mem::swap(self, &mut taken);
        let BestKSink { k: _, buffer: mut buffer, offered } = taken;
        let ghost before = buffer@;
        if buffer.len() < k {
            buffer.push(entry);
        } else {
            let worst = max_cost_position(&buffer);
            proof {
                lemma_max_cost_index(buffer@);
            }
            if entry.f_cost < buffer[worst].f_cost {
                buffer.remove(worst);
                buffer.push(entry);
            }
        }
        proof {
            lemma_keep_lowest_after_push(k as nat, offered@, e, cost_rank());
            assert(buffer@ == best_k_offer(k as nat, before, e));
            lemma_keep_lowest(k as nat, offered@.push(e), cost_rank());
        }
        *self = BestKSink { k, buffer, offered: Ghost(offered@.push(e)) };
    }

    /// The retained paths, from lowest cost to highest; paths of equal cost keep the order
    /// in which the sink holds them.
    pub fn into_sorted_paths(self) -> (r: Vec<ScoredPath<P>>)
        ensures
            r@ == sort_by_cost(self@),
            sorted_by_cost(r@),
            r@.to_multiset() == self@.to_multiset(),
    {
        proof {
            lemma_sort_by_cost(self@);
        }
        sort_scored_by_cost(self.buffer)
    }

    /// The retained paths, in the order in which the sink holds them.
    pub(crate) fn into_retained(self) -> (r: Vec<ScoredPath<P>>)
        ensures
            r@ == self@,
    {
        self.buffer
    }
}

impl<P> PathSink<ScoredPath<P>> for BestKSink<P> {
    open spec fn can_sink(&self) -> bool {
        true
    }

    open spec fn has_output(&self) -> bool {
        self@.len() > 0
    }

    fn sink(&mut self, item: ScoredPath<P>)
        ensures
            final(self).capacity() == old(self).capacity(),
            final(self)@ == best_k_offer(old(self).capacity(), old(self)@, item),
            final(self).offered() == old(self).offered().push(item),
            final(self)@ == best_k_after(final(self).capacity(), final(self).offered()),
    {
        self.sink_scored(item.path, item.f_cost);
    }

    /// Nothing is flushed: the sink keeps its state.
    open spec fn finalized(&self) -> Self {
        *self
    }

    fn finalize(&mut self) -> (r: bool) {
        self.buffer.len() > 0
    }
}

/// A best-`k` sink retains the `k` lowest-cost paths of its stream: after the entries
/// of `s` have been offered to a fresh sink of capacity `k`, it holds `min(k, |s|)` of
/// them, and no entry it turned away (counted with multiplicity) costs less than one it
/// holds.
pub proof fn lemma_best_k_keeps_lowest<P>(k: nat, s: Seq<ScoredPath<P>>)
    requires
        k > 0,
    ensures
        best_k_after(k, s).len() == if s.len() < k {
            s.len()
        } else {
            k
        },
        forall|x: ScoredPath<P>|
            #[trigger] best_k_after(k, s).to_multiset().count(x) <= s.to_multiset().count(x),
        forall|x: ScoredPath<P>, y: ScoredPath<P>|
            #![trigger s.to_multiset().count(x), best_k_after(k, s).contains(y)]
            best_k_after(k, s).to_multiset().count(x) < s.to_multiset().count(x)
                && best_k_after(k, s).contains(y) ==> y.f_cost <= x.f_cost,
{
    lemma_keep_lowest(k, s, cost_rank());
    assert forall|x: ScoredPath<P>, y: ScoredPath<P>|
        #![trigger s.to_multiset().count(x), best_k_after(k, s).contains(y)]
        best_k_after(k, s).to_multiset().count(x) < s.to_multiset().count(x) && best_k_after(
            k,
            s,
        ).contains(y) implies y.f_cost <= x.f_cost by {
        assert(cost_rank()(y) <= cost_rank()(x));
    }
}

/// The law of the best-`k` sink, for a sink as it stands: of all the paths offered to it,
/// it retains `min(k, n)`, and none it turned away costs less than one it retains.
pub proof fn lemma_best_k_sink_keeps_lowest<P>(sink: &BestKSink<P>)
    requires
        sink.capacity() > 0,
        sink@ == best_k_after(sink.capacity(), sink.offered()),
    ensures
        sink@.len() == if sink.offered().len() < sink.capacity() {
            sink.offered().len()
        } else {
            sink.capacity()
        },
        forall|x: ScoredPath<P>|
            #[trigger] sink@.to_multiset().count(x) <= sink.offered().to_multiset().count(x),
        forall|x: ScoredPath<P>, y: ScoredPath<P>|
            #![trigger sink.offered().to_multiset().count(x), sink@.contains(y)]
            sink@.to_multiset().count(x) < sink.offered().to_multiset().count(x)
                && sink@.contains(y) ==> y.f_cost <= x.f_cost,
{
    lemma_best_k_keeps_lowest(sink.capacity(), sink.offered());
}

/// The accepted paths of a threshold sink with bound `t` after it is offered `item`.
pub open spec fn threshold_offer<P>(t: u64, accepted: Seq<ScoredPath<P>>, item: ScoredPath<P>) -> Seq<
    ScoredPath<P>,
> {
    if item.f_cost <= t {
        accepted.push(item)
    } else {
        accepted
    }
}

/// The accepted paths of a fresh threshold sink after it is offered the entries of `s`.
pub open spec fn threshold_after<P>(t: u64, s: Seq<ScoredPath<P>>) -> Seq<ScoredPath<P>>
    decreases s.len(),
{
    if s.len() == 0 {
        Seq::empty()
    } else {
        threshold_offer(t, threshold_after(t, s.drop_last()), s.last())
    }
}

/// A threshold sink accepts exactly the paths of its stream whose cost is within the
/// bound, in the order in which they came.
pub proof fn lemma_threshold_keeps_within<P>(t: u64, s: Seq<ScoredPath<P>>)
    ensures
        threshold_after(t, s) == s.filter(|x: ScoredPath<P>| x.f_cost <= t),
    decreases s.len(),
{
    reveal_with_fuel(Seq::<_>::filter, 1);
    if s.len() > 0 {
        lemma_threshold_keeps_within(t, s.drop_last());
    }
}

/// Accepts a path only when its cost is within a maximum.
pub struct ThresholdSink<P> {
    max_cost_threshold: u64,
    accepted_paths: Vec<ScoredPath<P>>,
    offered: Ghost<Seq<ScoredPath<P>>>,
}

impl<P> View for ThresholdSink<P> {
    type V = Seq<ScoredPath<P>>;

    /// The accepted paths, in the order in which they came.
    closed spec fn view(&self) -> Seq<ScoredPath<P>> {
        self.accepted_paths@
    }
}

impl<P> ThresholdSink<P> {
    #[verifier::type_invariant]
    spec fn well_formed(&self) -> bool {
        self.accepted_paths@ == threshold_after(self.max_cost_threshold, self.offered@)
    }

    /// The largest cost the sink accepts.
    pub closed spec fn threshold(&self) -> u64 {
        self.max_cost_threshold
    }

    /// Every path offered to the sink since it was made, in order.
    pub closed spec fn offered(&self) -> Seq<ScoredPath<P>> {
        self.offered@
    }

    /// A sink that accepts the paths whose cost is at most `max_cost_threshold`.
    pub fn new(max_cost_threshold: u64) -> (s: Self)
        ensures
            s.threshold() == max_cost_threshold,
            s.offered() == Seq::<ScoredPath<P>>::empty(),
            s@ == Seq::<ScoredPath<P>>::empty(),
    {
        ThresholdSink { max_cost_threshold, accepted_paths: Vec::new(), offered: Ghost(Seq::empty()) }
    }

    /// The paths accepted so far.
    pub fn accepted_paths(&self) -> (r: &[ScoredPath<P>])
        ensures
            r@ == self@,
    {
        self.accepted_paths.as_slice()
    }

    /// Consumes the sink, giving back the accepted paths.
    pub fn into_paths(self) -> (r: Vec<ScoredPath<P>>)
        ensures
            r@ == self@,
    {
        self.accepted_paths
    }
}

/// The law of the threshold sink, for a sink as it stands: it holds exactly the paths
/// offered to it whose cost is within its bound, in the order in which they came.
pub proof fn lemma_threshold_sink_keeps_within<P>(sink: &ThresholdSink<P>)
    requires
        sink@ == threshold_after(sink.threshold(), sink.offered()),
    ensures
        sink@ == sink.offered().filter(|x: ScoredPath<P>| x.f_cost <= sink.threshold()),
{
    lemma_threshold_keeps_within(sink.threshold(), sink.offered());
}

impl<P> PathSink<ScoredPath<P>> for ThresholdSink<P> {
    open spec fn can_sink(&self) -> bool {
        true
    }

    open spec fn has_output(&self) -> bool {
        self@.len() > 0
    }

    fn sink(&mut self, item: ScoredPath<P>)
        ensures
            final(self).threshold() == old(self).threshold(),
            final(self)@ == threshold_offer(old(self).threshold(), old(self)@, item),
            final(self).offered() == old(self).offered().push(item),
            final(self)@ == threshold_after(final(self).threshold(), final(self).offered()),
    {
        proof {
            use_type_invariant(&*self);
        }
        let ghost e = item;
        let t = self.max_cost_threshold;
        let mut taken = ThresholdSink {
            max_cost_threshold: t,
            accepted_paths: Vec::new(),
            offered: Ghost(Seq::empty()),
        };
        std::mem::swap(self, &mut taken);
        let ThresholdSink { max_cost_threshold: _, accepted_paths: mut accepted, offered } = taken;
        if item.f_cost <= t {
            accepted.push(item);
        }
        proof {
            assert(offered@.push(e).drop_last() =~= offered@);
        }
        *self = ThresholdSink {
            max_cost_threshold: t,
            accepted_paths: accepted,
            offered: Ghost(offered@.push(e)),
        };
    }

    /// Nothing is flushed: the sink keeps its state.
    open spec fn finalized(&self) -> Self {
        *self
    }

    fn finalize(&mut self) -> (r: bool) {
        self.accepted_paths.len() > 0
    }
}

} // verus!
