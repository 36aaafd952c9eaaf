//! Weighted reservoir sampling (Algorithm A-Res) over a stream of paths.
use vstd::prelude::*;
use rand::Rng;
use rand::rngs::ThreadRng;
use vstd::arithmetic::power2::{
    lemma2_to64, lemma2_to64_rest, lemma_pow2_adds, lemma_pow2_pos, lemma_pow2_strictly_increases,
    lemma_pow2_unfold, pow2,
};

use super::PathSink;
use super::astar_sink::BestKSink;
use super::scored_path::ScoredPath;
use crate::cost_order::cost_rank;
use crate::reservoir::{
    keep_lowest_after, keep_lowest_offer, lemma_keep_lowest, lemma_keep_lowest_after_map,
    lemma_keep_lowest_offer_map, lemma_keep_lowest_projected,
};

verus! {

#[verifier::external_type_specification]
#[verifier::external_body]
pub struct ExThreadRng(ThreadRng);

/// Calls `rand::thread_rng`, the handle on the generator of the calling thread.
/// Nothing is claimed of it: the generator is seeded by the system. The call panics
/// only when the system cannot seed it, which no argument decides.
#[verifier::external_body]
fn thread_rng() -> ThreadRng {
    rand::thread_rng()
}

/// Calls `Rng::gen::<u64>` on `rng`: a draw from the generator, so nothing is claimed of
/// the value; its distribution is uniform over `u64`. The call panics only when the
/// generator's periodic reseeding from the system fails, which no argument decides.
#[verifier::external_body]
fn draw_key(rng: &mut ThreadRng) -> u64 {
    rng.gen::<u64>()
}

/// The rank of a keyed path in the reservoir: the greater its key, the lower its rank.
pub open spec fn sample_rank() -> spec_fn((u64, Seq<u8>)) -> int {
    |x: (u64, Seq<u8>)| -(x.0 as int)
}

/// The reservoir of sample size `k` after it is offered the keyed path `e`: below
/// capacity `e` is added; at capacity `e` replaces the first entry of least key when its
/// key is greater, and is turned away otherwise.
pub open spec fn sample_offer(k: nat, buf: Seq<(u64, Seq<u8>)>, e: (u64, Seq<u8>)) -> Seq<
    (u64, Seq<u8>),
> {
    keep_lowest_offer(k, buf, e, sample_rank())
}

/// The reservoir of a fresh sink of sample size `k` after it is offered the keyed paths
/// of `s`.
pub open spec fn samples_after(k: nat, s: Seq<(u64, Seq<u8>)>) -> Seq<(u64, Seq<u8>)> {
    keep_lowest_after(k, s, sample_rank())
}

/// The keyed path that a retained entry stands for: the entry's cost is the key's
/// complement, so that the lowest costs are the greatest keys.
pub open spec fn sample_of() -> spec_fn(ScoredPath<Vec<u8>>) -> (u64, Seq<u8>) {
    |e: ScoredPath<Vec<u8>>| ((u64::MAX - e.f_cost) as u64, e.path@)
}

/// Collects a weighted random sample of up to `max_samples` paths.
///
/// A path with A-Res key `k = u^(1/w)` is kept when its key is among the `max_samples`
/// greatest; keys are carried as order keys, the bit pattern of the double `k`.
pub struct WeightedSampleSink {
    samples: BestKSink<Vec<u8>>,
    rng: ThreadRng,
}

impl View for WeightedSampleSink {
    type V = Seq<(u64, Seq<u8>)>;

    /// The reservoir: each sampled path with its key.
    closed spec fn view(&self) -> Seq<(u64, Seq<u8>)> {
        self.samples@.map_values(sample_of())
    }
}

proof fn lemma_ranks_match(e: ScoredPath<Vec<u8>>)
    ensures
        cost_rank()(e) == sample_rank()(sample_of()(e)) + u64::MAX,
{
}

impl WeightedSampleSink {
    /// The sample size.
    pub closed spec fn capacity(&self) -> nat {
        self.samples.capacity()
    }

    /// Every keyed path offered to the sink since it was made, in order.
    pub closed spec fn offered(&self) -> Seq<(u64, Seq<u8>)> {
        self.samples.offered().map_values(sample_of())
    }

    /// A sink for a sample of `max_samples` paths (a positive number).
    pub fn new(max_samples: usize) -> (s: Self)
        requires
            0 < max_samples,
        ensures
            s.capacity() == max_samples,
            s.offered() == Seq::<(u64, Seq<u8>)>::empty(),
            s@ == Seq::<(u64, Seq<u8>)>::empty(),
    {
        let s = WeightedSampleSink { samples: BestKSink::new(max_samples), rng: thread_rng() };
        assert(s@ =~= Seq::<(u64, Seq<u8>)>::empty());
        assert(s.offered() =~= Seq::<(u64, Seq<u8>)>::empty());
        s
    }

    /// Offers `path` with the A-Res key `key`; the reservoir keeps the `max_samples`
    /// greatest keys.
    pub fn sink_keyed(&mut self, path: &[u8], key: u64)
        ensures
            final(self).capacity() == old(self).capacity(),
            final(self)@ == sample_offer(old(self).capacity(), old(self)@, (key, path@)),
            final(self).offered() == old(self).offered().push((key, path@)),
            final(self)@ == samples_after(final(self).capacity(), final(self).offered()),
    {
        let ghost inner_before = self.samples@;
        let ghost offered_before = self.samples.offered();
        let entry_path = copy_bytes(path);
        let cost = u64::MAX - key;
        let ghost e = ScoredPath { path: entry_path, f_cost: cost };
        self.samples.sink_scored(entry_path, cost);
        proof {
            assert(sample_of()(e) == (key, path@));
            assert forall|x: ScoredPath<Vec<u8>>|
                #[trigger] cost_rank()(x) == sample_rank()(sample_of()(x)) + u64::MAX by {
                lemma_ranks_match(x);
            }
            let k = self.samples.capacity();
            lemma_keep_lowest_offer_map(
                k,
                inner_before,
                e,
                cost_rank(),
                sample_of(),
                sample_rank(),
                u64::MAX as int,
            );
            lemma_keep_lowest_after_map(
                k,
                self.samples.offered(),
                cost_rank(),
                sample_of(),
                sample_rank(),
                u64::MAX as int,
            );
            assert(offered_before.push(e).map_values(sample_of()) =~= offered_before.map_values(
                sample_of(),
            ).push((key, path@)));
        }
    }

    /// The sampled paths, in the order in which the reservoir holds them.
    pub fn into_samples(self) -> (r: Vec<Vec<u8>>)
        ensures
            r.deep_view() == paths_of(self@),
    {
        let ghost whole = self@;
        let mut rest = self.samples.into_retained();
        let mut out: Vec<Vec<u8>> = Vec::new();
        let ghost orig = rest@;
        while rest.len() > 0
            invariant
                rest@.len() <= orig.len(),
                whole == orig.map_values(sample_of()),
                rest@ =~= orig.skip(orig.len() - rest@.len()),
                out@.len() == orig.len() - rest@.len(),
                forall|i: int| 0 <= i < out@.len() ==> #[trigger] out@[i]@ == orig[i].path@,
            decreases rest.len(),
        {
            let ghost n: int = orig.len() - rest@.len();
            let e = rest.remove(0);
            assert(orig.skip(n)[0] == orig[n]);
            assert(orig.skip(n).skip(1) =~= orig.skip(n + 1));
            out.push(e.path);
        }
        assert(out.deep_view() =~= paths_of(whole)) by {
            assert forall|i: int| 0 <= i < out@.len() implies out.deep_view()[i] == paths_of(
                whole,
            )[i] by {
                assert(out@[i].deep_view() =~= out@[i]@);
            }
        }
        out
    }
}

/// The bit pattern of the double `m * 2^-53`, where `2^e <= m < 2^(e + 1)`: exponent
/// field `e + 970`, fraction field `(m - 2^e) * 2^(52 - e)`.
pub open spec fn unit_bits(m: nat, e: nat) -> int {
    (e + 970) * pow2(52) + (m - pow2(e)) * pow2((52 - e) as nat)
}

/// `e` is the position of the highest set bit of `m`, a number below `2^53`.
pub open spec fn top_bit_is(m: nat, e: nat) -> bool {
    &&& e <= 52
    &&& pow2(e) <= m < pow2(e + 1)
}

/// Keys of draws are ordered as the numbers they stand for: a greater `m` gives a greater
/// bit pattern of `m * 2^-53`, and every one lies below the bit pattern of `1.0`.
pub proof fn lemma_unit_bits_increasing(m1: nat, e1: nat, m2: nat, e2: nat)
    requires
        top_bit_is(m1, e1),
        top_bit_is(m2, e2),
        m1 < m2,
    ensures
        0 < unit_bits(m1, e1) < unit_bits(m2, e2) < 0x3FF0_0000_0000_0000,
{
    lemma2_to64_rest();
    lemma_pow2_unfold(e1 + 1);
    lemma_pow2_unfold(e2 + 1);
    lemma_pow2_adds(e1, (52 - e1) as nat);
    lemma_pow2_adds(e2, (52 - e2) as nat);
    lemma_pow2_pos((52 - e1) as nat);
    lemma_pow2_pos((52 - e2) as nat);
    let b = pow2(52) as int;
    let p1 = pow2(e1) as int;
    let p2 = pow2(e2) as int;
    let s1 = pow2((52 - e1) as nat) as int;
    let s2 = pow2((52 - e2) as nat) as int;
    assert((m1 - p1) * s1 < b) by (nonlinear_arith)
        requires
            0 <= m1 - p1 < p1,
            p1 * s1 == b,
            s1 > 0,
    ;
    assert((m2 - p2) * s2 < b) by (nonlinear_arith)
        requires
            0 <= m2 - p2 < p2,
            p2 * s2 == b,
            s2 > 0,
    ;
    assert((m1 - p1) * s1 >= 0 && (m2 - p2) * s2 >= 0) by (nonlinear_arith)
        requires
            m1 - p1 >= 0,
            m2 - p2 >= 0,
            s1 > 0,
            s2 > 0,
    ;
    if e1 < e2 {
        assert(unit_bits(m1, e1) < (e1 + 971) * b);
        assert((e1 + 971) * b <= (e2 + 970) * b) by (nonlinear_arith)
            requires
                e1 < e2,
                b > 0,
        ;
    } else if e1 == e2 {
        assert((m1 - p1) * s1 < (m2 - p2) * s2) by (nonlinear_arith)
            requires
                m1 < m2,
                p1 == p2,
                s1 == s2,
                s1 > 0,
        ;
    } else {
        lemma_pow2_strictly_increases(e2 + 1, e1);
        if e1 == e2 + 1 {
        }
    }
    assert((e2 + 970) * b + b <= 1023 * b) by (nonlinear_arith)
        requires
            e2 <= 52,
            b > 0,
    ;
}

/// `key` is the key of the draw `v`: the bit pattern of the double `(v >> 11) * 2^-53`.
pub open spec fn is_draw_key(key: u64, v: u64) -> bool {
    &&& v >> 11u64 == 0 ==> key == 0
    &&& v >> 11u64 > 0 ==> exists|e: nat|
        top_bit_is((v >> 11u64) as nat, e) && key == unit_bits((v >> 11u64) as nat, e)
    &&& key < 0x3FF0_0000_0000_0000u64
}

/// Keys of draws order as the numbers drawn: the draw whose 53 high bits are greater gets
/// the greater key, so equally likely draws give equally likely, distinct keys and
/// `u^(1/1) = u` is kept exactly as A-Res keeps it.
pub proof fn lemma_draw_keys_ordered(k1: u64, v1: u64, k2: u64, v2: u64)
    requires
        is_draw_key(k1, v1),
        is_draw_key(k2, v2),
        v1 >> 11u64 < v2 >> 11u64,
    ensures
        k1 < k2,
{
    let m1 = (v1 >> 11u64) as nat;
    let m2 = (v2 >> 11u64) as nat;
    let e2 = choose|e: nat| top_bit_is(m2, e) && k2 == unit_bits(m2, e);
    if m1 == 0 {
        lemma_pow2_pos(52);
        lemma_pow2_pos((52 - e2) as nat);
        let b = pow2(52) as int;
        let d = m2 - pow2(e2);
        let sc = pow2((52 - e2) as nat) as int;
        assert(d * sc >= 0) by (nonlinear_arith)
            requires
                d >= 0,
                sc > 0,
        ;
        assert((e2 + 970) * b > 0) by (nonlinear_arith)
            requires
                b > 0,
        ;
    } else {
        let e1 = choose|e: nat| top_bit_is(m1, e) && k1 == unit_bits(m1, e);
        lemma_unit_bits_increasing(m1, e1, m2, e2);
    }
}

/// The key of a uniform draw `v`: the bit pattern of the double `(v >> 11) * 2^-53`, a
/// number in `[0, 1)` drawn on 53 bits; the same order keys stand for A-Res keys.
pub(crate) fn unit_key(v: u64) -> (r: u64)
    ensures
        is_draw_key(r, v),
        v >> 11u64 == 0 ==> r == 0,
        v >> 11u64 > 0 ==> exists|e: nat|
            top_bit_is((v >> 11u64) as nat, e) && r == unit_bits((v >> 11u64) as nat, e),
        r < 0x3FF0_0000_0000_0000u64,
{
    let m: u64 = v >> 11u64;
    assert(m < 0x20_0000_0000_0000u64) by (bit_vector)
        requires
            m == v >> 11u64,
    ;
    if m == 0 {
        return 0;
    }
    proof {
        lemma2_to64();
        lemma2_to64_rest();
    }
    let mut e: u64 = 52;
    let mut p: u64 = 0x10_0000_0000_0000;
    let mut s: u64 = 1;
    while p > m
        invariant
            1 <= m < 2 * p,
            e <= 52,
            p == pow2(e as nat),
            s == pow2((52 - e) as nat),
            p * s == 0x10_0000_0000_0000,
        decreases e,
    {
        proof {
            lemma2_to64();
            if e == 0 {
                assert(false);
            }
            lemma_pow2_unfold(e as nat);
            lemma_pow2_unfold((53 - e) as nat);
            let q = pow2((e - 1) as nat) as int;
            assert(p == 2 * q);
            assert(s <= 0x10_0000_0000_0000) by (nonlinear_arith)
                requires
                    p * s == 0x10_0000_0000_0000,
                    p >= 1,
                    s >= 0,
            ;
            assert(q * (s * 2) == p * s) by (nonlinear_arith)
                requires
                    p == 2 * q,
            ;
        }
        p = p / 2;
        s = s * 2;
        e = e - 1;
    }
    proof {
        lemma_pow2_unfold((e + 1) as nat);
        assert((m - p) * s < p * s) by (nonlinear_arith)
            requires
                m - p < p,
                s > 0,
        ;
        assert(top_bit_is(m as nat, e as nat));
        assert(pow2(52) == 0x10_0000_0000_0000);
    }
    let r = (e + 970) * 0x10_0000_0000_0000 + (m - p) * s;
    proof {
        assert(r == unit_bits(m as nat, e as nat));
        assert(r < 0x3FF0_0000_0000_0000) by (nonlinear_arith)
            requires
                r == (e + 970) * 0x10_0000_0000_0000 + (m - p) * s,
                (m - p) * s < 0x10_0000_0000_0000,
                e <= 52,
        ;
    }
    r
}

/// A vector holding the bytes of `bytes`.
fn copy_bytes(bytes: &[u8]) -> (r: Vec<u8>)
    ensures
        r@ == bytes@,
{
    let mut r: Vec<u8> = Vec::with_capacity(bytes.len());
    let mut i: usize = 0;
    while i < bytes.len()
        invariant
            i <= bytes@.len(),
            r@ == bytes@.take(i as int),
        decreases bytes@.len() - i,
    {
        r.push(bytes[i]);
        assert(bytes@.take(i + 1) =~= bytes@.take(i as int).push(bytes@[i as int]));
        i = i + 1;
    }
    assert(bytes@.take(bytes@.len() as int) =~= bytes@);
    r
}

impl<'a> PathSink<&'a [u8]> for WeightedSampleSink {
    open spec fn can_sink(&self) -> bool {
        true
    }

    open spec fn has_output(&self) -> bool {
        self@.len() > 0
    }

    /// Offers `path` with weight 1, whose key is that of a draw from the sink's generator.
    fn sink(&mut self, path: &'a [u8])
        ensures
            final(self).capacity() == old(self).capacity(),
            exists|key: u64, v: u64|
                {
                    &&& is_draw_key(key, v)
                    &&& final(self)@ == sample_offer(old(self).capacity(), old(self)@, (key, path@))
                    &&& final(self).offered() == old(self).offered().push((key, path@))
                },
            final(self)@ == samples_after(final(self).capacity(), final(self).offered()),
    {
        let v = draw_key(&mut self.rng);
        let key = unit_key(v);
        self.sink_keyed(path, key);
        assert(is_draw_key(key, v));
        assert(self@ == sample_offer(old(self).capacity(), old(self)@, (key, path@)));
        assert(self.offered() == old(self).offered().push((key, path@)));
    }

    /// Nothing is flushed: the sink keeps its state.
    open spec fn finalized(&self) -> Self {
        *self
    }

    fn finalize(&mut self) -> (r: bool) {
        self.samples.finalize()
    }
}

/// The reservoir keeps the greatest keys of its stream: after the keyed paths of `s`
/// have been offered to a fresh sink of sample size `k`, it holds `min(k, |s|)` of them,
/// and no entry it turned away (counted with multiplicity) has a greater key than one
/// it holds.
pub proof fn lemma_samples_keep_greatest_keys(k: nat, s: Seq<(u64, Seq<u8>)>)
    requires
        k > 0,
    ensures
        samples_after(k, s).len() == if s.len() < k {
            s.len()
        } else {
            k
        },
        forall|x: (u64, Seq<u8>)|
            #[trigger] samples_after(k, s).to_multiset().count(x) <= s.to_multiset().count(x),
        forall|x: (u64, Seq<u8>), y: (u64, Seq<u8>)|
            #![trigger s.to_multiset().count(x), samples_after(k, s).contains(y)]
            samples_after(k, s).to_multiset().count(x) < s.to_multiset().count(x)
                && samples_after(k, s).contains(y) ==> x.0 <= y.0,
{
    lemma_keep_lowest(k, s, sample_rank());
    assert forall|x: (u64, Seq<u8>), y: (u64, Seq<u8>)|
        #![trigger s.to_multiset().count(x), samples_after(k, s).contains(y)]
        samples_after(k, s).to_multiset().count(x) < s.to_multiset().count(x) && samples_after(
            k,
            s,
        ).contains(y) implies x.0 <= y.0 by {
        assert(sample_rank()(y) <= sample_rank()(x));
    }
}

/// The law of the weighted sample sink, for a sink as it stands: of all the keyed paths
/// offered to it, it holds `min(k, n)`, and none it turned away has a greater key than
/// one it holds.
pub proof fn lemma_sample_sink_keeps_greatest_keys(sink: &WeightedSampleSink)
    requires
        sink.capacity() > 0,
        sink@ == samples_after(sink.capacity(), sink.offered()),
    ensures
        sink@.len() == if sink.offered().len() < sink.capacity() {
            sink.offered().len()
        } else {
            sink.capacity()
        },
        forall|x: (u64, Seq<u8>)|
            #[trigger] sink@.to_multiset().count(x) <= sink.offered().to_multiset().count(x),
        forall|x: (u64, Seq<u8>), y: (u64, Seq<u8>)|
            #![trigger sink.offered().to_multiset().count(x), sink@.contains(y)]
            sink@.to_multiset().count(x) < sink.offered().to_multiset().count(x)
                && sink@.contains(y) ==> x.0 <= y.0,
{
    lemma_samples_keep_greatest_keys(sink.capacity(), sink.offered());
}

/// The paths of a sequence of keyed paths, in order.
pub open spec fn paths_of(s: Seq<(u64, Seq<u8>)>) -> Seq<Seq<u8>> {
    s.map_values(|x: (u64, Seq<u8>)| x.1)
}

/// The paths a weighted sample sink holds come from the paths offered to it: it holds
/// `min(k, n)` of them, no path more often than it was offered, and, while no more than
/// `k` were offered, every one of them.
pub proof fn lemma_sample_sink_keeps_paths(sink: &WeightedSampleSink)
    requires
        sink.capacity() > 0,
        sink@ == samples_after(sink.capacity(), sink.offered()),
    ensures
        paths_of(sink@).len() == if sink.offered().len() < sink.capacity() {
            sink.offered().len()
        } else {
            sink.capacity()
        },
        forall|q: Seq<u8>|
            #[trigger] paths_of(sink@).to_multiset().count(q) <= paths_of(
                sink.offered(),
            ).to_multiset().count(q),
        sink.offered().len() <= sink.capacity() ==> paths_of(sink@) == paths_of(sink.offered()),
{
    lemma_samples_keep_greatest_keys(sink.capacity(), sink.offered());
    lemma_keep_lowest_projected(
        sink.capacity(),
        sink.offered(),
        sample_rank(),
        |x: (u64, Seq<u8>)| x.1,
    );
}

} // verus!
