//! Ordering scored entries by cost: the stable ascending sort and the costliest entry.
use vstd::prelude::*;

use crate::reservoir::{lemma_max_rank_index, max_rank_index};
use crate::sinks::scored_path::ScoredPath;

verus! {

/// The entries of `s` come by non-decreasing cost.
pub open spec fn sorted_by_cost<P>(s: Seq<ScoredPath<P>>) -> bool {
    forall|i: int, j: int| 0 <= i <= j < s.len() ==> s[i].f_cost <= s[j].f_cost
}

/// `x` placed into `s` just after the last entry whose cost is not above that of `x`
/// (at the front when there is none).
pub open spec fn insert_by_cost<P>(s: Seq<ScoredPath<P>>, x: ScoredPath<P>) -> Seq<ScoredPath<P>>
    decreases s.len(),
{
    if s.len() == 0 {
        seq![x]
    } else if x.f_cost < s.last().f_cost {
        insert_by_cost(s.drop_last(), x).push(s.last())
    } else {
        s.push(x)
    }
}

/// The stable sort of `s` by ascending cost: entries of equal cost keep their order.
pub open spec fn sort_by_cost<P>(s: Seq<ScoredPath<P>>) -> Seq<ScoredPath<P>>
    decreases s.len(),
{
    if s.len() == 0 {
        s
    } else {
        insert_by_cost(sort_by_cost(s.drop_last()), s.last())
    }
}

/// The rank of a scored path is its cost.
pub open spec fn cost_rank<P>() -> spec_fn(ScoredPath<P>) -> int {
    |x: ScoredPath<P>| x.f_cost as int
}

/// The index of the first entry of greatest cost in `s` (0 for an empty `s`).
pub open spec fn max_cost_index<P>(s: Seq<ScoredPath<P>>) -> int {
    max_rank_index(s, cost_rank())
}

/// The index of the first entry of least cost in `s` (0 for an empty `s`).
pub open spec fn min_cost_index<P>(s: Seq<ScoredPath<P>>) -> int
    decreases s.len(),
{
    if s.len() <= 1 {
        0
    } else {
        let j = min_cost_index(s.drop_last());
        if s.last().f_cost < s[j].f_cost {
            s.len() - 1
        } else {
            j
        }
    }
}

/// `max_cost_index` picks an entry of `s` that no entry of `s` costs more than.
pub proof fn lemma_max_cost_index<P>(s: Seq<ScoredPath<P>>)
    requires
        s.len() > 0,
    ensures
        0 <= max_cost_index(s) < s.len(),
        forall|i: int| #![trigger s[i]] 0 <= i < s.len() ==> s[i].f_cost <= s[max_cost_index(s)].f_cost,
{
    lemma_max_rank_index(s, cost_rank());
    assert forall|i: int| 0 <= i < s.len() implies #[trigger] s[i].f_cost <= s[max_cost_index(s)].f_cost by {
        assert(cost_rank()(s[i]) <= cost_rank()(s[max_cost_index(s)]));
    }
}

/// `min_cost_index` picks an entry of `s` that no entry of `s` costs less than.
pub proof fn lemma_min_cost_index<P>(s: Seq<ScoredPath<P>>)
    requires
        s.len() > 0,
    ensures
        0 <= min_cost_index(s) < s.len(),
        forall|i: int| #![trigger s[i]] 0 <= i < s.len() ==> s[min_cost_index(s)].f_cost <= s[i].f_cost,
    decreases s.len(),
{
    if s.len() > 1 {
        let t = s.drop_last();
        lemma_min_cost_index(t);
        let j = min_cost_index(t);
        let m = min_cost_index(s);
        assert(t[j] == s[j]);
        assert(m == j || m == s.len() - 1);
        assert forall|i: int| 0 <= i < s.len() implies s[i].f_cost >= #[trigger] s[m].f_cost by {
            if i < s.len() - 1 {
                assert(t[i] == s[i]);
            }
        }
    }
}

/// `insert_by_cost` puts `x` at the place that a scan from the end stops at.
proof fn lemma_insert_by_cost_at<P>(s: Seq<ScoredPath<P>>, x: ScoredPath<P>, p: int)
    requires
        0 <= p <= s.len(),
        forall|j: int| p <= j < s.len() ==> x.f_cost < #[trigger] s[j].f_cost,
        p == 0 || s[p - 1].f_cost <= x.f_cost,
    ensures
        insert_by_cost(s, x) == s.insert(p, x),
    decreases s.len(),
{
    if s.len() == 0 {
        assert(s.insert(p, x) =~= seq![x]);
    } else if x.f_cost < s.last().f_cost {
        lemma_insert_by_cost_at(s.drop_last(), x, p);
        assert(s.drop_last().insert(p, x).push(s.last()) =~= s.insert(p, x));
    } else {
        assert(s.insert(p, x) =~= s.push(x));
    }
}

/// Inserting into a sorted sequence keeps it sorted and adds exactly `x`.
proof fn lemma_insert_by_cost_sorted<P>(s: Seq<ScoredPath<P>>, x: ScoredPath<P>)
    requires
        sorted_by_cost(s),
    ensures
        sorted_by_cost(insert_by_cost(s, x)),
        insert_by_cost(s, x).to_multiset() =~= s.to_multiset().insert(x),
        insert_by_cost(s, x).len() == s.len() + 1,
    decreases s.len(),
{
    broadcast use vstd::seq_lib::group_to_multiset_ensures;
    if s.len() == 0 {
        assert(seq![x] =~= Seq::<ScoredPath<P>>::empty().push(x));
    } else if x.f_cost < s.last().f_cost {
        let t = s.drop_last();
        lemma_insert_by_cost_sorted(t, x);
        let r = insert_by_cost(t, x);
        assert(s =~= t.push(s.last()));
        // every entry of r is either x or an entry of t, all below s.last()
        assert forall|i: int| 0 <= i < r.len() implies r[i].f_cost <= s.last().f_cost by {
            assert(r.to_multiset().count(r[i]) > 0);
            if r[i] != x {
                assert(t.to_multiset().count(r[i]) > 0);
                assert(t.contains(r[i]));
            }
        }
    } else {
    }
}

/// The stable sort lists the same entries, by non-decreasing cost.
pub proof fn lemma_sort_by_cost<P>(s: Seq<ScoredPath<P>>)
    ensures
        sorted_by_cost(sort_by_cost(s)),
        sort_by_cost(s).to_multiset() =~= s.to_multiset(),
        sort_by_cost(s).len() == s.len(),
    decreases s.len(),
{
    broadcast use vstd::seq_lib::group_to_multiset_ensures;
    if s.len() > 0 {
        lemma_sort_by_cost(s.drop_last());
        lemma_insert_by_cost_sorted(sort_by_cost(s.drop_last()), s.last());
        assert(s =~= s.drop_last().push(s.last()));
    }
}

/// Sorts `v` by ascending cost, keeping entries of equal cost in their order.
pub(crate) fn sort_scored_by_cost<P>(v: Vec<ScoredPath<P>>) -> (r: Vec<ScoredPath<P>>)
    ensures
        r@ == sort_by_cost(v@),
{
    let ghost orig = v@;
    let mut rest = v;
    let mut out: Vec<ScoredPath<P>> = Vec::new();
    assert(orig.take(0) =~= Seq::<ScoredPath<P>>::empty());
    assert(orig.skip(0) =~= orig);
    while rest.len() > 0
        invariant
            rest@.len() <= orig.len(),
            out@ == sort_by_cost(orig.take(orig.len() - rest@.len())),
            rest@ == orig.skip(orig.len() - rest@.len()),
        decreases rest.len(),
    {
        let ghost n: int = orig.len() - rest@.len();
        let x = rest.remove(0);
        assert(x == orig[n]);
        let mut p: usize = out.len();
        while p > 0 && x.f_cost < out[p - 1].f_cost
            invariant
                p <= out@.len(),
                forall|j: int| p <= j < out@.len() ==> x.f_cost < #[trigger] out@[j].f_cost,
            decreases p,
        {
            p = p - 1;
        }
        proof {
            lemma_insert_by_cost_at(out@, x, p as int);
            assert(orig.take(n + 1).drop_last() =~= orig.take(n));
            assert(orig.take(n + 1).last() == x);
            assert(rest@ =~= orig.skip(n + 1));
        }
        out.insert(p, x);
    }
    assert(orig.take(orig.len() as int) =~= orig);
    out
}

/// The index of the first entry of greatest cost in a non-empty `v`.
pub(crate) fn max_cost_position<P>(v: &Vec<ScoredPath<P>>) -> (i: usize)
    requires
        v@.len() > 0,
    ensures
        i == max_cost_index(v@),
{
    let mut best: usize = 0;
    let mut i: usize = 1;
    assert(v@.take(1).len() == 1);
    while i < v.len()
        invariant
            1 <= i <= v@.len(),
            best == max_cost_index(v@.take(i as int)),
        decreases v@.len() - i,
    {
        proof {
            lemma_max_cost_index(v@.take(i as int));
            assert(v@.take(i + 1).drop_last() =~= v@.take(i as int));
            assert(v@.take(i as int)[best as int] == v@[best as int]);
        }
        if v[i].f_cost > v[best].f_cost {
            best = i;
        }
        i = i + 1;
    }
    assert(v@.take(v@.len() as int) =~= v@);
    best
}

/// The index of the first entry of least cost in a non-empty `v`.
pub(crate) fn min_cost_position<P>(v: &Vec<ScoredPath<P>>) -> (i: usize)
    requires
        v@.len() > 0,
    ensures
        i == min_cost_index(v@),
{
    let mut best: usize = 0;
    let mut i: usize = 1;
    assert(v@.take(1).len() == 1);
    while i < v.len()
        invariant
            1 <= i <= v@.len(),
            best == min_cost_index(v@.take(i as int)),
        decreases v@.len() - i,
    {
        proof {
            lemma_min_cost_index(v@.take(i as int));
            assert(v@.take(i + 1).drop_last() =~= v@.take(i as int));
            assert(v@.take(i as int)[best as int] == v@[best as int]);
        }
        if v[i].f_cost < v[best].f_cost {
            best = i;
        }
        i = i + 1;
    }
    assert(v@.take(v@.len() as int) =~= v@);
    best
}

} // verus!
