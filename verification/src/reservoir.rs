//! Bounded reservoirs that keep the lowest-ranked entries of a stream.
//!
//! The best-`k` sink ranks its paths by cost, the weighted sample sink ranks its
//! entries by their negated key; both keep their `k` lowest-ranked entries.
use vstd::prelude::*;
use vstd::multiset::Multiset;

verus! {

broadcast use vstd::seq_lib::group_to_multiset_ensures;

/// The index of the first entry of greatest rank in `s` (0 for an empty `s`).
pub open spec fn max_rank_index<E>(s: Seq<E>, rank: spec_fn(E) -> int) -> int
    decreases s.len(),
{
    if s.len() <= 1 {
        0
    } else {
        let j = max_rank_index(s.drop_last(), rank);
        if rank(s.last()) > rank(s[j]) {
            s.len() - 1
        } else {
            j
        }
    }
}

/// `max_rank_index` picks an entry of `s` that no entry of `s` outranks.
pub proof fn lemma_max_rank_index<E>(s: Seq<E>, rank: spec_fn(E) -> int)
    requires
        s.len() > 0,
    ensures
        0 <= max_rank_index(s, rank) < s.len(),
        forall|i: int|
            #![trigger s[i]]
            0 <= i < s.len() ==> rank(s[i]) <= rank(s[max_rank_index(s, rank)]),
    decreases s.len(),
{
    if s.len() > 1 {
        let t = s.drop_last();
        lemma_max_rank_index(t, rank);
        let j = max_rank_index(t, rank);
        let m = max_rank_index(s, rank);
        assert(t[j] == s[j]);
        assert(m == j || m == s.len() - 1);
        assert forall|i: int| 0 <= i < s.len() implies rank(s[i]) <= rank(#[trigger] s[m]) by {
            if i < s.len() - 1 {
                assert(t[i] == s[i]);
            }
        }
    }
}

/// A reservoir of capacity `k` after it is offered `e`: below capacity `e` is added; at
/// capacity `e` replaces the first entry of greatest rank when it ranks lower than that
/// entry, and is turned away otherwise.
pub open spec fn keep_lowest_offer<E>(k: nat, buf: Seq<E>, e: E, rank: spec_fn(E) -> int) -> Seq<
    E,
> {
    if buf.len() < k {
        buf.push(e)
    } else if buf.len() > 0 && rank(e) < rank(buf[max_rank_index(buf, rank)]) {
        buf.remove(max_rank_index(buf, rank)).push(e)
    } else {
        buf
    }
}

/// A fresh reservoir of capacity `k` after it is offered the entries of `s` in order.
pub open spec fn keep_lowest_after<E>(k: nat, s: Seq<E>, rank: spec_fn(E) -> int) -> Seq<E>
    decreases s.len(),
{
    if s.len() == 0 {
        Seq::empty()
    } else {
        keep_lowest_offer(k, keep_lowest_after(k, s.drop_last(), rank), s.last(), rank)
    }
}

/// Offering one more entry extends a run of offers by that entry.
pub proof fn lemma_keep_lowest_after_push<E>(k: nat, s: Seq<E>, e: E, rank: spec_fn(E) -> int)
    ensures
        keep_lowest_after(k, s.push(e), rank) == keep_lowest_offer(
            k,
            keep_lowest_after(k, s, rank),
            e,
            rank,
        ),
{
    assert(s.push(e).drop_last() =~= s);
}

/// While no more than `k` entries have been offered, the reservoir keeps them all.
proof fn lemma_keep_lowest_under_capacity<E>(k: nat, s: Seq<E>, rank: spec_fn(E) -> int)
    requires
        s.len() <= k,
    ensures
        keep_lowest_after(k, s, rank) == s,
    decreases s.len(),
{
    if s.len() > 0 {
        lemma_keep_lowest_under_capacity(k, s.drop_last(), rank);
        assert(s.drop_last().push(s.last()) =~= s);
    }
}

/// A reservoir keeps the `k` lowest-ranked entries of its stream: after the entries of
/// `s` have been offered to a fresh reservoir of capacity `k`, it holds `min(k, |s|)` of
/// them, and no entry it turned away (counted with multiplicity) ranks below one it holds.
pub proof fn lemma_keep_lowest<E>(k: nat, s: Seq<E>, rank: spec_fn(E) -> int)
    requires
        k > 0,
    ensures
        keep_lowest_after(k, s, rank).len() == if s.len() < k {
            s.len()
        } else {
            k
        },
        forall|x: E|
            #[trigger] keep_lowest_after(k, s, rank).to_multiset().count(x) <= s.to_multiset().count(
                x,
            ),
        forall|x: E, y: E|
            #![trigger s.to_multiset().count(x), keep_lowest_after(k, s, rank).contains(y)]
            keep_lowest_after(k, s, rank).to_multiset().count(x) < s.to_multiset().count(x)
                && keep_lowest_after(k, s, rank).contains(y) ==> rank(y) <= rank(x),
    decreases s.len(),
{
    let b = keep_lowest_after(k, s, rank);
    if s.len() == 0 {
        assert(b.to_multiset() =~= Multiset::empty());
        assert(s.to_multiset() =~= Multiset::empty());
    } else {
        let t = s.drop_last();
        let e = s.last();
        let a = keep_lowest_after(k, t, rank);
        lemma_keep_lowest(k, t, rank);
        assert(s =~= t.push(e));
        assert(s.to_multiset() =~= t.to_multiset().insert(e));
        if a.len() < k {
            lemma_keep_lowest_under_capacity(k, t, rank);
            assert(b == a.push(e));
            assert(b.to_multiset() =~= a.to_multiset().insert(e));
            assert forall|x: E| #[trigger] b.to_multiset().count(x) >= s.to_multiset().count(x) by {}
        } else {
            lemma_max_rank_index(a, rank);
            let i = max_rank_index(a, rank);
            let m = a[i];
            if rank(e) < rank(m) {
                assert(b == a.remove(i).push(e));
                assert(b.to_multiset() =~= a.to_multiset().remove(m).insert(e));
                assert(a.to_multiset().count(m) > 0);
                assert forall|x: E, y: E|
                    #![trigger s.to_multiset().count(x), b.contains(y)]
                    b.to_multiset().count(x) < s.to_multiset().count(x) && b.contains(
                        y,
                    ) implies rank(y) <= rank(x) by {
                    assert(b.to_multiset().count(y) > 0);
                    if y != e {
                        assert(a.to_multiset().count(y) > 0);
                        assert(a.contains(y));
                    }
                    assert(a.contains(m));
                    if x != m {
                        assert(a.to_multiset().count(x) < t.to_multiset().count(x));
                    }
                }
            } else {
                assert(b == a);
                assert forall|x: E, y: E|
                    #![trigger s.to_multiset().count(x), b.contains(y)]
                    b.to_multiset().count(x) < s.to_multiset().count(x) && b.contains(
                        y,
                    ) implies rank(y) <= rank(x) by {
                    let j = choose|j: int| 0 <= j < a.len() && a[j] == y;
                    assert(rank(a[j]) <= rank(m));
                    if x != e {
                        assert(a.to_multiset().count(x) < t.to_multiset().count(x));
                    }
                }
            }
        }
    }
}

/// Mapping the entries by `f` commutes with picking the greatest rank when `f` keeps the
/// ranks up to the constant `c`.
proof fn lemma_max_rank_index_map<E, F>(
    s: Seq<E>,
    rank: spec_fn(E) -> int,
    f: spec_fn(E) -> F,
    frank: spec_fn(F) -> int,
    c: int,
)
    requires
        forall|x: E| #[trigger] rank(x) == frank(f(x)) + c,
    ensures
        max_rank_index(s, rank) == max_rank_index(s.map_values(f), frank),
    decreases s.len(),
{
    if s.len() > 1 {
        lemma_max_rank_index_map(s.drop_last(), rank, f, frank, c);
        assert(s.map_values(f).drop_last() =~= s.drop_last().map_values(f));
        lemma_max_rank_index(s.drop_last(), rank);
        let j = max_rank_index(s.drop_last(), rank);
        assert(s.drop_last()[j] == s[j]);
        assert(rank(s.last()) == frank(f(s.last())) + c);
        assert(rank(s[j]) == frank(f(s[j])) + c);
    }
}

/// Mapping the entries by `f` commutes with one offer when `f` keeps the ranks up to the
/// constant `c`.
pub proof fn lemma_keep_lowest_offer_map<E, F>(
    k: nat,
    buf: Seq<E>,
    e: E,
    rank: spec_fn(E) -> int,
    f: spec_fn(E) -> F,
    frank: spec_fn(F) -> int,
    c: int,
)
    requires
        forall|x: E| #[trigger] rank(x) == frank(f(x)) + c,
    ensures
        keep_lowest_offer(k, buf, e, rank).map_values(f) == keep_lowest_offer(
            k,
            buf.map_values(f),
            f(e),
            frank,
        ),
{
    lemma_max_rank_index_map(buf, rank, f, frank, c);
    let fb = buf.map_values(f);
    assert(buf.push(e).map_values(f) =~= fb.push(f(e)));
    if buf.len() >= k && buf.len() > 0 {
        let i = max_rank_index(buf, rank);
        lemma_max_rank_index(buf, rank);
        assert(rank(e) == frank(f(e)) + c);
        assert(rank(buf[i]) == frank(f(buf[i])) + c);
        assert(buf.remove(i).push(e).map_values(f) =~= fb.remove(i).push(f(e)));
    }
}

/// Mapping the entries by `f` commutes with a run of offers when `f` keeps the ranks up
/// to the constant `c`.
pub proof fn lemma_keep_lowest_after_map<E, F>(
    k: nat,
    s: Seq<E>,
    rank: spec_fn(E) -> int,
    f: spec_fn(E) -> F,
    frank: spec_fn(F) -> int,
    c: int,
)
    requires
        forall|x: E| #[trigger] rank(x) == frank(f(x)) + c,
    ensures
        keep_lowest_after(k, s, rank).map_values(f) == keep_lowest_after(
            k,
            s.map_values(f),
            frank,
        ),
    decreases s.len(),
{
    if s.len() == 0 {
        assert(s.map_values(f) =~= Seq::<F>::empty());
        assert(Seq::<E>::empty().map_values(f) =~= Seq::<F>::empty());
    } else {
        lemma_keep_lowest_after_map(k, s.drop_last(), rank, f, frank, c);
        assert(s.map_values(f).drop_last() =~= s.drop_last().map_values(f));
        lemma_keep_lowest_offer_map(
            k,
            keep_lowest_after(k, s.drop_last(), rank),
            s.last(),
            rank,
            f,
            frank,
            c,
        );
    }
}

/// What a reservoir holds, seen through any `f` (such as the path of a keyed path), is
/// drawn from its stream seen through `f`: no value is held more often than the stream
/// offered it, and while the stream has no more than `k` entries all of them are held.
pub proof fn lemma_keep_lowest_projected<E, F>(
    k: nat,
    s: Seq<E>,
    rank: spec_fn(E) -> int,
    f: spec_fn(E) -> F,
)
    ensures
        forall|y: F|
            #[trigger] keep_lowest_after(k, s, rank).map_values(f).to_multiset().count(y)
                <= s.map_values(f).to_multiset().count(y),
        s.len() <= k ==> keep_lowest_after(k, s, rank) == s,
    decreases s.len(),
{
    let b = keep_lowest_after(k, s, rank);
    if s.len() <= k {
        lemma_keep_lowest_under_capacity(k, s, rank);
    }
    if s.len() == 0 {
        assert(b.map_values(f).to_multiset() =~= Multiset::empty());
    } else {
        let t = s.drop_last();
        let e = s.last();
        let a = keep_lowest_after(k, t, rank);
        lemma_keep_lowest_projected(k, t, rank, f);
        assert(s.map_values(f) =~= t.map_values(f).push(f(e)));
        assert(s.map_values(f).to_multiset() =~= t.map_values(f).to_multiset().insert(f(e)));
        if a.len() < k {
            assert(b == a.push(e));
            assert(b.map_values(f) =~= a.map_values(f).push(f(e)));
            assert(b.map_values(f).to_multiset() =~= a.map_values(f).to_multiset().insert(f(e)));
        } else if a.len() > 0 && rank(e) < rank(a[max_rank_index(a, rank)]) {
            lemma_max_rank_index(a, rank);
            let i = max_rank_index(a, rank);
            assert(b == a.remove(i).push(e));
            assert(b.map_values(f) =~= a.map_values(f).remove(i).push(f(e)));
            assert(a.map_values(f)[i] == f(a[i]));
            assert(b.map_values(f).to_multiset() =~= a.map_values(f).to_multiset().remove(
                f(a[i]),
            ).insert(f(e)));
        } else {
            assert(b == a);
        }
    }
}

} // verus!
