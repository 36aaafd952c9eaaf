//! A* traversal that keeps only the best few children of each expanded node.
use vstd::prelude::*;
use vstd::arithmetic::power::{
    lemma_pow1, lemma_pow_adds, lemma_pow_increases, lemma_pow_positive, pow,
};

use super::PathSource;
use crate::cost_order::{
    lemma_min_cost_index, lemma_sort_by_cost, min_cost_index, min_cost_position, sort_by_cost,
    sort_scored_by_cost, sorted_by_cost,
};
use crate::sinks::scored_path::ScoredPath;

verus! {

/// The open set after one expansion: `open` without its entry at `i`, followed by the
/// `k` cheapest of `children` (all of them when there are fewer), cheapest first and, at
/// equal cost, in the order in which they came.
pub open spec fn open_after_expansion<Node>(
    open: Seq<ScoredPath<Node>>,
    i: int,
    children: Seq<ScoredPath<Node>>,
    k: nat,
) -> Seq<ScoredPath<Node>> {
    open.remove(i) + cheapest_children(children, k)
}

/// What one expansion lets into the open set: the `k` cheapest of `children`, all of
/// them when there are fewer.
pub open spec fn cheapest_children<Node>(children: Seq<ScoredPath<Node>>, k: nat) -> Seq<
    ScoredPath<Node>,
> {
    let sorted = sort_by_cost(children);
    if sorted.len() <= k {
        sorted
    } else {
        sorted.take(k as int)
    }
}

/// An expansion keeps the cheapest children: it lets in `min(k, |children|)` of them,
/// cheapest first, and no child it leaves out (counted with multiplicity) costs less
/// than one it lets in.
pub proof fn lemma_expansion_keeps_cheapest<Node>(children: Seq<ScoredPath<Node>>, k: nat)
    ensures
        cheapest_children(children, k).len() == if children.len() <= k {
            children.len()
        } else {
            k
        },
        sorted_by_cost(cheapest_children(children, k)),
        forall|x: ScoredPath<Node>|
            #[trigger] cheapest_children(children, k).to_multiset().count(x)
                <= children.to_multiset().count(x),
        forall|x: ScoredPath<Node>, y: ScoredPath<Node>|
            #![trigger children.to_multiset().count(x), cheapest_children(children, k).contains(y)]
            cheapest_children(children, k).to_multiset().count(x) < children.to_multiset().count(x)
                && cheapest_children(children, k).contains(y) ==> y.f_cost <= x.f_cost,
{
    broadcast use vstd::seq_lib::group_to_multiset_ensures;
    lemma_sort_by_cost(children);
    let sorted = sort_by_cost(children);
    let kept = cheapest_children(children, k);
    if sorted.len() > k {
        let rest = sorted.skip(k as int);
        assert(sorted =~= kept + rest);
        vstd::seq_lib::lemma_multiset_commutative(kept, rest);
        assert forall|x: ScoredPath<Node>, y: ScoredPath<Node>|
            #![trigger children.to_multiset().count(x), kept.contains(y)]
            kept.to_multiset().count(x) < children.to_multiset().count(x)
                && kept.contains(y) implies y.f_cost <= x.f_cost by {
            assert(rest.to_multiset().count(x) > 0);
            assert(rest.contains(x));
            let a = choose|a: int| 0 <= a < rest.len() && rest[a] == x;
            let b = choose|b: int| 0 <= b < kept.len() && kept[b] == y;
            assert(sorted[b] == y);
            assert(sorted[k + a] == x);
        }
    }
}

/// What one expansion leaves: the open set without the expanded entry, in its order,
/// followed by `min(k, |children|)` of the children, by non-decreasing cost, none of them
/// let in more often than it was given, and no child left out costing less than one let
/// in.
pub proof fn lemma_open_after_expansion<Node>(
    open: Seq<ScoredPath<Node>>,
    i: int,
    children: Seq<ScoredPath<Node>>,
    k: nat,
)
    requires
        0 <= i < open.len(),
    ensures
        open_after_expansion(open, i, children, k).len() == open.len() - 1 + if children.len()
            <= k {
            children.len() as int
        } else {
            k as int
        },
        open_after_expansion(open, i, children, k).take(open.len() - 1) == open.remove(i),
        forall|a: int, b: int|
            open.len() - 1 <= a <= b < open_after_expansion(open, i, children, k).len()
                ==> #[trigger] open_after_expansion(open, i, children, k)[a].f_cost
                <= #[trigger] open_after_expansion(open, i, children, k)[b].f_cost,
        forall|x: ScoredPath<Node>|
            #[trigger] open_after_expansion(open, i, children, k).skip(
                open.len() - 1,
            ).to_multiset().count(x) <= children.to_multiset().count(x),
        forall|x: ScoredPath<Node>, y: ScoredPath<Node>|
            #![trigger children.to_multiset().count(x), open_after_expansion(open, i, children, k).skip(open.len() - 1).contains(y)]
            open_after_expansion(open, i, children, k).skip(open.len() - 1).to_multiset().count(x)
                < children.to_multiset().count(x) && open_after_expansion(
                open,
                i,
                children,
                k,
            ).skip(open.len() - 1).contains(y) ==> y.f_cost <= x.f_cost,
{
    let after = open_after_expansion(open, i, children, k);
    let n = open.len() - 1;
    let rest = open.remove(i);
    let kept = cheapest_children(children, k);
    lemma_expansion_keeps_cheapest(children, k);
    assert(after == rest + kept);
    assert(after.take(n) =~= rest);
    assert(after.skip(n) =~= kept);
    assert forall|a: int, b: int| n <= a <= b < after.len() implies #[trigger] after[a].f_cost
        <= #[trigger] after[b].f_cost by {
        assert(after[a] == kept[a - n]);
        assert(after[b] == kept[b - n]);
    }
}

/// `after` is `open` with its entry at `i` taken out (the others in their order), followed by
/// `min(k, |children|)` of the children by non-decreasing cost, none let in more often
/// than it was given, and no child left out costing less than one let in.
pub open spec fn expansion_lets_in_cheapest<Node>(
    open: Seq<ScoredPath<Node>>,
    i: int,
    after: Seq<ScoredPath<Node>>,
    children: Seq<ScoredPath<Node>>,
    k: nat,
) -> bool {
    let n = open.len() - 1;
    let kept = after.skip(n);
    &&& after.len() == n + if children.len() <= k {
        children.len() as int
    } else {
        k as int
    }
    &&& after.take(n) == open.remove(i)
    &&& forall|a: int, b: int|
        n <= a <= b < after.len() ==> #[trigger] after[a].f_cost <= #[trigger] after[b].f_cost
    &&& forall|x: ScoredPath<Node>|
        #[trigger] kept.to_multiset().count(x) <= children.to_multiset().count(x)
    &&& forall|x: ScoredPath<Node>, y: ScoredPath<Node>|
        #![trigger children.to_multiset().count(x), kept.contains(y)]
        kept.to_multiset().count(x) < children.to_multiset().count(x) && kept.contains(y)
            ==> y.f_cost <= x.f_cost
}

/// The weight of an open set under a rank `h` of nodes: each entry weighs `(k + 1)^h`,
/// `h` being the rank of its node.
pub open spec fn open_weight<Node>(s: Seq<ScoredPath<Node>>, k: nat, h: spec_fn(Node) -> nat) -> int
    decreases s.len(),
{
    if s.len() == 0 {
        0
    } else {
        open_weight(s.drop_last(), k, h) + pow((k + 1) as int, h(s.last().path))
    }
}

/// How many children a run of expansions lets in: `min(k, |c|)` for each expansion's
/// children `c`.
pub open spec fn children_let_in<Node>(kids: Seq<Seq<ScoredPath<Node>>>, k: nat) -> int
    decreases kids.len(),
{
    if kids.len() == 0 {
        0
    } else {
        children_let_in(kids.drop_last(), k) + if kids.last().len() <= k {
            kids.last().len() as int
        } else {
            k as int
        }
    }
}

proof fn lemma_open_weight_nonnegative<Node>(s: Seq<ScoredPath<Node>>, k: nat, h: spec_fn(Node) -> nat)
    ensures
        open_weight(s, k, h) >= 0,
    decreases s.len(),
{
    if s.len() > 0 {
        lemma_open_weight_nonnegative(s.drop_last(), k, h);
        lemma_pow_positive((k + 1) as int, h(s.last().path));
    }
}

proof fn lemma_open_weight_concat<Node>(
    a: Seq<ScoredPath<Node>>,
    b: Seq<ScoredPath<Node>>,
    k: nat,
    h: spec_fn(Node) -> nat,
)
    ensures
        open_weight(a + b, k, h) == open_weight(a, k, h) + open_weight(b, k, h),
    decreases b.len(),
{
    if b.len() == 0 {
        assert(a + b =~= a);
    } else {
        lemma_open_weight_concat(a, b.drop_last(), k, h);
        assert((a + b).drop_last() =~= a + b.drop_last());
        assert((a + b).last() == b.last());
    }
}

proof fn lemma_open_weight_remove<Node>(s: Seq<ScoredPath<Node>>, i: int, k: nat, h: spec_fn(Node) -> nat)
    requires
        0 <= i < s.len(),
    ensures
        open_weight(s.remove(i), k, h) == open_weight(s, k, h) - pow((k + 1) as int, h(s[i].path)),
{
    let front = s.take(i);
    let back = s.skip(i + 1);
    assert(s =~= front + seq![s[i]] + back);
    assert(s.remove(i) =~= front + back);
    lemma_open_weight_concat(front + seq![s[i]], back, k, h);
    lemma_open_weight_concat(front, seq![s[i]], k, h);
    lemma_open_weight_concat(front, back, k, h);
    let one = seq![s[i]];
    assert(one.drop_last() =~= Seq::<ScoredPath<Node>>::empty());
    assert(one.last() == s[i]);
    assert(open_weight(one, k, h) == open_weight(one.drop_last(), k, h) + pow(
        (k + 1) as int,
        h(s[i].path),
    ));
}

proof fn lemma_open_weight_bounded<Node>(
    s: Seq<ScoredPath<Node>>,
    k: nat,
    h: spec_fn(Node) -> nat,
    r: nat,
)
    requires
        forall|j: int| 0 <= j < s.len() ==> h(#[trigger] s[j].path) <= r,
    ensures
        open_weight(s, k, h) <= s.len() * pow((k + 1) as int, r),
    decreases s.len(),
{
    if s.len() > 0 {
        let t = s.drop_last();
        assert forall|j: int| 0 <= j < t.len() implies h(#[trigger] t[j].path) <= r by {
            assert(t[j] == s[j]);
        }
        lemma_open_weight_bounded(t, k, h, r);
        lemma_pow_increases((k + 1) as nat, h(s.last().path), r);
        let b = pow((k + 1) as int, r);
        let n = s.len() as int;
        assert((n - 1) * b + b == n * b) by (nonlinear_arith);
    }
}

/// One expansion lowers the weight of the open set when every child ranks below the
/// expanded node, and it leaves `|open| - 1 + min(k, |children|)` entries.
pub proof fn lemma_expansion_lowers_weight<Node>(
    open: Seq<ScoredPath<Node>>,
    i: int,
    children: Seq<ScoredPath<Node>>,
    k: nat,
    h: spec_fn(Node) -> nat,
)
    requires
        k > 0,
        0 <= i < open.len(),
        forall|c: ScoredPath<Node>| #[trigger] children.contains(c) ==> h(c.path) < h(open[i].path),
    ensures
        open_weight(open_after_expansion(open, i, children, k), k, h) < open_weight(open, k, h),
        open_after_expansion(open, i, children, k).len() == open.len() - 1 + if children.len()
            <= k {
            children.len() as int
        } else {
            k as int
        },
{
    broadcast use vstd::seq_lib::group_to_multiset_ensures;
    let kept = cheapest_children(children, k);
    let top = h(open[i].path);
    lemma_expansion_keeps_cheapest(children, k);
    lemma_open_weight_remove(open, i, k, h);
    lemma_open_weight_concat(open.remove(i), kept, k, h);
    lemma_pow_positive((k + 1) as int, top);
    if kept.len() == 0 {
        assert(kept =~= Seq::<ScoredPath<Node>>::empty());
    } else {
        assert(kept.contains(kept[0]));
        assert(kept.to_multiset().count(kept[0]) > 0);
        assert(children.contains(kept[0]));
        let r = (top - 1) as nat;
        assert forall|j: int| 0 <= j < kept.len() implies h(#[trigger] kept[j].path) <= r by {
            assert(kept.contains(kept[j]));
            assert(kept.to_multiset().count(kept[j]) > 0);
            assert(children.contains(kept[j]));
        }
        lemma_open_weight_bounded(kept, k, h, r);
        let b = pow((k + 1) as int, r);
        lemma_pow_positive((k + 1) as int, r);
        lemma_pow_adds((k + 1) as int, 1, r);
        lemma_pow1((k + 1) as int);
        assert(r + 1 == top);
        let n = kept.len() as int;
        assert(n * b <= k * b) by (nonlinear_arith)
            requires
                n <= k,
                b > 0,
        ;
        assert((k + 1) * b == k * b + b) by (nonlinear_arith);
    }
}

/// Step `j` of a run of expansions: the open set `opens[j]` is not empty, and
/// `opens[j + 1]` is what expanding its first cheapest entry into the children `kids[j]`
/// leaves.
pub open spec fn expansion_step<Node>(
    opens: Seq<Seq<ScoredPath<Node>>>,
    kids: Seq<Seq<ScoredPath<Node>>>,
    k: nat,
    j: int,
) -> bool {
    &&& opens[j].len() > 0
    &&& opens[j + 1] == open_after_expansion(opens[j], min_cost_index(opens[j]), kids[j], k)
}

/// A run of expansions: the open sets `opens[0..]`, and between each two the children
/// `kids[j]` that expanding the first cheapest entry of `opens[j]` gave.
pub open spec fn expansion_run<Node>(
    opens: Seq<Seq<ScoredPath<Node>>>,
    kids: Seq<Seq<ScoredPath<Node>>>,
    k: nat,
) -> bool {
    &&& opens.len() == kids.len() + 1
    &&& forall|j: int| 0 <= j < kids.len() ==> #[trigger] expansion_step(opens, kids, k, j)
}

/// The entry that step `j` of a run expands: the first cheapest entry of `opens[j]`.
pub open spec fn expanded<Node>(opens: Seq<Seq<ScoredPath<Node>>>, j: int) -> ScoredPath<Node> {
    opens[j][min_cost_index(opens[j])]
}

/// In step `j` of a run, every child ranks below the entry it was expanded from.
pub open spec fn ranks_drop<Node>(
    opens: Seq<Seq<ScoredPath<Node>>>,
    kids: Seq<Seq<ScoredPath<Node>>>,
    h: spec_fn(Node) -> nat,
    j: int,
) -> bool {
    forall|c: ScoredPath<Node>| #[trigger] kids[j].contains(c) ==> h(c.path) < h(
        expanded(opens, j).path,
    )
}

/// A run of `next_path` calls ends: if every child that an expansion returns ranks below
/// the node it was expanded from (under some rank `h` of nodes, as a finite tree ranks
/// nodes by height), a run of expansions from the open set `opens[0]` takes no more
/// steps than that set weighs, and the results it gives number the entries it started
/// with plus the children it let in, minus those still open: from one start node, a run
/// that ends with an empty open set gives `1 + Σ min(k, |children|)` results.
pub proof fn lemma_expansions_terminate<Node>(
    k: nat,
    h: spec_fn(Node) -> nat,
    opens: Seq<Seq<ScoredPath<Node>>>,
    kids: Seq<Seq<ScoredPath<Node>>>,
)
    requires
        k > 0,
        expansion_run(opens, kids, k),
        forall|j: int| 0 <= j < kids.len() ==> #[trigger] ranks_drop(opens, kids, h, j),
    ensures
        kids.len() <= open_weight(opens[0], k, h),
        open_weight(opens.last(), k, h) + kids.len() <= open_weight(opens[0], k, h),
        opens.last().len() + kids.len() == opens[0].len() + children_let_in(kids, k),
{
    assert forall|j: int| 0 <= j < kids.len() implies #[trigger] ranked_step(opens, kids, k, h, j) by {
        assert(expansion_step(opens, kids, k, j));
        assert(ranks_drop(opens, kids, h, j));
    }
    lemma_ranked_run_terminates(k, h, opens, kids);
}

/// Along a run in which no child costs less than the entry it was expanded from (as
/// when step costs are not negative and the heuristic is consistent), the expanded
/// entries come by non-decreasing cost.
pub proof fn lemma_expansions_nondecreasing<Node>(
    k: nat,
    opens: Seq<Seq<ScoredPath<Node>>>,
    kids: Seq<Seq<ScoredPath<Node>>>,
)
    requires
        expansion_run(opens, kids, k),
        forall|j: int, c: ScoredPath<Node>|
            0 <= j < kids.len() && #[trigger] kids[j].contains(c) ==> expanded(opens, j).f_cost
                <= c.f_cost,
    ensures
        forall|j: int|
            0 <= j < kids.len() - 1 ==> #[trigger] expanded(opens, j).f_cost <= expanded(
                opens,
                j + 1,
            ).f_cost,
{
    broadcast use vstd::seq_lib::group_to_multiset_ensures;
    assert forall|j: int| 0 <= j < kids.len() - 1 implies #[trigger] expanded(opens, j).f_cost
        <= expanded(opens, j + 1).f_cost by {
        assert(expansion_step(opens, kids, k, j));
        assert(expansion_step(opens, kids, k, j + 1));
        let o = opens[j];
        let i = min_cost_index(o);
        lemma_min_cost_index(o);
        let next = opens[j + 1];
        lemma_min_cost_index(next);
        let x = next[min_cost_index(next)];
        let rest = o.remove(i);
        let kept = cheapest_children(kids[j], k);
        lemma_expansion_keeps_cheapest(kids[j], k);
        assert(next == rest + kept);
        let n = min_cost_index(next);
        if n < rest.len() {
            assert(x == rest[n]);
            if n < i {
                assert(rest[n] == o[n]);
            } else {
                assert(rest[n] == o[n + 1]);
            }
        } else {
            assert(x == kept[n - rest.len()]);
            assert(kept.contains(x));
            assert(kept.to_multiset().count(x) > 0);
            assert(kids[j].contains(x));
        }
    }
}

/// Step `j` of a run, with every child ranking below its parent under `h`.
spec fn ranked_step<Node>(
    opens: Seq<Seq<ScoredPath<Node>>>,
    kids: Seq<Seq<ScoredPath<Node>>>,
    k: nat,
    h: spec_fn(Node) -> nat,
    j: int,
) -> bool {
    let i = min_cost_index(opens[j]);
    &&& opens[j].len() > 0
    &&& opens[j + 1] == open_after_expansion(opens[j], i, kids[j], k)
    &&& forall|c: ScoredPath<Node>|
        #[trigger] kids[j].contains(c) ==> h(c.path) < h(opens[j][i].path)
}

proof fn lemma_ranked_run_terminates<Node>(
    k: nat,
    h: spec_fn(Node) -> nat,
    opens: Seq<Seq<ScoredPath<Node>>>,
    kids: Seq<Seq<ScoredPath<Node>>>,
)
    requires
        k > 0,
        opens.len() == kids.len() + 1,
        forall|j: int| 0 <= j < kids.len() ==> #[trigger] ranked_step(opens, kids, k, h, j),
    ensures
        kids.len() <= open_weight(opens[0], k, h),
        open_weight(opens.last(), k, h) + kids.len() <= open_weight(opens[0], k, h),
        opens.last().len() + kids.len() == opens[0].len() + children_let_in(kids, k),
    decreases kids.len(),
{
    lemma_open_weight_nonnegative(opens.last(), k, h);
    if kids.len() > 0 {
        let m = kids.len() - 1;
        let po = opens.drop_last();
        let pk = kids.drop_last();
        assert forall|j: int| 0 <= j < pk.len() implies #[trigger] ranked_step(
            po,
            pk,
            k,
            h,
            j,
        ) by {
            assert(ranked_step(opens, kids, k, h, j));
            assert(kids[j] == pk[j]);
            assert(po[j] == opens[j]);
            assert(po[j + 1] == opens[j + 1]);
        }
        lemma_ranked_run_terminates(k, h, po, pk);
        assert(ranked_step(opens, kids, k, h, m));
        assert(kids[m] == kids.last());
        lemma_min_cost_index(opens[m]);
        lemma_expansion_lowers_weight(opens[m], min_cost_index(opens[m]), kids[m], k, h);
        lemma_open_weight_nonnegative(opens[m + 1], k, h);
        assert(po.last() == opens[m]);
        assert(opens.last() == opens[m + 1]);
        assert(po[0] == opens[0]);
    }
}

/// A* source whose open set is ordered by the cost `f(n) = g(n) + h(n)` of its nodes.
///
/// `expand_children` gives the children of a node, each with its cost; of each expanded
/// node only the `sample_k` cheapest children enter the open set.
#[verifier::reject_recursive_types(Node)]
pub struct AStarSamplingSource<Node, F> where F: Fn(&Node) -> Vec<ScoredPath<Node>> {
    open_set: Vec<ScoredPath<Node>>,
    expand_children: F,
    sample_k: usize,
    history: Ghost<Seq<Seq<ScoredPath<Node>>>>,
    expansions: Ghost<Seq<Seq<ScoredPath<Node>>>>,
}

impl<Node, F> View for AStarSamplingSource<Node, F> where F: Fn(&Node) -> Vec<ScoredPath<Node>> {
    type V = Seq<ScoredPath<Node>>;

    /// The open set.
    closed spec fn view(&self) -> Seq<ScoredPath<Node>> {
        self.open_set@
    }
}

impl<Node, F> AStarSamplingSource<Node, F> where F: Fn(&Node) -> Vec<ScoredPath<Node>> {
    #[verifier::type_invariant]
    spec fn well_formed(&self) -> bool {
        &&& 0 < self.sample_k
        &&& forall|n: Node| call_requires(self.expand_children, (&n,))
    }

    /// The most children of one node that enter the open set.
    pub closed spec fn sample_k(&self) -> nat {
        self.sample_k as nat
    }

    /// The function that expands a node.
    pub closed spec fn expander(&self) -> F {
        self.expand_children
    }

    /// The open sets the source has had, from the first to the current one.
    pub closed spec fn history(&self) -> Seq<Seq<ScoredPath<Node>>> {
        self.history@
    }

    /// The children that each expansion so far gave, in order.
    pub closed spec fn expansions(&self) -> Seq<Seq<ScoredPath<Node>>> {
        self.expansions@
    }

    /// The source's past is a run of expansions that ends in its current open set.
    pub open spec fn run_so_far(&self) -> bool {
        &&& expansion_run(self.history(), self.expansions(), self.sample_k())
        &&& self.history().last() == self@
    }

    /// A source whose open set holds `start` alone, with cost `start_cost`.
    pub fn new(start: Node, start_cost: u64, expand_children: F, sample_k: usize) -> (s: Self)
        requires
            sample_k > 0,
            forall|n: Node| call_requires(expand_children, (&n,)),
        ensures
            s@ == seq![ScoredPath { path: start, f_cost: start_cost }],
            s.sample_k() == sample_k,
            s.expander() == expand_children,
            s.history() == seq![s@],
            s.expansions() == Seq::<Seq<ScoredPath<Node>>>::empty(),
            s.run_so_far(),
    {
        let mut open_set = Vec::new();
        open_set.push(ScoredPath { path: start, f_cost: start_cost });
        assert(open_set@ =~= seq![ScoredPath { path: start, f_cost: start_cost }]);
        let ghost first = open_set@;
        AStarSamplingSource {
            open_set,
            expand_children,
            sample_k,
            history: Ghost(Seq::empty().push(first)),
            expansions: Ghost(Seq::empty()),
        }
    }
}

impl<Node: Clone, F> PathSource for AStarSamplingSource<Node, F> where
    F: Fn(&Node) -> Vec<ScoredPath<Node>>,
 {
    type Item = ScoredPath<Node>;

    /// Takes the first cheapest node of the open set, expands it and lets its cheapest
    /// children into the open set.
    fn next_path(&mut self) -> (r: Option<ScoredPath<Node>>)
        ensures
            final(self).sample_k() == old(self).sample_k(),
            final(self).expander() == old(self).expander(),
            old(self)@.len() == 0 ==> {
                &&& r is None
                &&& final(self)@ == old(self)@
                &&& final(self).history() == old(self).history()
                &&& final(self).expansions() == old(self).expansions()
            },
            old(self).run_so_far() ==> final(self).run_so_far(),
            old(self).run_so_far() && old(self)@.len() > 0 ==> r == Some(
                expanded(final(self).history(), old(self).expansions().len() as int),
            ),
            old(self)@.len() > 0 ==> {
                let i = min_cost_index(old(self)@);
                &&& r == Some(old(self)@[i])
                &&& forall|j: int|
                    0 <= j < old(self)@.len() ==> old(self)@[i].f_cost <= #[trigger] old(
                        self,
                    )@[j].f_cost
                &&& exists|children: Vec<ScoredPath<Node>>|
                    call_ensures(old(self).expander(), (&old(self)@[i].path,), children)
                        && final(self)@ == open_after_expansion(
                        old(self)@,
                        i,
                        children@,
                        old(self).sample_k(),
                    ) && final(self).history() == old(self).history().push(final(self)@)
                        && final(self).expansions() == old(self).expansions().push(children@)
                        && expansion_lets_in_cheapest(
                        old(self)@,
                        i,
                        final(self)@,
                        children@,
                        old(self).sample_k(),
                    )
            },
    {
        proof {
            use_type_invariant(&*self);
        }
        if self.open_set.len() == 0 {
            return None;
        }
        let mut open: Vec<ScoredPath<Node>> = Vec::new();
        std::mem::swap(&mut open, &mut self.open_set);
        let i = min_cost_position(&open);
        proof {
            lemma_min_cost_index(open@);
        }
        let current = open.remove(i);
        let children = (self.expand_children)(&current.path);
        let ghost kids = children@;
        let mut best = sort_scored_by_cost(children);
        best.truncate(self.sample_k);
        open.append(&mut best);
        self.open_set = open;
        proof {
            assert(self.open_set@ =~= open_after_expansion(
                old(self)@,
                i as int,
                kids,
                self.sample_k as nat,
            ));
            lemma_open_after_expansion(old(self)@, i as int, kids, self.sample_k as nat);
        }
        let ghost opens = self.history@;
        let ghost exps = self.expansions@;
        self.history = Ghost(opens.push(self.open_set@));
        self.expansions = Ghost(exps.push(kids));
        proof {
            let k = self.sample_k as nat;
            let no = opens.push(self.open_set@);
            let ne = exps.push(kids);
            if expansion_run(opens, exps, k) && opens.last() == old(self)@ {
                assert forall|j: int| 0 <= j < ne.len() implies #[trigger] expansion_step(
                    no,
                    ne,
                    k,
                    j,
                ) by {
                    if j < exps.len() {
                        assert(expansion_step(opens, exps, k, j));
                        assert(no[j] == opens[j]);
                        assert(no[j + 1] == opens[j + 1]);
                        assert(ne[j] == exps[j]);
                    } else {
                        assert(no[j] == opens.last());
                        assert(ne[j] == kids);
                    }
                }
            }
        }
        Some(current)
    }
}

/// The termination law for a source as it stands: if every child its expansions gave
/// ranks below the node it was expanded from, the expansions so far, together with the
/// weight still open, do not outweigh the first open set, so the calls of `next_path`
/// that give a result are bounded by the first open set's weight; and the results so far
/// number the first entries plus the children let in, minus the entries still open.
pub proof fn lemma_source_run_terminates<Node, F>(
    src: &AStarSamplingSource<Node, F>,
    h: spec_fn(Node) -> nat,
) where F: Fn(&Node) -> Vec<ScoredPath<Node>>
    requires
        src.sample_k() > 0,
        src.run_so_far(),
        forall|j: int|
            0 <= j < src.expansions().len() ==> #[trigger] ranks_drop(
                src.history(),
                src.expansions(),
                h,
                j,
            ),
    ensures
        open_weight(src@, src.sample_k(), h) + src.expansions().len() <= open_weight(
            src.history()[0],
            src.sample_k(),
            h,
        ),
        src@.len() + src.expansions().len() == src.history()[0].len() + children_let_in(
            src.expansions(),
            src.sample_k(),
        ),
{
    lemma_expansions_terminate(src.sample_k(), h, src.history(), src.expansions());
}

/// The cost law for a source as it stands: if no child its expansions gave costs less
/// than the node it was expanded from, the nodes it has handed out come by
/// non-decreasing cost.
pub proof fn lemma_source_costs_nondecreasing<Node, F>(src: &AStarSamplingSource<Node, F>) where
    F: Fn(&Node) -> Vec<ScoredPath<Node>>,

    requires
        src.run_so_far(),
        forall|j: int, c: ScoredPath<Node>|
            0 <= j < src.expansions().len() && #[trigger] src.expansions()[j].contains(c)
                ==> expanded(src.history(), j).f_cost <= c.f_cost,
    ensures
        forall|j: int|
            0 <= j < src.expansions().len() - 1 ==> #[trigger] expanded(src.history(), j).f_cost
                <= expanded(src.history(), j + 1).f_cost,
{
    lemma_expansions_nondecreasing(src.sample_k(), src.history(), src.expansions());
}

} // verus!
