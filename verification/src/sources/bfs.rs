//! Breadth-first path source.
use vstd::prelude::*;
use std::collections::VecDeque;

use super::PathSource;

verus! {

/// Hands out its nodes first in, first out.
pub struct BFSSource<N> {
    queue: VecDeque<N>,
}

impl<N> View for BFSSource<N> {
    type V = Seq<N>;

    /// The queued nodes, front first.
    closed spec fn view(&self) -> Seq<N> {
        self.queue@
    }
}

impl<N> BFSSource<N> {
    /// A source whose queue holds `root` alone.
    pub fn new(root: N) -> (s: Self)
        ensures
            s@ == seq![root],
    {
        let mut queue = VecDeque::new();
        queue.push_back(root);
        assert(queue@ =~= seq![root]);
        BFSSource { queue }
    }
}

impl<N: Clone> PathSource for BFSSource<N> {
    type Item = N;

    /// Takes the node at the front of the queue.
    fn next_path(&mut self) -> (r: Option<N>)
        ensures
            old(self)@.len() == 0 ==> r is None && final(self)@ == old(self)@,
            old(self)@.len() > 0 ==> r == Some(old(self)@[0]) && final(self)@
                == old(self)@.drop_first(),
    {
        let r = self.queue.pop_front();
        proof {
            if old(self)@.len() > 0 {
                assert(old(self)@.subrange(1, old(self)@.len() as int) =~= old(self)@.drop_first());
            }
        }
        r
    }
}

} // verus!
