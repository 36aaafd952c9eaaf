//! Depth-first path source.
use vstd::prelude::*;

use super::PathSource;

verus! {

/// Hands out its nodes last in, first out.
pub struct DFSSource<N> {
    stack: Vec<N>,
}

impl<N> View for DFSSource<N> {
    type V = Seq<N>;

    /// The stacked nodes, bottom first.
    closed spec fn view(&self) -> Seq<N> {
        self.stack@
    }
}

impl<N> DFSSource<N> {
    /// A source whose stack holds `root` alone.
    pub fn new(root: N) -> (s: Self)
        ensures
            s@ == seq![root],
    {
        let mut stack = Vec::new();
        stack.push(root);
        assert(stack@ =~= seq![root]);
        DFSSource { stack }
    }
}

impl<N: Clone> PathSource for DFSSource<N> {
    type Item = N;

    /// Takes the node on top of the stack.
    fn next_path(&mut self) -> (r: Option<N>)
        ensures
            old(self)@.len() == 0 ==> r is None && final(self)@ == old(self)@,
            old(self)@.len() > 0 ==> r == Some(old(self)@.last()) && final(self)@
                == old(self)@.drop_last(),
    {
        self.stack.pop()
    }
}

} // verus!
