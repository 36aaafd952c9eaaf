# custom_was

Path sources, path sinks and weighted sampling for trie traversals, verified with Verus.

- `src/sinks`: the `PathSink` lifecycle and its sinks: `CountSink`, the best-`k` and
  threshold sinks for scored A* paths, and `WeightedSampleSink` (A-Res reservoir sampling).
- `src/sources`: the `PathSource` trait, breadth- and depth-first sources, and the A*
  source that keeps the cheapest children of each expanded node.
- `src/sampling_zipper.rs`: the branch bytes of a trie node's child mask.
- `src/cost_order.rs`: the stable sort by cost and the cheapest/costliest entry.
- `src/reservoir.rs`: bounded reservoirs that keep the lowest-ranked entries of a
  stream; the best-`k` sink and the weighted sample sink are both such reservoirs.

Costs and A-Res keys are integer order keys inside the library. `app/` holds what works
on floats (costs, weights, temperatures), the pathmap zipper and the MORK source, and
converts floats into keys.
