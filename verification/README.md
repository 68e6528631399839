# tw_algorithms

Algorithms for the treewidth of a graph, verified with Verus.

- `src/graph`: graphs on the vertices `0..n`, as adjacency lists (`adjlist`) or as one bitset of
  neighbours per vertex (`bitset`), both viewed as a sequence of neighbour sets (`model`).
- `src/treewidth/width.rs`: the treewidth as the least width of an elimination order, and the
  widths of the greedy elimination heuristics.
- `src/treewidth/exact`: dynamic programming over vertex sets, recursion over balanced splits,
  recursion over separators, and branch and bound. `orders.rs` and `elimination.rs` prove that
  the first two compute the treewidth; `separation.rs` proves that the recursion over
  separators never reports less than the treewidth (it can report more: 4 on `INiBHQcAG`,
  whose treewidth is 3). Branch and bound is proved to report a width between the treewidth
  and the min-fill width.
- `src/treewidth/approx`: the separator-based 4-approximation, with max flow in
  `src/utils/max_flow.rs`.
- `src/treewidth/heuristic`: the greedy elimination heuristics.
- `src/utils`: bitsets, the graph6 and DIMACS formats, and lengths of time for the command line.
- `app/`: the command line (computing, approximating and bounding treewidth, benchmarks,
  timeouts in child processes, DIMACS conversion).
- `tests/`: tests of the library.
