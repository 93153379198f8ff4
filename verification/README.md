# contree

Optimal decision trees over continuous features, searched by branch and bound over
the split points of each feature, with an interval pruner that discards split points
which cannot beat the best tree found, a cache of searched nodes, and a
limited-discrepancy variant that improves its answer run after run.

Layout:

- `src/` is the library, verified with Verus:
  - `common`: search configuration, counters, the classification error of a leaf and
    the budget enumeration of the limited-discrepancy search;
  - `algorithms`: the interval pruner, the two searches (`ConTree`, `ConTreeLds`),
    their shared pieces (`search`) and the choice between them (`GenericConTree`);
  - `caching`: the cache of searched nodes;
  - `data`: samples stored column by column, their assembly from parsed rows, and the
    views of a node's samples that the search splits;
  - `reader`: the parsing of data lines.
- `app/` is the command-line program: argument handling, file reading, the parsing of
  floating-point values into order keys, and printing.
- `tests/` holds the tests.
