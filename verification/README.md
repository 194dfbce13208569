# includecost

Ranks C/C++ headers by the preprocessed code that would disappear if each one
were emptied. Every translation unit gets an include graph (guarded headers
are one node, unguarded headers one node per inclusion site), its dominator
tree is computed, and a header's exclusive cost is the weight of its dominator
subtree, summed over all TUs.

The library under `src/` is verified with Verus:

- `lexer`, `scan`, `bytes`, `text`: comment stripping and line splicing, the
  significant-byte weight, include directives and guard detection.
- `fs`, `compdb`, `json`, `resolve`: lexical paths, the compilation database
  and its JSON grammar, include search order.
- `project`, `tugraph`, `walk`: loading a project, building TU graphs, and the
  preprocessor's walk of a TU, written independently of the graph.
- `emitted`: the proof that the walk and the graph agree: what the walk emits
  with any one node emptied is the weight of what the root still reaches, so
  (with `removal`) a node's dominator-subtree weight is exactly the bytes that
  emptying it saves on re-preprocessing the TU.
- `csr`, `dominators`, `removal`: graphs, reverse postorder, the
  Cooper–Harvey–Kennedy iteration, and the proofs that a node's dominators are
  its tree ancestors and that its subtree weight is what deleting it removes.
- `analyze`, `closure`, `summary`, `combine`, `order`: per-TU costs,
  inclusive closures, aggregation and ranking; the totals and the report do
  not depend on the order in which TU tables are accumulated.
- `report`, `generate`: the text and JSON reports, and the synthetic project
  generator.

`app/main.rs` is the command-line front end: argument handling, disk access,
worker threads and the floating-point share columns of the reports. `tests/`
holds the test suites.
