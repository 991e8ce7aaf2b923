# rubydex

The graph model of a static analysis toolkit for Ruby, with the resolution of method
visibility (`private`, `protected`, `public`, `module_function`, `private_class_method`)
and a Graphviz DOT renderer, written in Verus with the behaviour of each operation stated
in its contract and proved.

Layout:

- `src/ids.rs`, `src/offset.rs`, `src/text.rs`, `src/seqs.rs`: identifiers (FNV-1a hashes),
  source offsets, text helpers and sequence lemmas.
- `src/model.rs`, `src/references.rs`, `src/signature.rs`: definitions, declarations,
  references and method signatures.
- `src/graph_indexes.rs`: the indexes of the graph (a two-way multimap, unresolved and
  applied visibility operations, generated `module_function` copies and their dependencies).
- `src/graph.rs`, `src/graph/visibility.rs`: the graph and the bookkeeping of visibility
  operations and generated copies, with what each update keeps, removes and requeues.
- `src/resolution.rs`, `src/resolution/order.rs`, `src/resolution/module_function.rs`:
  resolving visibility operations against the latest applicable definition, and
  `module_function` copies.
- `src/dot.rs`: the DOT output of a graph.
- `app/main.rs`: the command line.
- `tests/`: scenarios on concrete graphs.
