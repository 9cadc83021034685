# relune-layout

Graph construction and the discrete policies of an entity-relationship
diagram layout engine, verified with Verus.

- `src/schema.rs`: the schema model (tables, views, enums) graphs are built from.
- `src/graph.rs`, `src/builder.rs`: the layout graph and its builder — filtering,
  foreign-key / enum / view-dependency edges, relationship counts, join-table
  detection and collapsing, grouping by schema or name prefix, node indices.
- `src/rank.rs`, `src/order.rs`: layer assignment and crossing reduction
  (barycenter, median, sifting, best-of combination), crossing counting.
- `src/focus.rs`: the subgraph within a given number of edges of one table.
- `src/clusters.rs`: connected components of a graph, groups kept together.
- `src/routing_order.rs`, `src/channel.rs`, `src/layout.rs`: integer policies of
  edge routing (routing order, parallel-edge lanes, channel candidate
  comparison), layout errors and glyph width classes.
- `src/diagram_names.rs`, `src/diagram_export.rs`: Mermaid, D2 and DOT export.
- `src/overlay.rs`: annotation overlays on nodes and edges.
- `src/text.rs`, `src/tally.rs`: character-sequence and counting helpers.
- `app/`: serialization copies of the library types, error messages and the
  floating-point text width estimate.
- `tests/`: tests of the library.
