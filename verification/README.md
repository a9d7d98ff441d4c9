# kglite_visual

The logic of a viewer for kglite knowledge graphs (`.kgl` files), verified
with Verus: bounded answers, the type-level meta-graph, neighbourhood
expansion over the graph's adjacency (each node sized by a size estimate
the caller supplies) and its per-relationship previews, node-exact exports,
colouring by category, what an output captures of the shared view (the
revision and subset checks, the scope's source nodes and the relation
records among them), the resolution of saved-view members to source nodes,
visible-subset calculations
(degree and weak components) and the validation of their frozen results, the
binary wire protocol, the saved-query and saved-view stores, the rolling
recovery history, and the deterministic fixture layout.

Layout:

- `src/` — the verified library. Each module states its operations'
  contracts over spec functions; the public proof functions state the laws
  that relate several operations (a frame decodes to what was encoded, a
  saved view reads back, weak components ignore record order and direction,
  a frozen calculation passes validation, the spiral never repeats a cell).
  Reads of a loaded kglite graph go through `graph_reads.rs`; the reads of
  what the graph holds (its type index, parent types, node and edge
  counters, connectivity cache and relation records) are tied to names for
  those contents, and the output of the exporters whose text does not hang
on a hash map's walk is named in `export.rs`.
- `tests/` — tests of the library, several over real kglite graphs.
- `app/` — the command-line program around the library: loading a graph,
  file and directory I/O for the stores, JSON output, and the
  floating-point layout positions.
