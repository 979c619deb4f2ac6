# chess_meta

A search toolkit for practical chess: a Monte Carlo tree search that plays against a
model of human opponents (Maia) while an engine (lc0) judges the positions.

- `src/` is the verified library. `search` holds the arena tree with its shape invariant,
  selection, backup of values and virtual losses; `coordinator` the decisions of the search
  loop (expanding a leaf, the tree view, batching); `position` the chess positions, on top
  of shakmaty; `engine` the reading of lc0's UCI output; `nn` the policy-head move table,
  board flipping and input history; `text` the character-level helpers they share.
- `app/` is the desktop program around it: the iced interface, configuration, the SQLite
  cache, the lc0 processes, ONNX Runtime inference and the floating-point parts of the
  search (PUCT, sampling, priors, move summaries).
- `tests/` exercises the library.
