# lattiton

The layout state of a split-pane widget: a binary tree whose leaves are panes
and whose inner nodes are splits along an axis, with collapsible sides,
resizable ratios, a maximized pane and pane drag-and-drop.

- `src/state.rs` — the tree (`State`), its abstract view (`StateView`), the
  well-formedness invariant (one tree, no node twice, child splits stored
  after their parents), and every operation on it with its contract and the
  proofs that it keeps the invariant.
- `src/widget.rs` — the messages of the widget, `update`, which applies them
  to the state, the decisions the widget takes from pointer input, and laws
  over sequences of messages.
- `src/handle.rs` — what a click on a split handle's arrows does, and which
  arrow glyphs are drawn.
- `app/` — the demo program and the widget itself on top of the `iced`
  toolkit: geometry, drawing and event plumbing, all floating point.

Ratios and pointer positions are kept in the state as the bit patterns of
their single-precision values, so that the state holds integers only.
