# egui_ailanthus

A decorated tree view widget for egui, with its state and input handling
proved correct in Verus.

- `src/` is the verified library: the between-frames state
  (`TreeViewState`), the build pass that records visible rows and resolves
  pending reveals (`TreeBuilder`), the input pass that turns a frame's
  click, keys and reveal into state changes and `Action`s (`input`), the
  built-in icon set and icon choice by file extension (`icon`), the
  playground's file model with its move and remove edits and "expand all"
  (`demo`), what one frame and a run of frames report and keep (`frame`),
  and properties that span several operations (`laws`).
- `app/` is the egui side: the `TreeView` widget that paints rows, hit-tests
  the pointer and reads keys before handing them to the library, the painted
  icons, a serde form of the durable state, and the playground UI.
- `tests/` runs the library on concrete trees.

Run `verus` on `src/lib.rs` to check the proofs.
