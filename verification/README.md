# ygg

The analysis core of Ygg, a spatial code viewer, written in Verus. Every
function in `src/` carries a contract that Verus proves; the tree-sitter
calls it depends on stand behind small trusted wrappers whose contracts
say only what tree-sitter's documentation and source show.

## Layout

- `src/state.rs` — line offsets, source files and how reading them can
  fail, fold states and the fold-switch press lifecycle.
- `src/tree.rs` — the plain syntax tree the library works on, and the
  tree-sitter parse that produces it.
- `src/cards.rs`, `src/language/` — cutting a parsed file into cards
  (Python classes, functions, methods, snippets; Rust items; Markdown
  sections), with the proof that the cards form a tree.
- `src/header/` — per-language header models (keyword, name,
  parameters, return type, decorators, docstring).
- `src/syntax.rs` — token kinds, the palette, and per-byte highlighting
  from tree-sitter's captures (the narrowest capture wins).
- `src/cardtext.rs`, `src/layout.rs` — the text a card shows, its
  dedent, colour runs, line counts, accents and rope spans.
- `src/filetree.rs`, `src/blind.rs` — directory listings, the browsed
  tree and its flattening into rows, rope groups and slat designs.
- `src/cli.rs`, `src/analysis.rs`, `src/language.rs` — mode resolution,
  language dispatch, and loading a file into cards.
- `app/` — the program around the library: argument parsing, disk I/O,
  and the floating-point layout and animation code. It prints a file's
  outline: the GPU renderer (wgpu pipelines, glyphon text, egui overlay)
  and the winit window and event loop are not part of this crate. Of the
  event loop, the fold-switch press decisions stand in the library
  (`FoldSwitches::on_left_button`).
- `tests/` — scenario tests for the library.
