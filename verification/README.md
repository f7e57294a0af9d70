# bevy_instanced_text

The text model behind instanced text views, verified with Verus: edit-resilient
anchors, multi-cursor selections, line queries over text content, soft-wrap and
visible-window planning, style-run clipping, and the decisions behind pointer and
keyboard interaction (click counting, word and line selection, copy text, key
repeat).

## Layout

- `src/` — the verified library. Each module states its operations' contracts over
  spec models (`Seq<char>` for text, views for anchor sets and selection
  collections) and proves the laws that relate them:
  - `anchor`, `selection`, `state` — anchors, selections and the selection
    collection (sorting, merging, edits);
  - `text`, `expand`, `measure` — line queries, word and line expansion,
    intrinsic widths in character cells;
  - `wrap`, `runs`, `rows`, `layout`, `styled`, `glyph`, `faces` — layout
    planning: soft wrap, style runs, display rows, visible windows, styled
    lines, virtual text ranges, face selection;
  - `focus`, `key_repeat`, `rope_view` — interaction decisions, including
    positions and copied text over a `ropey::Rope`.
- `tests/` — tests of the library on concrete values.
- `app/` — host plumbing: clipboard backends (`arboard`), serde copies of
  settings, and the pixel- and time-based front ends that feed the library
  character positions, rows and clock readings.

## Line breaks

Every line query treats `'\n'` as the only line break. For `ropey::Rope` this
holds because ropey is built with `default-features = false`, which leaves out
its `cr_lines` and `unicode_lines` features; a build that turns either on
would break lines at `'\r'` or at Unicode separators too, and the rope
contracts in `rope_view` would no longer describe it. A test in
`tests/rope_positions.rs` pins the `'\n'`-only behaviour.

## What is not here

The rendering side of instanced text (Bevy systems and observers, GPU
pipelines, the glyph atlas, float geometry of shaped rows and blocks) needs a
game engine and floating point, so neither `src/` nor `app/` holds it. The
decisions it makes over integers are in `src/`: which rows are visible, where
a shaped row breaks (`wrap::wrap_row_break`), how block and wrapped rows are
numbered (`runs::block_row_spans`, `rows::number_rows`), which face a run
uses, and what a press or drag does to the selections.
