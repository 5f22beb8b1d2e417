# document_view

The layout, accessibility and diagnostics decisions of a rich document view,
written in Verus, over plain values (node ids, byte offsets, character
sequences and `f32` values held as bit patterns). Verus proves the contract of
every function in `src/` except two trusted items, whose contracts it takes on
trust: the wrapper around grapheme segmentation described below, and the
specification that `src/text.rs` gives `String::push` (it appends one
character).

- `src/` — the verified library, one module per concern: card breaks and
  group spacing (`arrangement`), adaptive-plan decisions (`planning`),
  segment-to-line routing (`segment_lines`), component geometry indexes
  (`components`), code rails and command strips (`code_gutter`,
  `code_panel`), the compact outline tree (`compact_tree`), accessibility
  semantics and publication (`accessibility`, `footnote_labels`,
  `markup`, `publication`), measurement counters and report counting (`diagnostics`,
  `placement`, `trace_report`), and shared text specifications (`text`,
  `segmentation`, `model`).
- `tests/` — executable tests of the library.
- `app/` — the unverified layer around it: thread-local counters, the
  serialisable diagnostics report, and the floating-point geometry that the
  library's decisions feed.

Grapheme clusters come from the `unicode-segmentation` crate, through the
trusted wrapper `graphemes_of` in `src/segmentation.rs`; which boundaries it
chooses is named (`extended_graphemes`), not proved.
