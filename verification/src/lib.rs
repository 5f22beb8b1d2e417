//! Verified layout, accessibility and diagnostics decisions of a rich
//! document view: everything that is computed from plain values.
pub mod accessibility;
pub mod arrangement;
pub mod code_gutter;
pub mod code_panel;
pub mod compact_tree;
pub mod components;
pub mod diagnostics;
pub mod footnote_labels;
pub mod markup;
pub mod model;
pub mod placement;
pub mod planning;
pub mod publication;
pub mod segment_lines;
pub mod segmentation;
pub mod text;
pub mod trace_report;
