use document_view::compact_tree::{
    excerpt_from_clusters, has_header, leading_container, parent_excerpt, prepare, starts_tree_caption,
    tree_caption, ContainerPanel,
};
use document_view::model::{BlockKind, SegmentContext};
use unicode_segmentation::UnicodeSegmentation;

fn outline(depth: usize, inset: usize) -> SegmentContext {
    SegmentContext {
        list_depth: depth,
        list_branch_start: true,
        has_list_marker: true,
        list_parent_label: Some(7),
        outline_metrics: Some((depth, inset)),
        compact_outline: false,
        table_cell: None,
        bibliography: None,
        margin_note_anchor: None,
    }
}

#[test]
fn parent_excerpts_are_bounded_and_do_not_split_combining_clusters() {
    assert_eq!(parent_excerpt("A complete parent."), "A complete parent.");
    assert_eq!(parent_excerpt("A\nparent"), "A parent");
    let source = "cafe\u{301} ".repeat(500);
    let excerpt = parent_excerpt(&source);
    assert!(excerpt.len() <= 1027);
    assert!(excerpt.ends_with('…'));
    assert!(
        source
            .grapheme_indices(true)
            .any(|(offset, _)| offset == excerpt.len() - '…'.len_utf8())
    );
    assert_eq!(
        parent_excerpt(&format!("a{}", "\u{301}".repeat(100_000))),
        "…"
    );
}

#[test]
fn excerpt_keeps_ninety_six_clusters_and_blanks_carriage_returns() {
    let source = "x".repeat(200);
    let excerpt = parent_excerpt(&source);
    assert_eq!(excerpt, format!("{}…", "x".repeat(96)));
    assert_eq!(parent_excerpt("a\r\nb"), "a  b");
    assert_eq!(parent_excerpt(""), "");
}

#[test]
fn excerpt_of_a_long_ascii_paragraph_stops_at_the_byte_budget() {
    // 1024 bytes of two-byte characters: the cut leaves no partial cluster.
    let source = "é".repeat(600);
    let excerpt = parent_excerpt(&source);
    assert_eq!(excerpt, format!("{}…", "é".repeat(96)));
}

#[test]
fn tree_pressure_needs_depth_beyond_three() {
    let deep = outline(4, 96);
    assert!(prepare(&deep, true).compact_outline);
    assert!(!prepare(&deep, false).compact_outline);
    let shallow = outline(3, 64);
    assert!(!prepare(&shallow, true).compact_outline);
    assert!(!deep.compact_outline, "canonical context stays unchanged");
}

#[test]
fn headers_need_a_marked_compact_branch_start_with_a_parent() {
    let deep = prepare(&outline(4, 96), true);
    assert!(has_header(&deep));
    let mut later = deep;
    later.list_branch_start = false;
    assert!(!has_header(&later));
    let mut orphan = deep;
    orphan.list_parent_label = None;
    assert!(!has_header(&orphan));
    assert!(!has_header(&outline(4, 96)));
    assert!(starts_tree_caption(true, &deep, 10, 10));
    assert!(!starts_tree_caption(true, &deep, 11, 10));
    assert!(!starts_tree_caption(false, &deep, 10, 10));
}

#[test]
fn tree_captions_name_the_level_and_the_parent() {
    assert_eq!(tree_caption(4, "Instrument readings", None), "Level 4 · Within Instrument readings");
    assert_eq!(tree_caption(12, "  \n", Some(BlockKind::CodeBlock { math: false })), "Level 12 · Within code block");
    assert_eq!(tree_caption(3, "", Some(BlockKind::Image)), "Level 3 · Within image");
    assert_eq!(tree_caption(3, "", Some(BlockKind::Heading)), "Level 3 · Within heading");
    assert_eq!(tree_caption(3, "", Some(BlockKind::Paragraph)), "Level 3 · Within an untitled item");
}

#[test]
fn captions_follow_quote_alert_and_table_panels_of_the_leading_item() {
    assert_eq!(leading_container(Some(BlockKind::BlockQuote), true, true, true), Some(ContainerPanel::Quote));
    assert_eq!(leading_container(Some(BlockKind::Alert), true, true, true), Some(ContainerPanel::Alert));
    assert_eq!(leading_container(Some(BlockKind::Table), true, true, true), Some(ContainerPanel::Table));
    assert_eq!(leading_container(Some(BlockKind::List), true, true, true), None);
    assert_eq!(leading_container(Some(BlockKind::Table), false, true, true), None);
    assert_eq!(leading_container(Some(BlockKind::Table), true, false, true), None);
    assert_eq!(leading_container(Some(BlockKind::Table), true, true, false), None);
    assert_eq!(leading_container(None, true, true, true), None);
}

/// The caller's pressure test: the canvas beside the outline's inset is
/// narrower than 320 px.
fn pressured(context: &SegmentContext, canvas: f32) -> bool {
    context.outline_metrics.is_some_and(|(_, inset)| canvas - (inset as f32) < 320.)
}

#[test]
fn tree_pressure_boundaries_keep_shallow_lists_in_normal_flow() {
    let last = outline(4, 96);
    assert_eq!(last.outline_metrics, Some((4, 96)));
    assert!(!prepare(&last, pressured(&last, 416.)).compact_outline);
    assert!(prepare(&last, pressured(&last, 415.)).compact_outline);
    for (depth, inset) in [(1, 32), (2, 64), (3, 64)] {
        let shallow = outline(depth, inset);
        assert!(!prepare(&shallow, pressured(&shallow, 240.)).compact_outline);
    }
}

#[test]
fn excerpts_keep_whole_clusters_and_drop_the_one_a_cut_may_split() {
    let short = vec!["ab".to_string(), "\n".to_string(), "c".to_string()];
    assert_eq!(excerpt_from_clusters("ab\nc", &short), "ab c");
    // A 1030-byte source is cut at 1024 bytes: the last cluster of the prefix
    // may continue past the cut, so it is left out.
    let source = "x".repeat(1030);
    let clusters = vec!["x".repeat(1000), "x".repeat(24)];
    assert_eq!(excerpt_from_clusters(&source, &clusters), format!("{}…", "x".repeat(1000)));
    let many = (0..100).map(|_| "y".to_string()).collect::<Vec<_>>();
    assert_eq!(excerpt_from_clusters(&"y".repeat(100), &many), format!("{}…", "y".repeat(96)));
}
