use document_view::code_panel::{hide_terminal_row, shell_language, strip_plan, terminal_after_line, StripPlan};
use document_view::text::same_text;
use document_view::model::{BlockKind, Segment, SegmentContext};

fn code_segment(node: u64, top: u64, cell: bool) -> Segment {
    Segment {
        node_id: node,
        top_level_node_id: top,
        start: 20,
        end: 24,
        context: SegmentContext {
            list_depth: 0,
            list_branch_start: false,
            has_list_marker: false,
            list_parent_label: None,
            outline_metrics: None,
            compact_outline: false,
            table_cell: if cell { Some((9, 0, 0)) } else { None },
            bibliography: None,
            margin_note_anchor: None,
        },
    }
}

const CODE: Option<BlockKind> = Some(BlockKind::CodeBlock { math: false });

#[test]
fn one_line_shell_commands_are_measured_for_a_strip() {
    let s = code_segment(1, 1, false);
    assert_eq!(strip_plan(&s, CODE, Some("sh"), None, "pwd\n"), StripPlan::Measure { value_bytes: 3 });
    assert_eq!(strip_plan(&s, CODE, Some("bash"), None, "git status --short\n"), StripPlan::Measure { value_bytes: 18 });
    assert_eq!(strip_plan(&s, CODE, Some("sh"), None, "pwd\r\n"), StripPlan::Measure { value_bytes: 3 });
    assert_eq!(strip_plan(&s, CODE, Some("sh"), None, "pwd\nls\n"), StripPlan::Pane);
    assert_eq!(strip_plan(&s, CODE, Some("sh"), None, "pwd\t-x\n"), StripPlan::Pane);
    assert_eq!(strip_plan(&s, CODE, Some("rust"), None, "let ready = true;\n"), StripPlan::Pane);
    assert_eq!(strip_plan(&s, CODE, None, None, "pwd\n"), StripPlan::Pane);
    assert_eq!(strip_plan(&s, CODE, Some("sh"), None, "\n"), StripPlan::Pane);
    assert_eq!(strip_plan(&s, CODE, Some("sh"), None, &"x".repeat(4097)), StripPlan::Pane);
    assert_eq!(strip_plan(&s, CODE, Some("sh"), None, &"x".repeat(4096)), StripPlan::Measure { value_bytes: 4096 });
    assert_eq!(strip_plan(&code_segment(2, 1, false), CODE, Some("sh"), None, "pwd\n"), StripPlan::Pane);
    assert_eq!(strip_plan(&code_segment(1, 1, true), CODE, Some("sh"), None, "pwd\n"), StripPlan::Pane);
    assert_eq!(strip_plan(&s, Some(BlockKind::Paragraph), Some("sh"), None, "pwd\n"), StripPlan::Pane);
}

#[test]
fn an_editing_lock_keeps_the_strip_origin() {
    let s = code_segment(1, 1, false);
    let leading = 44f32.to_bits();
    assert_eq!(strip_plan(&s, CODE, Some("sh"), Some((1, Some(leading))), "pwd pwd pwd\n"), StripPlan::Locked(Some(leading)));
    assert_eq!(strip_plan(&s, CODE, Some("sh"), Some((1, None)), "pwd\n"), StripPlan::Locked(None));
    assert_eq!(strip_plan(&s, CODE, Some("sh"), Some((7, None)), "pwd\n"), StripPlan::Measure { value_bytes: 3 });
}

#[test]
fn shell_languages_and_text_equality() {
    for language in ["sh", "shell", "bash", "zsh", "fish", "console"] {
        assert!(shell_language(language));
    }
    assert!(!shell_language("Sh"));
    assert!(!shell_language("yaml"));
    assert!(same_text("é", "é"));
    assert!(!same_text("e", "é"));
}

#[test]
fn terminal_rows_follow_the_final_line_feed() {
    let code = BlockKind::CodeBlock { math: false };
    assert!(hide_terminal_row(code, None, 1, "a\n"));
    assert!(!hide_terminal_row(code, Some(1), 1, "a\n"));
    assert!(hide_terminal_row(code, Some(2), 1, "a\n"));
    assert!(!hide_terminal_row(code, None, 1, "a"));
    assert!(!hide_terminal_row(BlockKind::CodeBlock { math: true }, None, 1, "a\n"));
    assert!(!hide_terminal_row(BlockKind::Paragraph, None, 1, "a\n"));
    assert_eq!(terminal_after_line(9, 10, true), Some(10));
    assert_eq!(terminal_after_line(8, 10, true), None);
    assert_eq!(terminal_after_line(9, 10, false), None);
    assert_eq!(terminal_after_line(0, 0, true), None);
}
