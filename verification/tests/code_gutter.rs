use document_view::code_gutter::rail_label;
use document_view::code_gutter::{
    first_line_after, first_line_from, first_rail, line_count, numbers_lines, rail_digits, retain_width,
    CodeLine, LineSpan,
};
use document_view::model::BlockKind;

/// The rail numbers a code block's visual lines would carry: one per source
/// line when the block earns a rail, none otherwise. The line builder that
/// assigns numbers to visual lines is not part of this library, so the
/// numbers here are made up from the count; what the library decides, and
/// what this tests, is whether a block gets a rail and how many source lines
/// it counts.
fn rail_numbers(kind: BlockKind, code: &str) -> Vec<usize> {
    let count = line_count(code);
    if numbers_lines(kind) && rail_digits(count).is_some() {
        (1..=count).collect()
    } else {
        Vec::new()
    }
}

#[test]
fn numbering_preserves_blank_lines_and_excludes_short_commands_and_math() {
    // The code of each source: "```sh\ncargo test\n```\n", "```yaml\na\nb\nc\n```\n",
    // "```yaml\na\n\nc\nd\n```\n", "    a\n    b\n    c\n    d\n", "```math\na\nb\nc\nd\n```\n".
    let code = BlockKind::CodeBlock { math: false };
    let math = BlockKind::CodeBlock { math: true };
    for (kind, text, expected) in [
        (code, "cargo test\n", vec![]),
        (code, "a\nb\nc\n", vec![]),
        (code, "a\n\nc\nd\n", vec![1, 2, 3, 4]),
        (code, "a\nb\nc\nd\n", vec![1, 2, 3, 4]),
        (math, "a\nb\nc\nd\n", vec![]),
    ] {
        assert_eq!(rail_numbers(kind, text), expected, "{text}");
    }
}

#[test]
fn line_counts_follow_str_lines() {
    for text in ["", "a", "a\n", "a\n\n", "\n", "a\r\nb", "a\nb\n", "x\ry"] {
        assert_eq!(line_count(text), text.lines().count(), "{text:?}");
    }
}

#[test]
fn rail_digits_keep_one_spare_digit() {
    assert_eq!(rail_digits(3), None);
    assert_eq!(rail_digits(4), Some(2));
    assert_eq!(rail_digits(9), Some(2));
    assert_eq!(rail_digits(10), Some(3));
    assert_eq!(rail_digits(99), Some(3));
    assert_eq!(rail_digits(100), Some(4));
    assert!(!numbers_lines(BlockKind::Paragraph));
}

fn line(start: usize, end: usize, width: f32, strip: bool) -> LineSpan {
    LineSpan {
        start,
        end,
        code_line: Some(CodeLine { number: 1, width_bits: width.to_bits(), strip }),
    }
}

#[test]
fn retained_width_applies_only_inside_the_segment_and_rail_kind() {
    let mut lines = vec![
        line(0, 4, 10., false),
        line(5, 9, 10., false),
        line(10, 14, 10., true),
        line(15, 20, 10., false),
        LineSpan { start: 21, end: 22, code_line: None },
    ];
    retain_width(&mut lines, Some((5, 14)), Some((33f32.to_bits(), false)));
    let widths: Vec<f32> = lines
        .iter()
        .map(|l| l.code_line.map_or(-1., |c| f32::from_bits(c.width_bits)))
        .collect();
    assert_eq!(widths, vec![10., 33., 10., 10., -1.]);
    let before: Vec<u32> = lines.iter().map(|l| l.code_line.map_or(0, |c| c.width_bits)).collect();
    retain_width(&mut lines, None, Some((1, false)));
    retain_width(&mut lines, Some((0, 30)), None);
    let after: Vec<u32> = lines.iter().map(|l| l.code_line.map_or(0, |c| c.width_bits)).collect();
    assert_eq!(before, after);
}

#[test]
fn line_searches_find_segment_windows() {
    let lines = vec![line(0, 4, 1., false), line(5, 9, 1., false), line(5, 5, 1., true), line(10, 12, 1., false)];
    assert_eq!(first_line_from(&lines, 5), 1);
    assert_eq!(first_line_after(&lines, 5), 3);
    assert_eq!(first_line_from(&lines, 13), 4);
    assert_eq!(first_rail(&lines, Some((10, 12))).map(|c| c.strip), Some(false));
    assert!(first_rail(&lines, Some((13, 14))).is_none());
    assert!(first_rail(&lines, None).is_none());
}

#[test]
fn painted_rails_show_their_number_and_the_caret_line_shows_none() {
    let width = 40.0f32.to_bits();
    assert_eq!(rail_label(CodeLine { number: 12, width_bits: width, strip: false }), Some("12".to_string()));
    assert_eq!(rail_label(CodeLine { number: 0, width_bits: width, strip: false }), Some(String::new()));
    assert_eq!(rail_label(CodeLine { number: 3, width_bits: width, strip: true }), None);
    assert_eq!(rail_label(CodeLine { number: 3, width_bits: 0.0f32.to_bits(), strip: false }), None);
    assert_eq!(rail_label(CodeLine { number: 3, width_bits: (-4.0f32).to_bits(), strip: false }), None);
    assert_eq!(rail_label(CodeLine { number: 3, width_bits: f32::NAN.to_bits(), strip: false }), None);
    assert_eq!(rail_label(CodeLine { number: 3, width_bits: f32::INFINITY.to_bits(), strip: false }), Some("3".to_string()));
}
