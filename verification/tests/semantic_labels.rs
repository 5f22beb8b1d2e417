use document_view::accessibility::{
    apply_html_labels, clickable, description_text, label_for_role, math_markup_role, node_targets, table_dimensions,
    Activation, LabelSource, Role, SemanticNode, TargetKind,
};
use document_view::footnote_labels::{mark_references, FootnoteReference};
use std::collections::HashMap;

fn node(id: u64, role: Role, label: &str, children: Vec<usize>) -> SemanticNode {
    SemanticNode {
        node_id: id,
        role,
        label: label.to_string(),
        children,
        resource_link: None,
        image_link: None,
        math_markup: None,
    }
}

#[test]
fn citing_runs_read_as_footnote_numbers() {
    let text = "Read this[^source] evidence[^b].";
    let first = text.find("[^source]").unwrap();
    let second = text.find("[^b]").unwrap();
    let refs = vec![
        FootnoteReference { start: first, end: first + 9, number: 1 },
        FootnoteReference { start: second, end: second + 4, number: 12 },
    ];
    assert_eq!(mark_references(text, &refs), "Read this [footnote 1] evidence [footnote 12].");
    assert_eq!(mark_references("café[^x]", &vec![FootnoteReference { start: 5, end: 9, number: 3 }]), "café [footnote 3]");
    assert_eq!(mark_references("plain", &vec![]), "plain");
}

#[test]
fn html_labels_refresh_aggregates_and_footnote_definitions() {
    // A list item holding a citing paragraph and a preserved HTML block.
    let mut nodes = vec![
        node(1, Role::ListItem, "parser description", vec![1, 2]),
        node(2, Role::Paragraph, "See[^a]", vec![]),
        node(3, Role::Group, "<custom-widget>x</custom-widget>", vec![]),
        node(4, Role::Paragraph, "Read this evidence.", vec![]),
        node(5, Role::Paragraph, "untouched", vec![]),
    ];
    let mut sources = HashMap::new();
    sources.insert(2, LabelSource::Text { text: "See[^a]".to_string(), references: vec![FootnoteReference { start: 3, end: 7, number: 1 }] });
    sources.insert(3, LabelSource::Preserved { source: "<custom-widget>x</custom-widget>".to_string(), readable: Some("Readable widget".to_string()) });
    sources.insert(5, LabelSource::Text { text: "untouched".to_string(), references: vec![] });
    let mut definitions = HashMap::new();
    definitions.insert(4, 1usize);
    let changed = apply_html_labels(&mut nodes, &sources, &definitions);
    assert_eq!(changed, vec![true, true, true, false, false]);
    assert_eq!(nodes[1].label, "See [footnote 1]");
    assert_eq!(nodes[2].label, "Readable widget");
    assert_eq!(nodes[0].label, "See [footnote 1]\nReadable widget");
    assert_eq!(nodes[3].label, "Footnote 1. Read this evidence.");
    assert_eq!(nodes[4].label, "untouched");
}

#[test]
fn preserved_html_without_a_readable_preview_reads_as_its_source() {
    let mut nodes = vec![node(1, Role::Paragraph, "old", vec![]), node(2, Role::Paragraph, "keep", vec![])];
    let mut sources = HashMap::new();
    sources.insert(1, LabelSource::Preserved { source: "<b>raw</b>".to_string(), readable: None });
    assert_eq!(apply_html_labels(&mut nodes, &sources, &HashMap::new()), vec![true, false]);
    assert_eq!(nodes[0].label, "<b>raw</b>");
    assert_eq!(nodes[1].label, "keep");
}

#[test]
fn what_lies_inside_preserved_html_is_not_visited() {
    // A quote holding preserved HTML, which itself holds a citing paragraph.
    let mut nodes = vec![
        node(1, Role::Blockquote, "parser description", vec![1]),
        node(2, Role::Group, "<aside>x</aside>", vec![2]),
        node(3, Role::Paragraph, "See[^a]", vec![]),
    ];
    let mut sources = HashMap::new();
    sources.insert(2, LabelSource::Preserved { source: "<aside>x</aside>".to_string(), readable: Some("Aside".to_string()) });
    sources.insert(3, LabelSource::Text { text: "See[^a]".to_string(), references: vec![FootnoteReference { start: 3, end: 7, number: 1 }] });
    let mut definitions = HashMap::new();
    definitions.insert(3, 2usize);
    let changed = apply_html_labels(&mut nodes, &sources, &definitions);
    assert_eq!(changed[0], true);
    assert_eq!(changed[1], true);
    assert_eq!(nodes[0].label, "Aside");
    assert_eq!(nodes[1].label, "Aside");
    assert_eq!(nodes[2].label, "See[^a]", "content below preserved HTML keeps its name");
}

#[test]
fn published_targets_follow_roles_and_links() {
    let mut task = node(1, Role::CheckBox, "task", vec![]);
    task.image_link = Some("#destination".to_string());
    let targets = node_targets(&task, &vec![7, 8]);
    assert_eq!(targets.len(), 4);
    assert_eq!(targets[0].1.activation, Some(Activation::ToggleTask));
    assert_eq!(targets[1].0, TargetKind::FootnoteControl(0));
    assert_eq!(targets[2].1.activation, Some(Activation::Footnote(8)));
    assert_eq!(targets[3].0, TargetKind::ImageLink);
    assert_eq!(targets[3].1.activation, Some(Activation::OpenImageLink));
    let math = node(2, Role::Math, "x", vec![]);
    let t = node_targets(&math, &vec![]);
    assert!(t[0].1.math_scroll && t[0].1.math_scroll_value);
    assert_eq!(t[0].1.activation, None);
    let mut link = node(3, Role::Paragraph, "guide", vec![]);
    link.resource_link = Some("guide.md".to_string());
    assert!(clickable(&link));
    assert!(!clickable(&math));
    assert_eq!(node_targets(&link, &vec![])[0].1.activation, Some(Activation::OpenResourceLink));
}

#[test]
fn tables_publish_rows_and_widest_columns() {
    let nodes = vec![
        node(1, Role::Table, "", vec![1, 3]),
        node(2, Role::Row, "", vec![2]),
        node(3, Role::Cell, "a", vec![]),
        node(4, Role::Row, "", vec![4, 5]),
        node(5, Role::Cell, "b", vec![]),
        node(6, Role::Cell, "c", vec![]),
    ];
    assert_eq!(table_dimensions(&nodes, 0), (2, 2));
    assert_eq!(table_dimensions(&nodes, 2), (0, 0));
}

#[test]
fn first_role_labels_descriptions_and_math_tokens() {
    let nodes = vec![node(1, Role::Heading, "Title", vec![]), node(2, Role::Note, "Note one", vec![]), node(3, Role::Note, "Note two", vec![])];
    assert_eq!(label_for_role(&nodes, &vec![0, 1, 2], Role::Note), Some("Note one".to_string()));
    assert_eq!(label_for_role(&nodes, &vec![0, 2], Role::Note), Some("Note two".to_string()));
    assert_eq!(label_for_role(&nodes, &vec![0], Role::Note), None);
    assert_eq!(description_text(&vec![None, Some("A".to_string()), None, Some("B".to_string())]), "A B");
    assert_eq!(description_text(&vec![None]), "");
    assert_eq!(math_markup_role(""), Role::Group);
    assert_eq!(math_markup_role("x"), Role::Label);
}
