use document_view::accessibility::{open_semantic_image_link, open_semantic_resource_link, preview_label, LiveNode};
use document_view::accessibility::{
    apply_bibliography_roles, apply_diagram_labels, apply_math_markup, authored_descriptions, mark_roots,
    next_revision, respond, Action, ActionData, ActionTarget, Activation, CitationInfo, DescribingSegment, Response,
    Role, SemanticNode,
};
use std::collections::HashMap;

fn node(id: u64, role: Role, label: &str, children: Vec<usize>) -> SemanticNode {
    SemanticNode {
        node_id: id,
        role,
        label: label.to_string(),
        children,
        resource_link: None,
        image_link: None,
        math_markup: None,
    }
}

#[test]
fn hidden_diagrams_publish_their_descriptions_as_figures() {
    let mut nodes = vec![node(1, Role::ListItem, "item", vec![1]), node(2, Role::Code, "graph TD", vec![])];
    let mut descriptions = HashMap::new();
    descriptions.insert(2, "A flow from A to B".to_string());
    apply_diagram_labels(&mut nodes, &descriptions);
    assert_eq!(nodes[1].role, Role::Figure);
    assert_eq!(nodes[1].label, "A flow from A to B");
    assert_eq!(nodes[0].role, Role::ListItem);
    assert_eq!(nodes[0].label, "item");
}

#[test]
fn only_math_nodes_take_markup() {
    let mut nodes = vec![node(1, Role::Math, "x", vec![]), node(2, Role::Paragraph, "p", vec![]), node(3, Role::Math, "y", vec![])];
    let mut markup = HashMap::new();
    markup.insert(1, 0usize);
    markup.insert(2, 5usize);
    apply_math_markup(&mut nodes, &markup);
    assert_eq!(nodes[0].math_markup, Some(0));
    assert_eq!(nodes[1].math_markup, None);
    assert_eq!(nodes[2].math_markup, None);
}

#[test]
fn bibliography_entries_keep_list_structure() {
    let mut nodes = vec![
        node(1, Role::List, "", vec![1, 3]),
        node(2, Role::ListItem, "", vec![2]),
        node(3, Role::Paragraph, "Vale, A.", vec![]),
        node(4, Role::ListItem, "plain", vec![]),
        node(5, Role::Paragraph, "Ellis, B.", vec![]),
    ];
    nodes[2].resource_link = Some("https://example.test".to_string());
    let mut info = HashMap::new();
    info.insert(3, CitationInfo { citation: true, list_depth: 1 });
    info.insert(5, CitationInfo { citation: true, list_depth: 0 });
    apply_bibliography_roles(&mut nodes, &info);
    assert_eq!(nodes[0].role, Role::List);
    assert_eq!(nodes[1].role, Role::DocBiblioEntry);
    assert_eq!(nodes[2].role, Role::Paragraph);
    assert_eq!(nodes[2].resource_link, None);
    assert_eq!(nodes[3].role, Role::ListItem);
    assert_eq!(nodes[4].role, Role::DocBiblioEntry);
}

#[test]
fn roots_become_notes_and_captions() {
    let mut nodes = vec![node(1, Role::Paragraph, "", vec![]), node(2, Role::Paragraph, "", vec![]), node(3, Role::Paragraph, "", vec![])];
    let mut notes = HashMap::new();
    notes.insert(1, ());
    notes.insert(2, ());
    let mut captions = HashMap::new();
    captions.insert(2, ());
    mark_roots(&mut nodes, &vec![0, 1, 2], &notes, &captions);
    assert_eq!(nodes[0].role, Role::Note);
    assert_eq!(nodes[1].role, Role::FigureCaption);
    assert_eq!(nodes[2].role, Role::Paragraph);
}

#[test]
fn margin_notes_and_gallery_captions_describe_their_targets() {
    let images = vec![10, 11, 12];
    let segments = vec![
        DescribingSegment { node_id: 1, margin_note_anchor: Some(7), figure_text: None },
        DescribingSegment { node_id: 2, margin_note_anchor: None, figure_text: Some((11, None)) },
        DescribingSegment { node_id: 3, margin_note_anchor: None, figure_text: Some((12, Some(10))) },
        DescribingSegment { node_id: 4, margin_note_anchor: Some(7), figure_text: None },
    ];
    let described = authored_descriptions(&segments, &images);
    assert_eq!(described[&7], vec![1, 4]);
    assert_eq!(described[&10], vec![3]);
    assert_eq!(described[&11], vec![2, 3]);
    assert_eq!(described[&12], vec![3]);
    assert_eq!(described.len(), 4);
}

#[test]
fn requests_reach_only_supported_targets() {
    let task = ActionTarget { node_id: 4, activation: Some(Activation::ToggleTask), math_scroll: false, math_scroll_value: false };
    let math = ActionTarget { node_id: 5, activation: None, math_scroll: true, math_scroll_value: true };
    assert_eq!(respond(None, Action::Click, ActionData::Empty), Response::Unhandled);
    assert_eq!(respond(Some(task), Action::Click, ActionData::Empty), Response::ToggleTask(4));
    assert_eq!(respond(Some(task), Action::ScrollIntoView, ActionData::Empty), Response::RevealBounds(4));
    assert_eq!(respond(Some(task), Action::ScrollLeft, ActionData::Empty), Response::Unhandled);
    assert_eq!(respond(Some(math), Action::Click, ActionData::Empty), Response::Unhandled);
    assert_eq!(respond(Some(math), Action::Increment, ActionData::Empty), Response::ScrollMath { node: 5, forward: true });
    assert_eq!(respond(Some(math), Action::ScrollLeft, ActionData::Empty), Response::ScrollMath { node: 5, forward: false });
    assert_eq!(respond(Some(math), Action::SetValue, ActionData::NumericValue), Response::SetMathScroll(5));
    assert_eq!(respond(Some(math), Action::SetValue, ActionData::ScrollOffset), Response::Nothing);
    assert_eq!(respond(Some(math), Action::Other, ActionData::Empty), Response::Unhandled);
    let footnote = ActionTarget { node_id: 6, activation: Some(Activation::Footnote(3)), math_scroll: false, math_scroll_value: false };
    assert_eq!(respond(Some(footnote), Action::Click, ActionData::Empty), Response::NavigateFootnote(3));
}

#[test]
fn revisions_are_never_zero() {
    assert_eq!(next_revision(0), 1);
    assert_eq!(next_revision(41), 42);
    assert_eq!(next_revision(u64::MAX), 1);
}

#[test]
fn activation_resolves_links_of_the_live_node() {
    let image = LiveNode::Image { link: Some("https://example.org/map".to_string()) };
    let card = LiveNode::Paragraph { resource: Some("notes/field.md".to_string()) };
    assert_eq!(open_semantic_image_link(Some(&image)), Some("https://example.org/map".to_string()));
    assert_eq!(open_semantic_image_link(Some(&card)), None);
    assert_eq!(open_semantic_image_link(Some(&LiveNode::Image { link: None })), None);
    assert_eq!(open_semantic_image_link(None), None);
    assert_eq!(open_semantic_resource_link(Some(&card)), Some("notes/field.md".to_string()));
    assert_eq!(open_semantic_resource_link(Some(&image)), None);
    assert_eq!(open_semantic_resource_link(Some(&LiveNode::Other)), None);
}

#[test]
fn a_preview_names_only_the_source_it_renders() {
    assert_eq!(
        preview_label("<b>Bold</b>", "<b>Bold</b>", "Bold"),
        Some("Bold".to_string())
    );
    assert_eq!(preview_label("<b>Bold</b>", "<i>Bold</i>", "Bold"), None);
}
