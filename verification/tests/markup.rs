use document_view::accessibility::Role;
use document_view::markup::{publish_markup, MarkupNode, PublishedMarkup};

fn element(text: &str, children: Vec<usize>) -> MarkupNode {
    MarkupNode { text: text.to_string(), children }
}

fn published(ordinal: usize, element: usize, role: Role, children: Vec<usize>) -> PublishedMarkup {
    PublishedMarkup { ordinal, element, role, children }
}

#[test]
fn markup_is_numbered_in_document_order_and_published_children_first() {
    let tree = vec![element("", vec![1, 3]), element("", vec![2]), element("x", vec![]), element("+", vec![])];
    let mut ordinal = 5;
    let mut out = Vec::new();
    let own = publish_markup(&tree, 0, &mut ordinal, &mut out);
    assert_eq!(own, 5);
    assert_eq!(ordinal, 9);
    assert_eq!(
        out,
        vec![
            published(7, 2, Role::Label, vec![]),
            published(6, 1, Role::Group, vec![7]),
            published(8, 3, Role::Label, vec![]),
            published(5, 0, Role::Group, vec![6, 8]),
        ]
    );
}

#[test]
fn a_second_formula_continues_the_numbering() {
    let tree = vec![element("y", vec![])];
    let mut ordinal = 0;
    let mut out = Vec::new();
    assert_eq!(publish_markup(&tree, 0, &mut ordinal, &mut out), 0);
    assert_eq!(publish_markup(&tree, 0, &mut ordinal, &mut out), 1);
    assert_eq!(ordinal, 2);
    assert_eq!(out.len(), 2);
}
