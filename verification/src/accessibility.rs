//! Canonical accessibility semantics, independent of the virtual paint window:
//! the roles, labels and actions that the semantic tree publishes.
use crate::footnote_labels::{mark_references, marked, references_ordered, FootnoteReference};
use crate::model::NodeId;
use crate::text::{decimal, push_decimal, push_str, same_text};
use std::collections::HashMap;
use vstd::prelude::*;
use vstd::std_specs::hash::*;

verus! {

broadcast use group_hash_axioms;

/// Accessibility role of a semantic node.
#[derive(Clone, Copy, Debug, PartialEq, Eq, Structural)]
pub enum Role {
    Document,
    Paragraph,
    Heading,
    List,
    ListItem,
    CheckBox,
    Table,
    Row,
    Cell,
    ColumnHeader,
    Blockquote,
    Alert,
    Note,
    Figure,
    FigureCaption,
    Image,
    DocBiblioEntry,
    Math,
    Link,
    Code,
    Group,
    Label,
    TextRun,
    Other,
}

/// One node of the semantic tree. Children are indices of later nodes of the
/// same tree, so a tree is stored in preorder.
pub struct SemanticNode {
    pub node_id: NodeId,
    pub role: Role,
    pub label: String,
    pub children: Vec<usize>,
    pub resource_link: Option<String>,
    pub image_link: Option<String>,
    /// Root of the node's MathML markup in the markup tree, if any.
    pub math_markup: Option<usize>,
}

/// Every child of a node comes after it in the tree.
pub open spec fn well_formed(nodes: Seq<SemanticNode>) -> bool {
    forall|i: int, k: int|
        0 <= i < nodes.len() && 0 <= k < nodes[i].children@.len() ==> i < #[trigger] nodes[i].children@[k]
            < nodes.len()
}

/// Children never change in a pass that only relabels.
pub open spec fn same_shape(a: Seq<SemanticNode>, b: Seq<SemanticNode>) -> bool {
    &&& a.len() == b.len()
    &&& forall|i: int|
        0 <= i < a.len() ==> (#[trigger] b[i]).node_id == a[i].node_id && b[i].children@ == a[i].children@
}

/// A diagram whose source is hidden publishes as a figure named by its description.
pub open spec fn diagram_labelled(before: SemanticNode, after: SemanticNode, descriptions: Map<NodeId, String>) -> bool {
    &&& after.node_id == before.node_id
    &&& after.children@ == before.children@
    &&& after.resource_link == before.resource_link
    &&& after.image_link == before.image_link
    &&& after.math_markup == before.math_markup
    &&& if descriptions.contains_key(before.node_id) {
        after.role == Role::Figure && after.label@ == descriptions[before.node_id]@
    } else {
        after.role == before.role && after.label@ == before.label@
    }
}

/// Names hidden-source diagrams by their descriptions, everywhere in the tree.
pub fn apply_diagram_labels(nodes: &mut Vec<SemanticNode>, descriptions: &HashMap<NodeId, String>)
    ensures
        final(nodes)@.len() == old(nodes)@.len(),
        forall|i: int|
            0 <= i < old(nodes)@.len() ==> diagram_labelled(old(nodes)@[i], #[trigger] final(nodes)@[i], descriptions@),
{
    let ghost before = nodes@;
    let mut i: usize = 0;
    while i < nodes.len()
        invariant
            nodes@.len() == before.len(),
            i <= nodes@.len(),
            forall|j: int| 0 <= j < i ==> diagram_labelled(before[j], #[trigger] nodes@[j], descriptions@),
            forall|j: int| i <= j < nodes@.len() ==> #[trigger] nodes@[j] == before[j],
        decreases nodes@.len() - i,
    {
        let id = nodes[i].node_id;
        if let Some(description) = descriptions.get(&id) {
            let label = description.clone();
            nodes[i].role = Role::Figure;
            nodes[i].label = label;
        }
        i += 1;
    }
}

/// MathML markup joins a math node; other nodes keep theirs.
pub open spec fn markup_applied(before: SemanticNode, after: SemanticNode, markup: Map<NodeId, usize>) -> bool {
    &&& after.node_id == before.node_id
    &&& after.role == before.role
    &&& after.label@ == before.label@
    &&& after.children@ == before.children@
    &&& after.resource_link == before.resource_link
    &&& after.image_link == before.image_link
    &&& after.math_markup == if before.role == Role::Math {
        if markup.contains_key(before.node_id) {
            Some(markup[before.node_id])
        } else {
            None
        }
    } else {
        before.math_markup
    }
}

/// Attaches each math node's rendered MathML markup.
pub fn apply_math_markup(nodes: &mut Vec<SemanticNode>, markup: &HashMap<NodeId, usize>)
    ensures
        final(nodes)@.len() == old(nodes)@.len(),
        forall|i: int|
            0 <= i < old(nodes)@.len() ==> markup_applied(old(nodes)@[i], #[trigger] final(nodes)@[i], markup@),
{
    let ghost before = nodes@;
    let mut i: usize = 0;
    while i < nodes.len()
        invariant
            nodes@.len() == before.len(),
            i <= nodes@.len(),
            forall|j: int| 0 <= j < i ==> markup_applied(before[j], #[trigger] nodes@[j], markup@),
            forall|j: int| i <= j < nodes@.len() ==> #[trigger] nodes@[j] == before[j],
        decreases nodes@.len() - i,
    {
        if nodes[i].role == Role::Math {
            let id = nodes[i].node_id;
            let found = match markup.get(&id) {
                Some(m) => Some(*m),
                None => None,
            };
            nodes[i].math_markup = found;
        }
        i += 1;
    }
}

/// What the bibliography pass reads of a node's segment: whether it is a
/// citation, and its list depth.
#[derive(Clone, Copy, Debug)]
pub struct CitationInfo {
    pub citation: bool,
    pub list_depth: usize,
}

pub open spec fn is_citation(info: Map<NodeId, CitationInfo>, id: NodeId) -> bool {
    info.contains_key(id) && info[id].citation
}

/// A citation inside a list reads as a paragraph of its entry, and the entry
/// (the list item owning a citation, or a citation outside any list) is a
/// bibliography entry. A link inside a citation is not an entry-wide action.
pub open spec fn bibliography_role(node: SemanticNode, nodes: Seq<SemanticNode>, info: Map<NodeId, CitationInfo>) -> Role {
    let own = is_citation(info, node.node_id);
    let first = if own && info[node.node_id].list_depth > 0 {
        Role::Paragraph
    } else {
        node.role
    };
    if (first == Role::ListItem && exists|k: int|
        0 <= k < node.children@.len() && is_citation(info, nodes[#[trigger] node.children@[k] as int].node_id))
        || (own && info[node.node_id].list_depth == 0) {
        Role::DocBiblioEntry
    } else {
        first
    }
}

pub open spec fn bibliography_applied(
    before: SemanticNode,
    after: SemanticNode,
    nodes: Seq<SemanticNode>,
    info: Map<NodeId, CitationInfo>,
) -> bool {
    &&& after.node_id == before.node_id
    &&& after.label@ == before.label@
    &&& after.children@ == before.children@
    &&& after.image_link == before.image_link
    &&& after.math_markup == before.math_markup
    &&& after.role == bibliography_role(before, nodes, info)
    &&& after.resource_link == if is_citation(info, before.node_id) {
        None
    } else {
        before.resource_link
    }
}

/// A citation loses any whole-entry link action, whatever its list depth;
/// a citation outside a list is a bibliography entry; a citation inside a
/// list reads as a paragraph or an entry, never as a list item. Nodes that
/// are not citations keep their links.
pub proof fn lemma_citations_drop_links(
    before: SemanticNode,
    after: SemanticNode,
    nodes: Seq<SemanticNode>,
    info: Map<NodeId, CitationInfo>,
)
    requires
        bibliography_applied(before, after, nodes, info),
    ensures
        info.contains_key(before.node_id) && info[before.node_id].citation ==> {
            &&& after.resource_link is None
            &&& info[before.node_id].list_depth == 0 ==> after.role == Role::DocBiblioEntry
            &&& info[before.node_id].list_depth > 0 ==> after.role != Role::ListItem
        },
        !(info.contains_key(before.node_id) && info[before.node_id].citation) ==> after.resource_link
            == before.resource_link,
{
}

/// Keeps a numbered or bulleted bibliography's list structure while naming
/// its entries.
pub fn apply_bibliography_roles(nodes: &mut Vec<SemanticNode>, info: &HashMap<NodeId, CitationInfo>)
    requires
        well_formed(old(nodes)@),
    ensures
        final(nodes)@.len() == old(nodes)@.len(),
        forall|i: int|
            0 <= i < old(nodes)@.len() ==> bibliography_applied(
                old(nodes)@[i],
                #[trigger] final(nodes)@[i],
                old(nodes)@,
                info@,
            ),
        forall|i: int|
            0 <= i < old(nodes)@.len() && info@.contains_key(old(nodes)@[i].node_id)
                && info@[old(nodes)@[i].node_id].citation ==> {
                &&& (#[trigger] final(nodes)@[i]).resource_link is None
                &&& info@[old(nodes)@[i].node_id].list_depth == 0 ==> final(nodes)@[i].role == Role::DocBiblioEntry
                &&& info@[old(nodes)@[i].node_id].list_depth > 0 ==> final(nodes)@[i].role != Role::ListItem
            },
        forall|i: int|
            0 <= i < old(nodes)@.len() && !(info@.contains_key(old(nodes)@[i].node_id)
                && info@[old(nodes)@[i].node_id].citation) ==> (#[trigger] final(nodes)@[i]).resource_link
                == old(nodes)@[i].resource_link,
{
    let ghost before = nodes@;
    let mut i: usize = 0;
    while i < nodes.len()
        invariant
            nodes@.len() == before.len(),
            well_formed(before),
            i <= nodes@.len(),
            forall|j: int| 0 <= j < i ==> bibliography_applied(before[j], #[trigger] nodes@[j], before, info@),
            forall|j: int| i <= j < nodes@.len() ==> #[trigger] nodes@[j] == before[j],
        decreases nodes@.len() - i,
    {
        let id = nodes[i].node_id;
        let (own, depth) = match info.get(&id) {
            Some(c) => (c.citation, c.list_depth),
            None => (false, 0),
        };
        if own {
            nodes[i].resource_link = None;
            if depth > 0 {
                nodes[i].role = Role::Paragraph;
            }
        }
        let mut cited_child = false;
        if nodes[i].role == Role::ListItem {
            let mut k: usize = 0;
            while k < nodes[i].children.len()
                invariant
                    i < nodes@.len(),
                    nodes@.len() == before.len(),
                    well_formed(before),
                    nodes@[i as int].children@ == before[i as int].children@,
                    forall|j: int| i < j < nodes@.len() ==> #[trigger] nodes@[j] == before[j],
                    k <= nodes@[i as int].children@.len(),
                    cited_child == exists|m: int|
                        0 <= m < k && is_citation(info@, before[#[trigger] before[i as int].children@[m] as int].node_id),
                decreases nodes@[i as int].children@.len() - k,
            {
                let c = nodes[i].children[k];
                proof {
                    assert(i < before[i as int].children@[k as int]);
                }
                let child_id = nodes[c].node_id;
                let cited = match info.get(&child_id) {
                    Some(ci) => ci.citation,
                    None => false,
                };
                if cited {
                    cited_child = true;
                }
                k += 1;
            }
        }
        if cited_child || (own && depth == 0) {
            nodes[i].role = Role::DocBiblioEntry;
        }
        i += 1;
    }
}

/// Whether an action target accepts an accessibility action.
#[derive(Clone, Copy, Debug, PartialEq, Eq, Structural)]
pub enum Action {
    ScrollIntoView,
    Click,
    ScrollLeft,
    ScrollRight,
    SetScrollOffset,
    Decrement,
    Increment,
    SetValue,
    Other,
}

/// What a click on a semantic target does.
#[derive(Clone, Copy, Debug, PartialEq, Eq, Structural)]
pub enum Activation {
    ToggleTask,
    OpenImageLink,
    OpenResourceLink,
    /// Footnote navigation, by the control's navigation token.
    Footnote(u64),
}

/// A published semantic node that can receive actions.
#[derive(Clone, Copy, Debug)]
pub struct ActionTarget {
    pub node_id: NodeId,
    pub activation: Option<Activation>,
    pub math_scroll: bool,
    pub math_scroll_value: bool,
}

pub open spec fn supports_spec(target: ActionTarget, action: Action) -> bool {
    match action {
        Action::ScrollIntoView => true,
        Action::Click => target.activation is Some,
        Action::ScrollLeft | Action::ScrollRight | Action::SetScrollOffset => target.math_scroll,
        Action::Decrement | Action::Increment | Action::SetValue => target.math_scroll_value,
        Action::Other => false,
    }
}

impl ActionTarget {
    /// Whether this target handles `action`; unsupported actions reach the
    /// window's other handlers.
    pub fn supports(self, action: Action) -> (supported: bool)
        ensures
            supported == supports_spec(self, action),
    {
        match action {
            Action::ScrollIntoView => true,
            Action::Click => self.activation.is_some(),
            Action::ScrollLeft | Action::ScrollRight | Action::SetScrollOffset => self.math_scroll,
            Action::Decrement | Action::Increment | Action::SetValue => self.math_scroll_value,
            Action::Other => false,
        }
    }
}

/// The data carried by an accessibility request.
#[derive(Clone, Copy, Debug, PartialEq, Eq, Structural)]
pub enum ActionData {
    Empty,
    ScrollOffset,
    NumericValue,
}

/// What the editor does for an accessibility request.
#[derive(Clone, Copy, Debug, PartialEq, Eq, Structural)]
pub enum Response {
    /// The request is not ours: other handlers may take it.
    Unhandled,
    /// Handled; nothing changes.
    Nothing,
    RevealBounds(NodeId),
    ToggleTask(NodeId),
    OpenImageLink(NodeId),
    OpenResourceLink(NodeId),
    NavigateFootnote(u64),
    /// Scroll a formula by one step; `forward` is to the right.
    ScrollMath { node: NodeId, forward: bool },
    /// Scroll a formula to the offset or value that the request carries.
    SetMathScroll(NodeId),
}

pub open spec fn respond_spec(target: Option<ActionTarget>, action: Action, data: ActionData) -> Response {
    match target {
        None => Response::Unhandled,
        Some(t) => if !supports_spec(t, action) {
            Response::Unhandled
        } else {
            match action {
                Action::ScrollIntoView => Response::RevealBounds(t.node_id),
                Action::Click => match t.activation {
                    Some(Activation::ToggleTask) => Response::ToggleTask(t.node_id),
                    Some(Activation::OpenImageLink) => Response::OpenImageLink(t.node_id),
                    Some(Activation::OpenResourceLink) => Response::OpenResourceLink(t.node_id),
                    Some(Activation::Footnote(n)) => Response::NavigateFootnote(n),
                    None => Response::Nothing,
                },
                Action::ScrollLeft | Action::Decrement => Response::ScrollMath { node: t.node_id, forward: false },
                Action::ScrollRight | Action::Increment => Response::ScrollMath { node: t.node_id, forward: true },
                Action::SetScrollOffset => if data == ActionData::ScrollOffset {
                    Response::SetMathScroll(t.node_id)
                } else {
                    Response::Nothing
                },
                Action::SetValue => if data == ActionData::NumericValue {
                    Response::SetMathScroll(t.node_id)
                } else {
                    Response::Nothing
                },
                Action::Other => Response::Nothing,
            }
        },
    }
}

/// A click does what the target's activation names: a task toggles, an
/// image link opens the image's link, a resource link opens the resource, a
/// footnote control navigates; a target without activation leaves the click
/// to other handlers. Revealing always reveals the target, and only formula
/// targets scroll.
pub proof fn lemma_respond_follows_activation(target: Option<ActionTarget>, action: Action, data: ActionData)
    ensures
        target is None ==> respond_spec(target, action, data) == Response::Unhandled,
        target is Some && action == Action::Click ==> respond_spec(target, action, data) == match target.unwrap().activation {
            Some(Activation::ToggleTask) => Response::ToggleTask(target.unwrap().node_id),
            Some(Activation::OpenImageLink) => Response::OpenImageLink(target.unwrap().node_id),
            Some(Activation::OpenResourceLink) => Response::OpenResourceLink(target.unwrap().node_id),
            Some(Activation::Footnote(n)) => Response::NavigateFootnote(n),
            None => Response::Unhandled,
        },
        target is Some && action == Action::ScrollIntoView ==> respond_spec(target, action, data) == Response::RevealBounds(target.unwrap().node_id),
        target is Some && (action == Action::ScrollLeft || action == Action::ScrollRight) ==> respond_spec(target, action, data) == if target.unwrap().math_scroll {
            Response::ScrollMath { node: target.unwrap().node_id, forward: action == Action::ScrollRight }
        } else {
            Response::Unhandled
        },
        action == Action::Other ==> respond_spec(target, action, data) == Response::Unhandled,
{
}

/// Resolves an accessibility request against the published target map.
/// Unknown targets and unsupported actions stay unhandled.
pub fn respond(target: Option<ActionTarget>, action: Action, data: ActionData) -> (response: Response)
    ensures
        response == respond_spec(target, action, data),
        target is None ==> response == Response::Unhandled,
        target is Some && action == Action::Click ==> response == match target.unwrap().activation {
            Some(Activation::ToggleTask) => Response::ToggleTask(target.unwrap().node_id),
            Some(Activation::OpenImageLink) => Response::OpenImageLink(target.unwrap().node_id),
            Some(Activation::OpenResourceLink) => Response::OpenResourceLink(target.unwrap().node_id),
            Some(Activation::Footnote(n)) => Response::NavigateFootnote(n),
            None => Response::Unhandled,
        },
        target is Some && action == Action::ScrollIntoView ==> response == Response::RevealBounds(target.unwrap().node_id),
        target is Some && (action == Action::ScrollLeft || action == Action::ScrollRight) ==> response == if target.unwrap().math_scroll {
            Response::ScrollMath { node: target.unwrap().node_id, forward: action == Action::ScrollRight }
        } else {
            Response::Unhandled
        },
        action == Action::Other ==> response == Response::Unhandled,
{
    let t = match target {
        Some(t) => t,
        None => return Response::Unhandled,
    };
    if !t.supports(action) {
        return Response::Unhandled;
    }
    match action {
        Action::ScrollIntoView => Response::RevealBounds(t.node_id),
        Action::Click => match t.activation {
            Some(Activation::ToggleTask) => Response::ToggleTask(t.node_id),
            Some(Activation::OpenImageLink) => Response::OpenImageLink(t.node_id),
            Some(Activation::OpenResourceLink) => Response::OpenResourceLink(t.node_id),
            Some(Activation::Footnote(n)) => Response::NavigateFootnote(n),
            None => Response::Nothing,
        },
        Action::ScrollLeft | Action::Decrement => Response::ScrollMath { node: t.node_id, forward: false },
        Action::ScrollRight | Action::Increment => Response::ScrollMath { node: t.node_id, forward: true },
        Action::SetScrollOffset => if data == ActionData::ScrollOffset {
            Response::SetMathScroll(t.node_id)
        } else {
            Response::Nothing
        },
        Action::SetValue => if data == ActionData::NumericValue {
            Response::SetMathScroll(t.node_id)
        } else {
            Response::Nothing
        },
        Action::Other => Response::Nothing,
    }
}

/// What activating a link reads of the live document node: an image with
/// its authored link, a paragraph with the destination of its resource card,
/// or another node.
#[derive(Debug)]
pub enum LiveNode {
    Image { link: Option<String> },
    Paragraph { resource: Option<String> },
    Other,
}

/// The link of the live image node, resolved at activation rather than from
/// a retained tree: nothing when the node is gone, is no image, or has no link.
pub fn open_semantic_image_link(node: Option<&LiveNode>) -> (target: Option<String>)
    ensures
        match node {
            Some(LiveNode::Image { link: Some(t) }) => target matches Some(s) && s@ == t@,
            _ => target is None,
        },
{
    match node {
        Some(LiveNode::Image { link: Some(t) }) => Some(t.clone()),
        _ => None,
    }
}

/// The destination of the live paragraph's resource card, resolved at
/// activation: nothing when the node is gone, is no paragraph, or names none.
pub fn open_semantic_resource_link(node: Option<&LiveNode>) -> (target: Option<String>)
    ensures
        match node {
            Some(LiveNode::Paragraph { resource: Some(t) }) => target matches Some(s) && s@ == t@,
            _ => target is None,
        },
{
    match node {
        Some(LiveNode::Paragraph { resource: Some(t) }) => Some(t.clone()),
        _ => None,
    }
}

/// The revision after `revision`: never zero, wrapping past the maximum.
pub open spec fn next_revision_spec(revision: u64) -> u64 {
    if revision == u64::MAX {
        1
    } else {
        (revision + 1) as u64
    }
}

/// Numbers a freshly built semantic tree.
pub fn next_revision(revision: u64) -> (next: u64)
    ensures
        next == next_revision_spec(revision),
        next != 0,
{
    let bumped = revision.wrapping_add(1);
    if bumped < 1 {
        1
    } else {
        bumped
    }
}

/// What authored descriptions read of one projected segment.
#[derive(Clone, Copy, Debug)]
pub struct DescribingSegment {
    pub node_id: NodeId,
    /// Paragraph that this margin note describes.
    pub margin_note_anchor: Option<NodeId>,
    /// Image whose text this is, and the first image of its gallery when the
    /// text describes a whole gallery.
    pub figure_text: Option<(NodeId, Option<NodeId>)>,
}

/// Last position of `id` among the images, or -1.
pub open spec fn image_ordinal(images: Seq<NodeId>, id: NodeId) -> int
    decreases images.len(),
{
    if images.len() == 0 {
        -1
    } else if images.last() == id {
        images.len() - 1
    } else {
        image_ordinal(images.drop_last(), id)
    }
}

/// `m` with `text` appended to the describers of `target`.
pub open spec fn described_by(m: Map<NodeId, Seq<NodeId>>, target: NodeId, text: NodeId) -> Map<NodeId, Seq<NodeId>> {
    m.insert(target, if m.contains_key(target) { m[target] } else { Seq::empty() }.push(text))
}

/// `m` with `text` appended to the describers of each of `targets`.
pub open spec fn described_all(m: Map<NodeId, Seq<NodeId>>, targets: Seq<NodeId>, text: NodeId) -> Map<NodeId, Seq<NodeId>>
    decreases targets.len(),
{
    if targets.len() == 0 {
        m
    } else {
        described_by(described_all(m, targets.drop_last(), text), targets.last(), text)
    }
}

/// The descriptions one segment contributes: a margin note describes its
/// anchor; gallery text describes every image of its gallery, and other
/// figure text its own image.
pub open spec fn describe_segment(m: Map<NodeId, Seq<NodeId>>, segment: DescribingSegment, images: Seq<NodeId>) -> Map<NodeId, Seq<NodeId>> {
    let noted = match segment.margin_note_anchor {
        Some(anchor) => described_by(m, anchor, segment.node_id),
        None => m,
    };
    match segment.figure_text {
        Some((image, Some(first))) => {
            let start = image_ordinal(images, first);
            let end = image_ordinal(images, image);
            if start >= 0 && end >= 0 {
                described_all(noted, images.subrange(start, end + 1), segment.node_id)
            } else {
                noted
            }
        },
        Some((image, None)) => described_by(noted, image, segment.node_id),
        None => noted,
    }
}

/// Authored descriptions of every described node, in source order.
pub open spec fn authored_descriptions_spec(segments: Seq<DescribingSegment>, images: Seq<NodeId>) -> Map<NodeId, Seq<NodeId>>
    decreases segments.len(),
{
    if segments.len() == 0 {
        Map::empty()
    } else {
        describe_segment(authored_descriptions_spec(segments.drop_last(), images), segments.last(), images)
    }
}

pub open spec fn gallery_ordered(segment: DescribingSegment, images: Seq<NodeId>) -> bool {
    match segment.figure_text {
        Some((image, Some(first))) => image_ordinal(images, first) >= 0 && image_ordinal(images, image) >= 0
            ==> image_ordinal(images, first) <= image_ordinal(images, image) + 1,
        _ => true,
    }
}

/// A gallery never starts after the image that its text belongs to.
pub open spec fn galleries_ordered(segments: Seq<DescribingSegment>, images: Seq<NodeId>) -> bool {
    forall|i: int|
        0 <= i < segments.len() ==> gallery_ordered(#[trigger] segments[i], images)
}

pub open spec fn described_lists(m: Map<NodeId, Vec<NodeId>>) -> Map<NodeId, Seq<NodeId>> {
    m.map_values(|v: Vec<NodeId>| v@)
}

fn describe(m: &mut HashMap<NodeId, Vec<NodeId>>, target: NodeId, text: NodeId)
    ensures
        described_lists(final(m)@) == described_by(described_lists(old(m)@), target, text),
{
    let mut list = match m.remove(&target) {
        Some(l) => l,
        None => Vec::new(),
    };
    list.push(text);
    m.insert(target, list);
    assert(described_lists(final(m)@) =~= described_by(described_lists(old(m)@), target, text));
}

proof fn lemma_image_ordinal(images: Seq<NodeId>, id: NodeId)
    ensures
        -1 <= image_ordinal(images, id) < images.len(),
        image_ordinal(images, id) >= 0 ==> images[image_ordinal(images, id)] == id,
        image_ordinal(images, id) == -1 ==> !images.contains(id),
        forall|j: int| image_ordinal(images, id) < j < images.len() ==> images[j] != id,
    decreases images.len(),
{
    if images.len() > 0 {
        lemma_image_ordinal(images.drop_last(), id);
        if images.last() != id {
            assert forall|j: int| image_ordinal(images, id) < j < images.len() implies images[j] != id by {
                if j < images.len() - 1 {
                    assert(images.drop_last()[j] == images[j]);
                }
            }
        }
        if images.last() != id && image_ordinal(images, id) == -1 {
            assert forall|j: int| 0 <= j < images.len() implies images[j] != id by {
                if j < images.len() - 1 {
                    assert(images.drop_last()[j] == images[j]);
                }
            }
        }
    }
}

/// Which authored text describes which image or paragraph: margin notes
/// describe their anchors, captions their images, and gallery captions every
/// image of their gallery.
pub fn authored_descriptions(segments: &Vec<DescribingSegment>, images: &Vec<NodeId>) -> (m: HashMap<NodeId, Vec<NodeId>>)
    requires
        galleries_ordered(segments@, images@),
    ensures
        described_lists(m@) == authored_descriptions_spec(segments@, images@),
{
    let mut ordinals: HashMap<NodeId, usize> = HashMap::new();
    let mut o: usize = 0;
    while o < images.len()
        invariant
            o <= images@.len(),
            forall|id: NodeId| #[trigger] ordinals@.contains_key(id) == (image_ordinal(images@.take(o as int), id) >= 0),
            forall|id: NodeId| #[trigger] ordinals@.contains_key(id) ==> ordinals@[id] == image_ordinal(images@.take(o as int), id),
        decreases images@.len() - o,
    {
        assert(images@.take(o + 1).drop_last() =~= images@.take(o as int));
        proof {
            assert forall|id: NodeId| id != images@[o as int] implies image_ordinal(images@.take(o + 1), id) == image_ordinal(images@.take(o as int), id) by {}
            lemma_image_ordinal(images@.take(o as int), images@[o as int]);
        }
        ordinals.insert(images[o], o);
        o += 1;
    }
    assert(images@.take(images@.len() as int) =~= images@);
    let mut m: HashMap<NodeId, Vec<NodeId>> = HashMap::new();
    assert(described_lists(m@) =~= Map::<NodeId, Seq<NodeId>>::empty());
    let mut i: usize = 0;
    while i < segments.len()
        invariant
            i <= segments@.len(),
            galleries_ordered(segments@, images@),
            forall|id: NodeId| #[trigger] ordinals@.contains_key(id) == (image_ordinal(images@, id) >= 0),
            forall|id: NodeId| #[trigger] ordinals@.contains_key(id) ==> ordinals@[id] == image_ordinal(images@, id),
            described_lists(m@) == authored_descriptions_spec(segments@.take(i as int), images@),
        decreases segments@.len() - i,
    {
        assert(segments@.take(i + 1).drop_last() =~= segments@.take(i as int));
        let segment = segments[i];
        let ghost base = described_lists(m@);
        if let Some(anchor) = segment.margin_note_anchor {
            describe(&mut m, anchor, segment.node_id);
        }
        let ghost noted = described_lists(m@);
        match segment.figure_text {
            Some((image, Some(first))) => {
                match (ordinals.get(&first), ordinals.get(&image)) {
                    (Some(start_ref), Some(end_ref)) => {
                        let start = *start_ref;
                        let end = *end_ref;
                        proof {
                            lemma_image_ordinal(images@, first);
                            lemma_image_ordinal(images@, image);
                            assert(segments@[i as int] == segment);
                        }
                        let mut k = start;
                        while k <= end
                            invariant
                                start <= k <= end + 1,
                                end < images.len(),
                                described_lists(m@) == described_all(
                                    noted,
                                    images@.subrange(start as int, k as int),
                                    segment.node_id,
                                ),
                            decreases end + 1 - k,
                        {
                            assert(images@.subrange(start as int, k + 1).drop_last() =~= images@.subrange(
                                start as int,
                                k as int,
                            ));
                            describe(&mut m, images[k], segment.node_id);
                            k += 1;
                        }
                    },
                    _ => {},
                }
            },
            Some((image, None)) => {
                describe(&mut m, image, segment.node_id);
            },
            None => {},
        }
        i += 1;
    }
    assert(segments@.take(segments@.len() as int) =~= segments@);
    m
}

/// Marks the published roots: margin notes as notes, figure captions as
/// captions (a caption wins).
pub open spec fn root_role(role: Role, margin_note: bool, caption: bool) -> Role {
    if caption {
        Role::FigureCaption
    } else if margin_note {
        Role::Note
    } else {
        role
    }
}

/// Gives each published root its note or caption role. `margin_notes` holds
/// the top-level nodes of margin-note segments; `captions` the nodes whose
/// segment is a figure caption.
pub fn mark_roots(
    nodes: &mut Vec<SemanticNode>,
    roots: &Vec<usize>,
    margin_notes: &HashMap<NodeId, ()>,
    captions: &HashMap<NodeId, ()>,
)
    requires
        forall|r: int| 0 <= r < roots@.len() ==> #[trigger] roots@[r] < old(nodes)@.len(),
        forall|r: int, q: int| 0 <= r < q < roots@.len() ==> roots@[r] != roots@[q],
    ensures
        final(nodes)@.len() == old(nodes)@.len(),
        forall|i: int|
            0 <= i < old(nodes)@.len() ==> {
                let before = old(nodes)@[i];
                let after = #[trigger] final(nodes)@[i];
                &&& after.node_id == before.node_id
                &&& after.label@ == before.label@
                &&& after.children@ == before.children@
                &&& after.resource_link == before.resource_link
                &&& after.image_link == before.image_link
                &&& after.math_markup == before.math_markup
                &&& after.role == if roots@.contains(i as usize) {
                    root_role(before.role, margin_notes@.contains_key(before.node_id), captions@.contains_key(before.node_id))
                } else {
                    before.role
                }
            },
{
    let ghost before = nodes@;
    let total = nodes.len();
    let mut r: usize = 0;
    while r < roots.len()
        invariant
            nodes@.len() == before.len(),
            before.len() == total,
            r <= roots@.len(),
            forall|q: int| 0 <= q < roots@.len() ==> #[trigger] roots@[q] < before.len(),
            forall|x: int, q: int| 0 <= x < q < roots@.len() ==> roots@[x] != roots@[q],
            forall|i: int|
                0 <= i < before.len() ==> {
                    let b = before[i];
                    let a = #[trigger] nodes@[i];
                    &&& a.node_id == b.node_id
                    &&& a.label@ == b.label@
                    &&& a.children@ == b.children@
                    &&& a.resource_link == b.resource_link
                    &&& a.image_link == b.image_link
                    &&& a.math_markup == b.math_markup
                    &&& a.role == if roots@.take(r as int).contains(i as usize) {
                        root_role(b.role, margin_notes@.contains_key(b.node_id), captions@.contains_key(b.node_id))
                    } else {
                        b.role
                    }
                },
        decreases roots@.len() - r,
    {
        let index = roots[r];
        let id = nodes[index].node_id;
        let caption = captions.contains_key(&id);
        let note = margin_notes.contains_key(&id);
        if caption {
            nodes[index].role = Role::FigureCaption;
        } else if note {
            nodes[index].role = Role::Note;
        }
        proof {
            let prev = roots@.take(r as int);
            let next = roots@.take(r + 1);
            assert(next =~= prev.push(index));
            assert forall|i: int| 0 <= i < before.len() implies #[trigger] next.contains(i as usize) == (
                prev.contains(i as usize) || i == index) by {
                if next.contains(i as usize) {
                    let q = choose|q: int| 0 <= q < next.len() && #[trigger] next[q] == i as usize;
                    if q < r {
                        assert(prev[q] == i as usize);
                    }
                }
                if prev.contains(i as usize) {
                    let q = choose|q: int| 0 <= q < prev.len() && #[trigger] prev[q] == i as usize;
                    assert(next[q] == i as usize);
                }
                if i == index {
                    assert(next[r as int] == index);
                }
            }
            assert(!prev.contains(index)) by {
                if prev.contains(index) {
                    let q = choose|q: int| 0 <= q < prev.len() && #[trigger] prev[q] == index;
                    assert(roots@[q] == roots@[r as int]);
                }
            }
        }
        r += 1;
    }
    assert(roots@.take(roots@.len() as int) =~= roots@);
}

/// Where a node's accessible name comes from, besides its own label.
pub enum LabelSource {
    /// Preserved HTML source, with the readable text of its preview when the
    /// preview renders exactly this source.
    Preserved { source: String, readable: Option<String> },
    /// A text block and its runs that cite numbered footnotes.
    Text { text: String, references: Vec<FootnoteReference> },
}

/// The readable text a rendered preview lends a preserved HTML block: only a
/// preview of exactly the block's own source names it.
pub fn preview_label(block_source: &str, preview_source: &str, accessible_text: &str) -> (readable: Option<String>)
    ensures
        block_source@ == preview_source@ ==> (readable matches Some(r) && r@ == accessible_text@),
        block_source@ != preview_source@ ==> readable is None,
{
    if same_text(block_source, preview_source) {
        let mut readable = String::new();
        push_str(&mut readable, accessible_text);
        assert(readable@ =~= accessible_text@);
        Some(readable)
    } else {
        None
    }
}

/// Roles whose name is the names of their children: an aggregate must not
/// leak the parser's unfiltered description through its parent.
pub open spec fn aggregate_role(role: Role) -> bool {
    ||| role == Role::ListItem
    ||| role == Role::CheckBox
    ||| role == Role::Cell
    ||| role == Role::ColumnHeader
    ||| role == Role::Blockquote
    ||| role == Role::Alert
    ||| role == Role::Note
}

pub open spec fn cites_footnotes(sources: Map<NodeId, LabelSource>, id: NodeId) -> bool {
    sources.contains_key(id) && (sources[id] matches LabelSource::Text { references, .. } && references@.len() > 0)
}

pub open spec fn is_preserved(sources: Map<NodeId, LabelSource>, id: NodeId) -> bool {
    sources.contains_key(id) && sources[id] is Preserved
}

/// Whether relabelling changed the name of node `i` or of one of its descendants.
pub open spec fn html_changed(nodes: Seq<SemanticNode>, sources: Map<NodeId, LabelSource>, i: int) -> bool
    decreases nodes.len() - i, 1int, 0int,
{
    if i < 0 || i >= nodes.len() {
        false
    } else if is_preserved(sources, nodes[i].node_id) || cites_footnotes(sources, nodes[i].node_id) {
        true
    } else {
        children_changed(nodes, sources, i, nodes[i].children@.len() as int)
    }
}

pub open spec fn children_changed(nodes: Seq<SemanticNode>, sources: Map<NodeId, LabelSource>, i: int, k: int) -> bool
    decreases nodes.len() - i, 0int, k,
{
    if k <= 0 || i < 0 || i >= nodes.len() || k > nodes[i].children@.len() {
        false
    } else {
        let c = nodes[i].children@[k - 1] as int;
        children_changed(nodes, sources, i, k - 1) || (i < c < nodes.len() && html_changed(nodes, sources, c))
    }
}

/// The accessible name of node `i` after relabelling: preserved HTML reads as
/// its readable text (or source); citing runs read as footnote marks;
/// aggregates whose content changed repeat their children's names, one per
/// line; a footnote definition is introduced by its number.
pub open spec fn html_label(
    nodes: Seq<SemanticNode>,
    sources: Map<NodeId, LabelSource>,
    definitions: Map<NodeId, usize>,
    i: int,
) -> Seq<char>
    decreases nodes.len() - i, 1int, 0int,
{
    if i < 0 || i >= nodes.len() {
        Seq::empty()
    } else {
        let n = nodes[i];
        if is_preserved(sources, n.node_id) {
            match sources[n.node_id] {
                LabelSource::Preserved { source, readable } => match readable {
                    Some(r) => r@,
                    None => source@,
                },
                _ => Seq::empty(),
            }
        } else {
            let base = if cites_footnotes(sources, n.node_id) {
                match sources[n.node_id] {
                    LabelSource::Text { text, references } => marked(text@, references@),
                    _ => n.label@,
                }
            } else {
                n.label@
            };
            let named = if html_changed(nodes, sources, i) && aggregate_role(n.role) {
                joined_labels(nodes, sources, definitions, i, n.children@.len() as int)
            } else {
                base
            };
            if definitions.contains_key(n.node_id) {
                "Footnote "@ + decimal(definitions[n.node_id] as nat) + ". "@ + named
            } else {
                named
            }
        }
    }
}

/// The names of the first `k` children of node `i`, one per line.
pub open spec fn joined_labels(
    nodes: Seq<SemanticNode>,
    sources: Map<NodeId, LabelSource>,
    definitions: Map<NodeId, usize>,
    i: int,
    k: int,
) -> Seq<char>
    decreases nodes.len() - i, 0int, k,
{
    if k <= 0 || i < 0 || i >= nodes.len() || k > nodes[i].children@.len() {
        Seq::empty()
    } else {
        let c = nodes[i].children@[k - 1] as int;
        let name = if i < c < nodes.len() {
            html_label(nodes, sources, definitions, c)
        } else {
            Seq::empty()
        };
        if k == 1 {
            name
        } else {
            joined_labels(nodes, sources, definitions, i, k - 1) + "\n"@ + name
        }
    }
}

/// Citing runs are well placed in their text.
pub open spec fn sources_well_formed(nodes: Seq<SemanticNode>, sources: Map<NodeId, LabelSource>) -> bool {
    forall|id: NodeId|
        #[trigger] sources.contains_key(id) ==> match sources[id] {
            LabelSource::Text { text, references } => references_ordered(text@, references@),
            _ => true,
        }
}

/// Node `j` is a child of node `p`.
pub open spec fn has_child(nodes: Seq<SemanticNode>, p: int, j: int) -> bool {
    exists|k: int| 0 <= k < nodes[p].children@.len() && #[trigger] nodes[p].children@[k] == j
}

/// The arena holds a tree: no node is listed as a child twice, under one
/// parent or under two.
pub open spec fn single_parents(nodes: Seq<SemanticNode>) -> bool {
    forall|p: int, q: int, k: int, m: int|
        #![trigger nodes[p].children@[k], nodes[q].children@[m]]
        0 <= p < nodes.len() && 0 <= q < nodes.len() && 0 <= k < nodes[p].children@.len() && 0 <= m
            < nodes[q].children@.len() && nodes[p].children@[k] == nodes[q].children@[m] ==> p == q && k == m
}

/// Whether node `j` lies inside preserved HTML: relabelling names the
/// preserved node from its source and never visits what lies below it.
pub open spec fn hidden(nodes: Seq<SemanticNode>, sources: Map<NodeId, LabelSource>, j: int) -> bool
    decreases j, 1int, 0int,
{
    if j <= 0 {
        false
    } else {
        hidden_below(nodes, sources, j, j)
    }
}

/// Whether one of the first `i` nodes is a parent of `j` that is preserved
/// HTML or lies inside it.
pub open spec fn hidden_below(nodes: Seq<SemanticNode>, sources: Map<NodeId, LabelSource>, j: int, i: int) -> bool
    decreases j, 0int, i,
{
    if i <= 0 || i > j || i > nodes.len() {
        false
    } else {
        hidden_below(nodes, sources, j, i - 1) || (has_child(nodes, i - 1, j) && (is_preserved(
            sources,
            nodes[i - 1].node_id,
        ) || hidden(nodes, sources, i - 1)))
    }
}

proof fn lemma_hidden_single_parent(
    nodes: Seq<SemanticNode>,
    sources: Map<NodeId, LabelSource>,
    parent: int,
    k: int,
    m: int,
)
    requires
        well_formed(nodes),
        single_parents(nodes),
        0 <= parent < nodes.len(),
        0 <= k < nodes[parent].children@.len(),
        0 <= m <= nodes[parent].children@[k],
    ensures
        hidden_below(nodes, sources, nodes[parent].children@[k] as int, m) == (m > parent && (is_preserved(
            sources,
            nodes[parent].node_id,
        ) || hidden(nodes, sources, parent))),
    decreases m,
{
    let c = nodes[parent].children@[k] as int;
    if m > 0 {
        lemma_hidden_single_parent(nodes, sources, parent, k, m - 1);
        if m - 1 != parent && has_child(nodes, m - 1, c) {
            let kk = choose|kk: int| 0 <= kk < nodes[m - 1].children@.len() && #[trigger] nodes[m - 1].children@[kk] == c;
            assert(nodes[m - 1].children@[kk] == nodes[parent].children@[k]);
        }
        if m - 1 == parent {
            assert(has_child(nodes, parent, c));
        }
    }
}

/// Relabels the semantic tree: preserved HTML by its readable text, footnote
/// citations by their numbers, changed aggregates by their children, and
/// footnote definitions by their numbers. What lies inside preserved HTML is
/// not visited and keeps its name; nothing else changes. Returns, for each
/// node, whether its name or a descendant's changed.
pub fn apply_html_labels(
    nodes: &mut Vec<SemanticNode>,
    sources: &HashMap<NodeId, LabelSource>,
    definitions: &HashMap<NodeId, usize>,
) -> (changed: Vec<bool>)
    requires
        well_formed(old(nodes)@),
        single_parents(old(nodes)@),
        sources_well_formed(old(nodes)@, sources@),
    ensures
        final(nodes)@.len() == old(nodes)@.len(),
        changed@.len() == old(nodes)@.len(),
        forall|i: int|
            0 <= i < old(nodes)@.len() ==> {
                let before = old(nodes)@[i];
                let after = #[trigger] final(nodes)@[i];
                &&& after.node_id == before.node_id
                &&& after.role == before.role
                &&& after.children@ == before.children@
                &&& after.resource_link == before.resource_link
                &&& after.image_link == before.image_link
                &&& after.math_markup == before.math_markup
                &&& after.label@ == if hidden(old(nodes)@, sources@, i) {
                    before.label@
                } else {
                    html_label(old(nodes)@, sources@, definitions@, i)
                }
                &&& changed@[i] == html_changed(old(nodes)@, sources@, i)
            },
{
    let ghost before = nodes@;
    let n = nodes.len();
    let hid = hidden_nodes(nodes, sources);
    let mut changed: Vec<bool> = Vec::new();
    let mut z: usize = 0;
    while z < n
        invariant
            z <= n,
            changed@.len() == z,
        decreases n - z,
    {
        changed.push(false);
        z += 1;
    }
    let mut i = n;
    while i > 0
        invariant
            n == before.len(),
            nodes@.len() == n,
            changed@.len() == n,
            hid@.len() == n,
            forall|j: int| 0 <= j < n ==> #[trigger] hid@[j] == hidden(before, sources@, j),
            i <= n,
            well_formed(before),
            single_parents(before),
            sources_well_formed(before, sources@),
            forall|j: int|
                0 <= j < n ==> {
                    let b = before[j];
                    let a = #[trigger] nodes@[j];
                    &&& a.node_id == b.node_id
                    &&& a.role == b.role
                    &&& a.children@ == b.children@
                    &&& a.resource_link == b.resource_link
                    &&& a.image_link == b.image_link
                    &&& a.math_markup == b.math_markup
                    &&& (j < i || hidden(before, sources@, j)) ==> a.label@ == b.label@
                    &&& (j >= i && !hidden(before, sources@, j)) ==> a.label@ == html_label(
                        before,
                        sources@,
                        definitions@,
                        j,
                    )
                },
            forall|j: int| i <= j < n ==> #[trigger] changed@[j] == html_changed(before, sources@, j),
        decreases i,
    {
        i = i - 1;
        let id = nodes[i].node_id;
        let inside = hid[i];
        let source = sources.get(&id);
        let preserved = match source {
            Some(LabelSource::Preserved { .. }) => true,
            _ => false,
        };
        if preserved {
            let name = match source {
                Some(LabelSource::Preserved { source, readable }) => match readable {
                    Some(r) => r.clone(),
                    None => source.clone(),
                },
                _ => String::new(),
            };
            if !inside {
                nodes[i].label = name;
            }
            changed.set(i, true);
        } else {
            let mut any = false;
            let mut label_changed = false;
            let mut name = String::new();
            if let Some(LabelSource::Text { text, references }) = source {
                if references.len() > 0 {
                    name = mark_references(text.as_str(), references);
                    any = true;
                    label_changed = true;
                }
            }
            let mut k: usize = 0;
            while k < nodes[i].children.len()
                invariant
                    i < n,
                    n == before.len(),
                    nodes@.len() == n,
                    changed@.len() == n,
                    well_formed(before),
                    nodes@[i as int].children@ == before[i as int].children@,
                    forall|j: int| i < j < n ==> #[trigger] changed@[j] == html_changed(before, sources@, j),
                    k <= before[i as int].children@.len(),
                    any == (cites_footnotes(sources@, id) || children_changed(before, sources@, i as int, k as int)),
                decreases before[i as int].children@.len() - k,
            {
                let c = nodes[i].children[k];
                proof {
                    assert(i < before[i as int].children@[k as int]);
                }
                if changed[c] {
                    any = true;
                }
                k += 1;
            }
            if any && aggregate(nodes[i].role) {
                let mut joined = String::new();
                let mut k: usize = 0;
                while k < nodes[i].children.len()
                    invariant
                        i < n,
                        n == before.len(),
                        nodes@.len() == n,
                        well_formed(before),
                        single_parents(before),
                        !is_preserved(sources@, id),
                        id == before[i as int].node_id,
                        inside == hidden(before, sources@, i as int),
                        nodes@[i as int].children@ == before[i as int].children@,
                        forall|j: int|
                            i < j < n && !hidden(before, sources@, j) ==> (#[trigger] nodes@[j]).label@ == html_label(
                                before,
                                sources@,
                                definitions@,
                                j,
                            ),
                        k <= before[i as int].children@.len(),
                        !inside ==> joined@ == joined_labels(before, sources@, definitions@, i as int, k as int),
                    decreases before[i as int].children@.len() - k,
                {
                    let c = nodes[i].children[k];
                    proof {
                        assert(i < before[i as int].children@[k as int]);
                        if !inside {
                            lemma_hidden_single_parent(before, sources@, i as int, k as int, c as int);
                        }
                    }
                    if k > 0 {
                        push_str(&mut joined, "\n");
                    }
                    push_str(&mut joined, nodes[c].label.as_str());
                    k += 1;
                }
                name = joined;
                label_changed = true;
            }
            if let Some(number) = definitions.get(&id) {
                let mut introduced = String::new();
                push_str(&mut introduced, "Footnote ");
                push_decimal(&mut introduced, *number);
                push_str(&mut introduced, ". ");
                if label_changed {
                    push_str(&mut introduced, name.as_str());
                } else {
                    push_str(&mut introduced, nodes[i].label.as_str());
                }
                name = introduced;
                label_changed = true;
            }
            if label_changed && !inside {
                nodes[i].label = name;
            }
            changed.set(i, any);
        }
    }
    changed
}

/// Which nodes lie inside preserved HTML, computed parents first.
fn hidden_nodes(nodes: &Vec<SemanticNode>, sources: &HashMap<NodeId, LabelSource>) -> (hid: Vec<bool>)
    requires
        well_formed(nodes@),
    ensures
        hid@.len() == nodes@.len(),
        forall|j: int| 0 <= j < nodes@.len() ==> #[trigger] hid@[j] == hidden(nodes@, sources@, j),
{
    let n = nodes.len();
    let mut hid: Vec<bool> = Vec::new();
    let mut z: usize = 0;
    while z < n
        invariant
            z <= n,
            hid@.len() == z,
            forall|j: int| 0 <= j < z ==> #[trigger] hid@[j] == false,
        decreases n - z,
    {
        hid.push(false);
        z += 1;
    }
    let mut i: usize = 0;
    while i < n
        invariant
            n == nodes@.len(),
            i <= n,
            hid@.len() == n,
            well_formed(nodes@),
            forall|j: int| 0 <= j < n ==> #[trigger] hid@[j] == hidden_below(nodes@, sources@, j, if i < j { i as int } else { j }),
        decreases n - i,
    {
        let ghost old_hid = hid@;
        let id = nodes[i].node_id;
        let preserved = match sources.get(&id) {
            Some(LabelSource::Preserved { .. }) => true,
            _ => false,
        };
        proof {
            assert(hid@[i as int] == hidden(nodes@, sources@, i as int));
        }
        let marks = preserved || hid[i];
        let mut k: usize = 0;
        while k < nodes[i].children.len()
            invariant
                n == nodes@.len(),
                i < n,
                hid@.len() == n,
                well_formed(nodes@),
                marks == (is_preserved(sources@, nodes@[i as int].node_id) || hidden(nodes@, sources@, i as int)),
                k <= nodes@[i as int].children@.len(),
                forall|j: int| 0 <= j <= i ==> #[trigger] hid@[j] == old_hid[j],
                forall|j: int|
                    i < j < n ==> #[trigger] hid@[j] == (old_hid[j] || (marks && exists|kk: int|
                        0 <= kk < k && #[trigger] nodes@[i as int].children@[kk] == j)),
            decreases nodes@[i as int].children@.len() - k,
        {
            let c = nodes[i].children[k];
            proof {
                assert(i < nodes@[i as int].children@[k as int] < n);
            }
            if marks {
                hid.set(c, true);
            }
            proof {
                assert forall|j: int| i < j < n implies #[trigger] hid@[j] == (old_hid[j] || (marks && exists|kk: int|
                    0 <= kk < k + 1 && #[trigger] nodes@[i as int].children@[kk] == j)) by {
                    if j == c as int && marks {
                        assert(nodes@[i as int].children@[k as int] == j);
                    }
                    if marks && exists|kk: int| 0 <= kk < k + 1 && #[trigger] nodes@[i as int].children@[kk] == j {
                        let kk = choose|kk: int| 0 <= kk < k + 1 && #[trigger] nodes@[i as int].children@[kk] == j;
                        if kk < k {
                        } else {
                            assert(j == c as int);
                        }
                    }
                }
            }
            k += 1;
        }
        proof {
            assert forall|j: int| 0 <= j < n implies #[trigger] hid@[j] == hidden_below(nodes@, sources@, j, if i + 1 < j { i + 1 } else { j }) by {
                if j > i {
                    assert(hidden_below(nodes@, sources@, j, i + 1) == (hidden_below(nodes@, sources@, j, i as int) || (
                    has_child(nodes@, i as int, j) && (is_preserved(sources@, nodes@[i as int].node_id) || hidden(nodes@, sources@, i as int)))));
                }
            }
        }
        i += 1;
    }
    proof {
        assert forall|j: int| 0 <= j < n implies #[trigger] hid@[j] == hidden(nodes@, sources@, j) by {
        }
    }
    hid
}

/// Which published object an action target is.
#[derive(Clone, Copy, Debug, PartialEq, Eq, Structural)]
pub enum TargetKind {
    /// The semantic node itself.
    Node,
    /// The footnote control at this ordinal among the node's controls.
    FootnoteControl(usize),
    /// The authored link around an image.
    ImageLink,
}

/// The target a semantic node publishes for itself: task items toggle,
/// resource links open, and formulas scroll.
pub open spec fn own_target(node: SemanticNode) -> ActionTarget {
    ActionTarget {
        node_id: node.node_id,
        activation: if node.role == Role::CheckBox {
            Some(Activation::ToggleTask)
        } else if node.resource_link is Some {
            Some(Activation::OpenResourceLink)
        } else {
            None
        },
        math_scroll: node.role == Role::Math,
        math_scroll_value: node.role == Role::Math,
    }
}

/// The action targets one semantic node publishes: itself, each of its
/// footnote controls (by navigation token), and its image link, if any.
pub fn node_targets(node: &SemanticNode, footnote_controls: &Vec<u64>) -> (targets: Vec<(TargetKind, ActionTarget)>)
    ensures
        targets@.len() == 1 + footnote_controls@.len() + if node.image_link is Some { 1int } else { 0int },
        targets@[0] == (TargetKind::Node, own_target(*node)),
        forall|k: int|
            0 <= k < footnote_controls@.len() ==> #[trigger] targets@[k + 1] == (
                TargetKind::FootnoteControl(k as usize),
                ActionTarget {
                    node_id: node.node_id,
                    activation: Some(Activation::Footnote(footnote_controls@[k])),
                    math_scroll: false,
                    math_scroll_value: false,
                },
            ),
        node.image_link is Some ==> targets@.last() == (
            TargetKind::ImageLink,
            ActionTarget {
                node_id: node.node_id,
                activation: Some(Activation::OpenImageLink),
                math_scroll: false,
                math_scroll_value: false,
            },
        ),
{
    let mut targets: Vec<(TargetKind, ActionTarget)> = Vec::new();
    let activation = if node.role == Role::CheckBox {
        Some(Activation::ToggleTask)
    } else if node.resource_link.is_some() {
        Some(Activation::OpenResourceLink)
    } else {
        None
    };
    let math = node.role == Role::Math;
    targets.push((
        TargetKind::Node,
        ActionTarget { node_id: node.node_id, activation, math_scroll: math, math_scroll_value: math },
    ));
    let mut k: usize = 0;
    while k < footnote_controls.len()
        invariant
            k <= footnote_controls@.len(),
            targets@.len() == k + 1,
            targets@[0] == (TargetKind::Node, own_target(*node)),
            forall|j: int|
                0 <= j < k ==> #[trigger] targets@[j + 1] == (
                    TargetKind::FootnoteControl(j as usize),
                    ActionTarget {
                        node_id: node.node_id,
                        activation: Some(Activation::Footnote(footnote_controls@[j])),
                        math_scroll: false,
                        math_scroll_value: false,
                    },
                ),
        decreases footnote_controls@.len() - k,
    {
        targets.push((
            TargetKind::FootnoteControl(k),
            ActionTarget {
                node_id: node.node_id,
                activation: Some(Activation::Footnote(footnote_controls[k])),
                math_scroll: false,
                math_scroll_value: false,
            },
        ));
        k += 1;
    }
    if node.image_link.is_some() {
        targets.push((
            TargetKind::ImageLink,
            ActionTarget {
                node_id: node.node_id,
                activation: Some(Activation::OpenImageLink),
                math_scroll: false,
                math_scroll_value: false,
            },
        ));
    }
    targets
}

/// Whether a published node offers a click: task items and resource links.
pub fn clickable(node: &SemanticNode) -> (click: bool)
    ensures
        click == (node.role == Role::CheckBox || node.resource_link is Some),
{
    node.role == Role::CheckBox || node.resource_link.is_some()
}

/// The rows of a table node and the widest row's cell count.
pub open spec fn table_columns(nodes: Seq<SemanticNode>, i: int, k: int) -> nat
    decreases k,
{
    if k <= 0 || k > nodes[i].children@.len() {
        0
    } else {
        let row = nodes[i].children@[k - 1] as int;
        let cells = if 0 <= row < nodes.len() { nodes[row].children@.len() } else { 0 };
        let rest = table_columns(nodes, i, k - 1);
        if cells > rest { cells } else { rest }
    }
}

/// Row and column counts that a table publishes: its rows, and the cells of
/// its widest row (Markdown tables have no spans).
pub fn table_dimensions(nodes: &Vec<SemanticNode>, i: usize) -> (dims: (usize, usize))
    requires
        i < nodes@.len(),
        well_formed(nodes@),
    ensures
        dims.0 == nodes@[i as int].children@.len(),
        dims.1 == table_columns(nodes@, i as int, nodes@[i as int].children@.len() as int),
{
    let rows = nodes[i].children.len();
    let mut columns: usize = 0;
    let mut k: usize = 0;
    while k < rows
        invariant
            i < nodes@.len(),
            well_formed(nodes@),
            rows == nodes@[i as int].children@.len(),
            k <= rows,
            columns == table_columns(nodes@, i as int, k as int),
        decreases rows - k,
    {
        let row = nodes[i].children[k];
        proof {
            assert(i < nodes@[i as int].children@[k as int] < nodes@.len());
        }
        let cells = nodes[row].children.len();
        if cells > columns {
            columns = cells;
        }
        k += 1;
    }
    (rows, columns)
}

/// The label of the first published root with `role`.
pub open spec fn first_label_for_role(nodes: Seq<SemanticNode>, roots: Seq<usize>, role: Role) -> Option<Seq<char>>
    decreases roots.len(),
{
    if roots.len() == 0 {
        None
    } else {
        match first_label_for_role(nodes, roots.drop_last(), role) {
            Some(l) => Some(l),
            None => if 0 <= roots.last() < nodes.len() && nodes[roots.last() as int].role == role {
                Some(nodes[roots.last() as int].label@)
            } else {
                None
            },
        }
    }
}

/// The label of the first published root with `role`.
pub fn label_for_role(nodes: &Vec<SemanticNode>, roots: &Vec<usize>, role: Role) -> (label: Option<String>)
    ensures
        match label {
            Some(l) => first_label_for_role(nodes@, roots@, role) == Some(l@),
            None => first_label_for_role(nodes@, roots@, role) is None,
        },
{
    let mut r: usize = 0;
    while r < roots.len()
        invariant
            r <= roots@.len(),
            first_label_for_role(nodes@, roots@.take(r as int), role) is None,
        decreases roots@.len() - r,
    {
        assert(roots@.take(r + 1).drop_last() =~= roots@.take(r as int));
        let index = roots[r];
        if index < nodes.len() && nodes[index].role == role {
            proof {
                lemma_first_label_extends(nodes@, roots@, role, r + 1);
            }
            return Some(nodes[index].label.clone());
        }
        r += 1;
    }
    assert(roots@.take(roots@.len() as int) =~= roots@);
    None
}

proof fn lemma_first_label_extends(nodes: Seq<SemanticNode>, roots: Seq<usize>, role: Role, k: int)
    requires
        0 < k <= roots.len(),
        first_label_for_role(nodes, roots.take(k), role) is Some,
    ensures
        first_label_for_role(nodes, roots, role) == first_label_for_role(nodes, roots.take(k), role),
    decreases roots.len() - k,
{
    if k < roots.len() {
        assert(roots.take(k + 1).drop_last() =~= roots.take(k));
        lemma_first_label_extends(nodes, roots, role, k + 1);
    } else {
        assert(roots.take(k) =~= roots);
    }
}

/// A MathML token carries its text as a label; other elements are groups.
pub fn math_markup_role(text: &str) -> (role: Role)
    ensures
        role == if text@.len() == 0 { Role::Group } else { Role::Label },
{
    if text.is_empty() {
        Role::Group
    } else {
        Role::Label
    }
}

/// The names of the nodes that describe an image, joined by spaces; nodes
/// without a name are skipped.
pub open spec fn joined_descriptions(labels: Seq<Option<String>>) -> Seq<char>
    decreases labels.len(),
{
    if labels.len() == 0 {
        Seq::empty()
    } else {
        let before = joined_descriptions(labels.drop_last());
        match labels.last() {
            Some(l) => if present_count(labels.drop_last()) == 0 {
                l@
            } else {
                before + " "@ + l@
            },
            None => before,
        }
    }
}

pub open spec fn present_count(labels: Seq<Option<String>>) -> nat
    decreases labels.len(),
{
    if labels.len() == 0 {
        0
    } else {
        present_count(labels.drop_last()) + if labels.last() is Some { 1nat } else { 0nat }
    }
}

/// The description text of a described node.
pub fn description_text(labels: &Vec<Option<String>>) -> (text: String)
    ensures
        text@ == joined_descriptions(labels@),
{
    let mut text = String::new();
    let mut any = false;
    let mut k: usize = 0;
    while k < labels.len()
        invariant
            k <= labels@.len(),
            text@ == joined_descriptions(labels@.take(k as int)),
            any == (present_count(labels@.take(k as int)) > 0),
            !any ==> text@ == Seq::<char>::empty(),
        decreases labels@.len() - k,
    {
        assert(labels@.take(k + 1).drop_last() =~= labels@.take(k as int));
        if let Some(l) = &labels[k] {
            if any {
                push_str(&mut text, " ");
            }
            push_str(&mut text, l.as_str());
            any = true;
        }
        k += 1;
    }
    assert(labels@.take(labels@.len() as int) =~= labels@);
    text
}

fn aggregate(role: Role) -> (aggregate: bool)
    ensures
        aggregate == aggregate_role(role),
{
    match role {
        Role::ListItem | Role::CheckBox | Role::Cell | Role::ColumnHeader | Role::Blockquote | Role::Alert
        | Role::Note => true,
        _ => false,
    }
}

} // verus!
