//! Plain-value model of the projected document that the verified decisions read.
use vstd::prelude::*;

verus! {

/// Identity of a document node.
pub type NodeId = u64;

/// The kind of a document block.
#[derive(Clone, Copy, Debug, PartialEq, Eq, Structural)]
pub enum BlockKind {
    Paragraph,
    Heading,
    List,
    /// A fenced or indented code block; `math` marks a display-math block.
    CodeBlock { math: bool },
    Table,
    Image,
    Alert,
    BlockQuote,
    PreservedSource,
    Definition,
    Other,
}

/// Whether a block is a code block that is not display math.
pub open spec fn is_source_code(kind: BlockKind) -> bool {
    kind matches BlockKind::CodeBlock { math } && !math
}

/// The structural context of one projected segment.
#[derive(Clone, Copy, Debug)]
pub struct SegmentContext {
    pub list_depth: usize,
    pub list_branch_start: bool,
    pub has_list_marker: bool,
    pub list_parent_label: Option<NodeId>,
    /// Outline depth and leading inset, in whole pixels.
    pub outline_metrics: Option<(usize, usize)>,
    pub compact_outline: bool,
    /// Table, row and column of the enclosing cell.
    pub table_cell: Option<(NodeId, usize, usize)>,
    /// Owner of the bibliography entry.
    pub bibliography: Option<NodeId>,
    /// Paragraph that a margin note describes.
    pub margin_note_anchor: Option<NodeId>,
}

/// One projected segment: a node's text range in the projection.
#[derive(Clone, Copy, Debug)]
pub struct Segment {
    pub node_id: NodeId,
    pub top_level_node_id: NodeId,
    pub start: usize,
    pub end: usize,
    pub context: SegmentContext,
}

} // verus!
