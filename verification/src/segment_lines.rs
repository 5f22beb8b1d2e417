//! How each projected segment becomes visual lines: which builder owns it,
//! where a slot's run of segments begins and ends, and which spacing
//! decisions each of its lines receives.
use crate::arrangement::Margin;
use crate::model::{BlockKind, NodeId};
use vstd::prelude::*;

verus! {

/// The accent of a layout slot's cards.
#[derive(Clone, Copy, Debug, PartialEq, Eq, Structural)]
pub enum SlotAccent {
    Editorial,
    Resource,
    Numbered,
    OpenLabeled,
    Plain,
}

/// What line building reads of a layout slot.
#[derive(Clone, Copy, Debug, PartialEq, Eq, Structural)]
pub struct SlotView {
    pub group: NodeId,
    pub group_is_definition: bool,
    pub cards: bool,
    pub columns: usize,
    pub accent: SlotAccent,
}

/// The builder that turns a segment into visual lines.
#[derive(Clone, Copy, Debug, PartialEq, Eq, Structural)]
pub enum SegmentRoute {
    InlineList,
    FigureFlow,
    ProseFlow,
    Editorial,
    Resource,
    Text,
}

/// An inline list wins, then a figure flow, then a prose flow, then an
/// editorial or resource slot; everything else is ordinary text.
pub open spec fn route_spec(inline_list: bool, figure_flow: bool, prose_flow: bool, slot: Option<SlotView>) -> SegmentRoute {
    if inline_list {
        SegmentRoute::InlineList
    } else if figure_flow {
        SegmentRoute::FigureFlow
    } else if prose_flow {
        SegmentRoute::ProseFlow
    } else if slot matches Some(s) && s.accent == SlotAccent::Editorial {
        SegmentRoute::Editorial
    } else if slot matches Some(s) && s.accent == SlotAccent::Resource {
        SegmentRoute::Resource
    } else {
        SegmentRoute::Text
    }
}

/// The builder that owns a segment.
pub fn segment_route(inline_list: bool, figure_flow: bool, prose_flow: bool, slot: Option<SlotView>) -> (route: SegmentRoute)
    ensures
        route == route_spec(inline_list, figure_flow, prose_flow, slot),
{
    if inline_list {
        return SegmentRoute::InlineList;
    }
    if figure_flow {
        return SegmentRoute::FigureFlow;
    }
    if prose_flow {
        return SegmentRoute::ProseFlow;
    }
    match slot {
        Some(s) => match s.accent {
            SlotAccent::Editorial => SegmentRoute::Editorial,
            SlotAccent::Resource => SegmentRoute::Resource,
            _ => SegmentRoute::Text,
        },
        None => SegmentRoute::Text,
    }
}

/// Whether segment `i` begins and ends the run of segments in its slot:
/// the neighbour is missing, has no slot, or has another slot. Slots are
/// given by identity.
pub open spec fn slot_edges_spec(slots: Seq<Option<u64>>, i: int) -> (bool, bool) {
    (i == 0 || slots[i - 1] != slots[i], i + 1 >= slots.len() || slots[i + 1] != slots[i])
}

/// Whether segment `i`, which has a slot, begins and ends its slot's run.
pub fn slot_edges(slots: &Vec<Option<u64>>, i: usize) -> (edges: (bool, bool))
    requires
        i < slots@.len(),
        slots@[i as int] is Some,
    ensures
        edges == slot_edges_spec(slots@, i as int),
{
    let own = slots[i].unwrap();
    let first = i == 0 || match slots[i - 1] {
        Some(k) => k != own,
        None => true,
    };
    let last = i >= slots.len() - 1 || match slots[i + 1] {
        Some(k) => k != own,
        None => true,
    };
    (first, last)
}

/// Whether a segment takes the full width: code, images, headings, table
/// cells and gallery captions.
pub open spec fn wide_spec(kind: BlockKind, table_cell: bool, gallery: bool) -> bool {
    ||| kind matches BlockKind::CodeBlock { .. }
    ||| kind == BlockKind::Image
    ||| kind == BlockKind::Heading
    ||| table_cell
    ||| gallery
}

/// Whether a segment takes the full width rather than the reading measure.
pub fn is_wide(kind: BlockKind, table_cell: bool, gallery: bool) -> (wide: bool)
    ensures
        wide == wide_spec(kind, table_cell, gallery),
{
    let by_kind = match kind {
        BlockKind::CodeBlock { .. } | BlockKind::Image | BlockKind::Heading => true,
        _ => false,
    };
    by_kind || table_cell || gallery
}

/// A card that hides the list marker: a numbered card, or the top-level item
/// of an open labelled card of its own group.
pub open spec fn markerless_spec(slot: Option<SlotView>, root: NodeId, list_depth: usize) -> bool {
    slot matches Some(s) && s.cards && (s.accent == SlotAccent::Numbered || (s.group == root && s.accent
        == SlotAccent::OpenLabeled && list_depth == 1))
}

/// Space above a card line.
#[derive(Clone, Copy, Debug, PartialEq, Eq, Structural)]
pub enum CardAbove {
    Zero,
    /// The card's inset.
    Inset,
    /// The card's inset and room for its number badge.
    BadgedInset,
}

/// Space below a card line.
#[derive(Clone, Copy, Debug, PartialEq, Eq, Structural)]
pub enum CardBelow {
    Zero,
    /// The card's inset, below its last line.
    Inset,
    /// Between label rows: 12 px.
    LabelRow,
    /// After a heading: 8 px.
    Heading,
    /// After any other segment: 4 px.
    Item,
}

/// Space above and below a card line.
#[derive(Clone, Copy, Debug, PartialEq, Eq, Structural)]
pub struct CardSpacing {
    pub above: CardAbove,
    pub below: CardBelow,
}

/// What building one visual line decides besides its text.
#[derive(Clone, Copy, Debug, PartialEq, Eq, Structural)]
pub struct LineDecisions {
    /// The card hides the list marker: the line loses its container inset.
    pub markerless: bool,
    /// Card spacing, for a line in a card.
    pub card: Option<CardSpacing>,
    /// Outer margins a definition column removes above and below the line.
    pub trim_above: Option<Margin>,
    pub trim_below: Option<Margin>,
    /// A pulled quote in an open single column starts at the leading edge.
    pub leading_edge: bool,
    /// Step badges need 8 px of inset.
    pub steps_inset: bool,
    /// The last line of a lead paragraph keeps 24 px below.
    pub lead_gap: bool,
    /// The checklist's progress header sits above this line.
    pub checklist_header: bool,
}

/// What building one visual line reads.
#[derive(Clone, Copy, Debug)]
pub struct LineContext {
    pub index: usize,
    pub count: usize,
    /// The segment begins and ends its slot's run.
    pub first: bool,
    pub last: bool,
    pub slot: Option<SlotView>,
    pub kind: BlockKind,
    pub root: NodeId,
    pub list_depth: usize,
    pub code_preview: bool,
    pub table_cell: bool,
    pub label_row: bool,
    pub quote_pull: bool,
    pub steps: bool,
    pub lead: bool,
    /// The segment is the first item of a checklist.
    pub checklist_first: bool,
}

pub open spec fn card_spacing(c: LineContext) -> CardSpacing {
    let s = c.slot.unwrap();
    let above = if c.index == 0 && c.first {
        if s.accent == SlotAccent::Numbered {
            CardAbove::BadgedInset
        } else {
            CardAbove::Inset
        }
    } else {
        CardAbove::Zero
    };
    let below = if c.index + 1 == c.count {
        if c.last {
            CardBelow::Inset
        } else if c.label_row {
            CardBelow::LabelRow
        } else if c.kind == BlockKind::Heading {
            CardBelow::Heading
        } else {
            CardBelow::Item
        }
    } else {
        CardBelow::Zero
    };
    CardSpacing { above, below }
}

pub open spec fn in_definition(c: LineContext) -> bool {
    c.slot matches Some(s) && s.group_is_definition && !c.table_cell
}

pub open spec fn definition_above(c: LineContext) -> Option<Margin> {
    if in_definition(c) && c.index == 0 && c.first {
        Some(
            if c.code_preview {
                Margin::EquationGap
            } else if c.kind == BlockKind::Heading {
                Margin::Twenty
            } else if c.kind matches BlockKind::CodeBlock { .. } || c.kind == BlockKind::Image {
                Margin::Eight
            } else {
                Margin::Zero
            },
        )
    } else {
        None
    }
}

pub open spec fn definition_below(c: LineContext) -> Option<Margin> {
    if in_definition(c) && c.index + 1 == c.count && c.last {
        Some(
            if c.code_preview {
                Margin::EquationGap
            } else if c.kind == BlockKind::Heading {
                Margin::Seven
            } else {
                Margin::Sixteen
            },
        )
    } else {
        None
    }
}

pub open spec fn line_decisions_spec(c: LineContext) -> LineDecisions {
    LineDecisions {
        markerless: markerless_spec(c.slot, c.root, c.list_depth),
        card: if c.slot matches Some(s) && s.cards {
            Some(card_spacing(c))
        } else {
            None
        },
        trim_above: definition_above(c),
        trim_below: definition_below(c),
        leading_edge: c.quote_pull && (c.slot matches Some(s) ==> s.columns == 1 && !s.cards),
        steps_inset: c.steps,
        lead_gap: c.lead && c.index + 1 == c.count,
        checklist_header: c.checklist_first && c.index == 0,
    }
}

/// The spacing and placement decisions of one visual line of a segment.
pub fn line_decisions(c: &LineContext) -> (d: LineDecisions)
    ensures
        d == line_decisions_spec(*c),
{
    let is_heading = match c.kind {
        BlockKind::Heading => true,
        _ => false,
    };
    let chrome = match c.kind {
        BlockKind::CodeBlock { .. } | BlockKind::Image => true,
        _ => false,
    };
    let last_line = c.index < c.count && c.index + 1 == c.count;
    let markerless = match c.slot {
        Some(s) => s.cards && (match s.accent {
            SlotAccent::Numbered => true,
            SlotAccent::OpenLabeled => s.group == c.root && c.list_depth == 1,
            _ => false,
        }),
        None => false,
    };
    let card = match c.slot {
        Some(s) => if s.cards {
            let above = if c.index == 0 && c.first {
                match s.accent {
                    SlotAccent::Numbered => CardAbove::BadgedInset,
                    _ => CardAbove::Inset,
                }
            } else {
                CardAbove::Zero
            };
            let below = if last_line {
                if c.last {
                    CardBelow::Inset
                } else if c.label_row {
                    CardBelow::LabelRow
                } else if is_heading {
                    CardBelow::Heading
                } else {
                    CardBelow::Item
                }
            } else {
                CardBelow::Zero
            };
            Some(CardSpacing { above, below })
        } else {
            None
        },
        None => None,
    };
    let definition = match c.slot {
        Some(s) => s.group_is_definition && !c.table_cell,
        None => false,
    };
    let trim_above = if definition && c.index == 0 && c.first {
        Some(
            if c.code_preview {
                Margin::EquationGap
            } else if is_heading {
                Margin::Twenty
            } else if chrome {
                Margin::Eight
            } else {
                Margin::Zero
            },
        )
    } else {
        None
    };
    let trim_below = if definition && last_line && c.last {
        Some(
            if c.code_preview {
                Margin::EquationGap
            } else if is_heading {
                Margin::Seven
            } else {
                Margin::Sixteen
            },
        )
    } else {
        None
    };
    let open_column = match c.slot {
        Some(s) => s.columns == 1 && !s.cards,
        None => true,
    };
    LineDecisions {
        markerless,
        card,
        trim_above,
        trim_below,
        leading_edge: c.quote_pull && open_column,
        steps_inset: c.steps,
        lead_gap: c.lead && last_line,
        checklist_header: c.checklist_first && c.index == 0,
    }
}

} // verus!
