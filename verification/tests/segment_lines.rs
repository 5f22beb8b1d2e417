use document_view::arrangement::Margin;
use document_view::model::BlockKind;
use document_view::segment_lines::{
    is_wide, line_decisions, segment_route, slot_edges, CardAbove, CardBelow, CardSpacing, LineContext, SegmentRoute,
    SlotAccent, SlotView,
};

fn slot(accent: SlotAccent, cards: bool) -> SlotView {
    SlotView { group: 1, group_is_definition: false, cards, columns: 2, accent }
}

fn context(index: usize, count: usize, slot: Option<SlotView>, kind: BlockKind) -> LineContext {
    LineContext {
        index,
        count,
        first: true,
        last: true,
        slot,
        kind,
        root: 1,
        list_depth: 0,
        code_preview: false,
        table_cell: false,
        label_row: false,
        quote_pull: false,
        steps: false,
        lead: false,
        checklist_first: false,
    }
}

#[test]
fn flows_win_over_slots_and_slots_over_text() {
    let editorial = Some(slot(SlotAccent::Editorial, true));
    assert_eq!(segment_route(true, true, true, editorial), SegmentRoute::InlineList);
    assert_eq!(segment_route(false, true, true, editorial), SegmentRoute::FigureFlow);
    assert_eq!(segment_route(false, false, true, editorial), SegmentRoute::ProseFlow);
    assert_eq!(segment_route(false, false, false, editorial), SegmentRoute::Editorial);
    assert_eq!(segment_route(false, false, false, Some(slot(SlotAccent::Resource, true))), SegmentRoute::Resource);
    assert_eq!(segment_route(false, false, false, Some(slot(SlotAccent::Plain, true))), SegmentRoute::Text);
    assert_eq!(segment_route(false, false, false, None), SegmentRoute::Text);
}

#[test]
fn a_slot_run_begins_and_ends_where_the_neighbours_change() {
    let slots = vec![Some(1), Some(1), None, Some(2), Some(1)];
    assert_eq!(slot_edges(&slots, 0), (true, false));
    assert_eq!(slot_edges(&slots, 1), (false, true));
    assert_eq!(slot_edges(&slots, 3), (true, true));
    assert_eq!(slot_edges(&slots, 4), (true, true));
}

#[test]
fn code_images_headings_cells_and_galleries_are_wide() {
    assert!(is_wide(BlockKind::CodeBlock { math: true }, false, false));
    assert!(is_wide(BlockKind::Heading, false, false));
    assert!(is_wide(BlockKind::Paragraph, true, false));
    assert!(is_wide(BlockKind::Paragraph, false, true));
    assert!(!is_wide(BlockKind::Paragraph, false, false));
}

#[test]
fn numbered_cards_badge_their_first_line_and_hide_markers() {
    let numbered = Some(slot(SlotAccent::Numbered, true));
    let first = line_decisions(&context(0, 2, numbered, BlockKind::Paragraph));
    assert!(first.markerless);
    assert_eq!(first.card, Some(CardSpacing { above: CardAbove::BadgedInset, below: CardBelow::Zero }));
    let last = line_decisions(&context(1, 2, numbered, BlockKind::Paragraph));
    assert_eq!(last.card, Some(CardSpacing { above: CardAbove::Zero, below: CardBelow::Inset }));
    let mut inner = context(0, 1, numbered, BlockKind::Heading);
    inner.last = false;
    assert_eq!(line_decisions(&inner).card, Some(CardSpacing { above: CardAbove::BadgedInset, below: CardBelow::Heading }));
    inner.label_row = true;
    assert_eq!(line_decisions(&inner).card.unwrap().below, CardBelow::LabelRow);
}

#[test]
fn open_labeled_cards_hide_only_their_top_level_markers() {
    let open = Some(slot(SlotAccent::OpenLabeled, true));
    let mut top = context(0, 1, open, BlockKind::Paragraph);
    top.list_depth = 1;
    assert!(line_decisions(&top).markerless);
    top.list_depth = 2;
    assert!(!line_decisions(&top).markerless);
    top.list_depth = 1;
    top.root = 7;
    assert!(!line_decisions(&top).markerless);
}

#[test]
fn definition_columns_trim_outer_margins_at_their_edges() {
    let mut definition = slot(SlotAccent::Plain, false);
    definition.group_is_definition = true;
    let heading = line_decisions(&context(0, 1, Some(definition), BlockKind::Heading));
    assert_eq!(heading.trim_above, Some(Margin::Twenty));
    assert_eq!(heading.trim_below, Some(Margin::Seven));
    assert_eq!(heading.card, None);
    let code = line_decisions(&context(0, 3, Some(definition), BlockKind::CodeBlock { math: false }));
    assert_eq!(code.trim_above, Some(Margin::Eight));
    assert_eq!(code.trim_below, None);
    let mut cell = context(0, 1, Some(definition), BlockKind::Paragraph);
    cell.table_cell = true;
    assert_eq!(line_decisions(&cell).trim_above, None);
}

#[test]
fn pulled_quotes_leads_steps_and_checklists() {
    let mut quote = context(0, 2, None, BlockKind::Paragraph);
    quote.quote_pull = true;
    quote.lead = true;
    quote.steps = true;
    quote.checklist_first = true;
    let d = line_decisions(&quote);
    assert!(d.leading_edge && d.steps_inset && d.checklist_header && !d.lead_gap);
    let mut last = quote;
    last.index = 1;
    let d = line_decisions(&last);
    assert!(d.lead_gap && !d.checklist_header);
    let mut in_cards = quote;
    in_cards.slot = Some(slot(SlotAccent::Plain, true));
    assert!(!line_decisions(&in_cards).leading_edge);
}
