use document_view::arrangement::{
    card_presentation_breaks, checklist_progress, checklist_summaries, group_key_fits, group_spacing, insert_sorted,
    group_key, root_key_facts, split_at_breaks, Gap, GroupKey, RootKey, RootKeyInput, Margin, RootFootprint, RootKeyFacts, SpacingLine,
};
use document_view::model::{BlockKind, Segment, SegmentContext};

fn segment(start: usize, list_depth: usize) -> Segment {
    Segment {
        node_id: 4,
        top_level_node_id: 2,
        start,
        end: start + 100,
        context: SegmentContext {
            list_depth,
            list_branch_start: false,
            has_list_marker: list_depth > 0,
            list_parent_label: None,
            outline_metrics: None,
            compact_outline: false,
            table_cell: None,
            bibliography: None,
            margin_note_anchor: None,
        },
    }
}

#[test]
fn staged_list_items_break_at_each_arrow() {
    let text = "Draft → Review → Publish";
    let breaks = card_presentation_breaks(&segment(10, 1), Some(BlockKind::Paragraph), None, text, true);
    let expected: Vec<usize> = text.match_indices('→').map(|(o, _)| 10 + o).collect();
    assert_eq!(breaks, expected);
    // Not cards, not a list, or too few stages: no breaks.
    assert!(card_presentation_breaks(&segment(10, 1), Some(BlockKind::Paragraph), None, text, false).is_empty());
    assert!(card_presentation_breaks(&segment(10, 0), Some(BlockKind::Paragraph), None, text, true).is_empty());
    assert!(card_presentation_breaks(&segment(10, 1), Some(BlockKind::Paragraph), None, "A → B", true).is_empty());
    assert!(card_presentation_breaks(&segment(0, 1), None, Some(3), text, true).is_empty());
}

#[test]
fn blank_or_long_stages_and_many_stages_keep_one_line() {
    let blank = card_presentation_breaks(&segment(0, 1), Some(BlockKind::Paragraph), None, "A →  → C", true);
    assert!(blank.is_empty());
    let long = format!("A → {} → C", "x".repeat(49));
    assert!(card_presentation_breaks(&segment(0, 1), Some(BlockKind::Paragraph), None, &long, true).is_empty());
    let fits = format!("A → {} → C", "x".repeat(46));
    assert_eq!(card_presentation_breaks(&segment(0, 1), Some(BlockKind::Paragraph), None, &fits, true).len(), 2);
    let seven = "1→2→3→4→5→6→7";
    assert!(card_presentation_breaks(&segment(0, 1), Some(BlockKind::List), None, seven, true).is_empty());
    let six = "1→2→3→4→5→6";
    assert_eq!(card_presentation_breaks(&segment(0, 1), Some(BlockKind::List), None, six, true).len(), 5);
}

#[test]
fn label_breaks_join_the_arrows_in_order_without_repeats() {
    let text = "Stage: Draft → Review → Publish";
    let arrows: Vec<usize> = text.match_indices('→').map(|(o, _)| o).collect();
    let with_label = card_presentation_breaks(&segment(0, 1), Some(BlockKind::Paragraph), Some(6), text, true);
    assert_eq!(with_label, vec![6, arrows[0], arrows[1]]);
    let same = card_presentation_breaks(&segment(0, 1), Some(BlockKind::Paragraph), Some(arrows[0]), text, true);
    assert_eq!(same, arrows);
    let heading = card_presentation_breaks(&segment(0, 0), Some(BlockKind::Heading), Some(6), text, true);
    assert!(heading.is_empty());
    assert_eq!(insert_sorted(vec![1, 5, 9], 7), vec![1, 5, 7, 9]);
    assert_eq!(insert_sorted(vec![1, 5, 9], 5), vec![1, 5, 9]);
    assert_eq!(insert_sorted(vec![], 2), vec![2]);
}

fn root(lens: &[(usize, usize)], image: Option<usize>) -> RootFootprint {
    RootFootprint { segments: Some(lens.to_vec()), image_source_len: image, has_handle: true }
}

#[test]
fn cached_group_keys_are_bounded() {
    assert!(!group_key_fits(&vec![]));
    assert!(group_key_fits(&vec![root(&[(100, 0)], None)]));
    let five: Vec<RootFootprint> = (0..5).map(|_| root(&[(1, 0)], None)).collect();
    assert!(!group_key_fits(&five));
    assert!(group_key_fits(&vec![root(&[(64 * 1024, 0)], None)]));
    assert!(!group_key_fits(&vec![root(&[(64 * 1024 - 31, 1)], None)]));
    assert!(!group_key_fits(&vec![root(&vec![(1, 0); 513], None)]));
    assert!(group_key_fits(&vec![root(&vec![(1, 0); 256], None), root(&vec![(1, 0); 256], None)]));
    assert!(!group_key_fits(&vec![root(&[(1, 0)], Some(4097))]));
    assert!(group_key_fits(&vec![root(&[(1, 0)], Some(4096))]));
    assert!(!group_key_fits(&vec![RootFootprint { segments: None, image_source_len: None, has_handle: true }]));
    assert!(!group_key_fits(&vec![RootFootprint { segments: Some(vec![(1, 0)]), image_source_len: None, has_handle: false }]));
}

#[test]
fn checklist_summaries_appear_once_in_visible_order() {
    let visible = vec![Some((3, false)), Some((5, true)), None, Some((5, true)), Some((9, true)), Some((5, true))];
    assert_eq!(checklist_summaries(&visible), vec![5, 9]);
    assert_eq!(checklist_progress(3, 8), "3 of 8 complete");
    assert_eq!(checklist_progress(0, 0), "0 of 0 complete");
}

fn line(root: Option<u64>, block: BlockKind) -> SpacingLine {
    SpacingLine {
        root,
        root_is_heading: block == BlockKind::Heading,
        block: Some(block),
        slot: None,
        same_column_as_previous_line: false,
        table_cell: false,
        code_preview: false,
        starts_document: false,
        no_outer_paragraph_margin: false,
        bibliography: false,
        lead: false,
    }
}

#[test]
fn group_spacing_runs_by_root_and_trims_outer_margins() {
    let mut title = line(Some(1), BlockKind::Heading);
    title.starts_document = true;
    let lines = vec![
        title,
        line(Some(2), BlockKind::Paragraph),
        line(Some(2), BlockKind::Paragraph),
        line(Some(3), BlockKind::CodeBlock { math: false }),
        line(None, BlockKind::Paragraph),
        line(Some(4), BlockKind::Paragraph),
    ];
    let groups = group_spacing(&lines);
    assert_eq!(groups.len(), 3, "spacing stops at a line without a segment");
    assert_eq!((groups[0].start, groups[0].end), (0, 1));
    assert_eq!(groups[0].gap, Gap::OpeningHeading);
    assert_eq!(groups[0].trim_above, Some(Margin::Eight));
    assert_eq!(groups[0].trim_below, Some(Margin::Seven));
    assert_eq!((groups[1].start, groups[1].end), (1, 3));
    assert_eq!(groups[1].gap, Gap::Between { previous: 1, root: 2 });
    assert_eq!(groups[1].trim_above, Some(Margin::Zero));
    assert_eq!(groups[1].trim_below, Some(Margin::Sixteen));
    assert_eq!(groups[2].trim_above, Some(Margin::Eight));
}

#[test]
fn cards_keep_their_padding_and_slots_keep_their_gaps() {
    let mut a = line(Some(1), BlockKind::Paragraph);
    a.slot = Some((10, true));
    let mut b = line(Some(2), BlockKind::Paragraph);
    b.slot = Some((10, true));
    let mut c = line(Some(3), BlockKind::Paragraph);
    c.slot = Some((10, false));
    c.same_column_as_previous_line = true;
    let mut d = line(Some(4), BlockKind::Paragraph);
    d.table_cell = true;
    let groups = group_spacing(&vec![a, b, c, d]);
    assert_eq!(groups[0].gap, Gap::Opening);
    assert_eq!(groups[0].trim_above, None);
    assert_eq!(groups[1].gap, Gap::Unchanged);
    assert_eq!(groups[2].gap, Gap::Between { previous: 2, root: 3 });
    assert_eq!(groups[2].trim_below, Some(Margin::Sixteen));
    assert_eq!(groups[3].gap, Gap::Between { previous: 3, root: 4 });
    assert_eq!(groups[3].trim_above, None);
}

#[test]
fn a_root_key_records_citations_and_the_edits_inside_the_root() {
    let mut first = segment(0, 0);
    first.node_id = 10;
    let mut cited = segment(100, 0);
    cited.node_id = 11;
    cited.context.bibliography = Some(3);
    let mut other = segment(200, 0);
    other.node_id = 12;
    let segments = vec![first, cited, other];
    let facts = root_key_facts(&segments, &vec![0, 1], Some(11), Some(12));
    assert_eq!(
        facts,
        RootKeyFacts { citations: vec![(11, 3)], math_edit: Some(11), expanded_code_tail: None, starts_document: true }
    );
    let later = root_key_facts(&segments, &vec![2], None, Some(12));
    assert_eq!(
        later,
        RootKeyFacts { citations: vec![], math_edit: None, expanded_code_tail: Some(12), starts_document: false }
    );
}

#[test]
fn a_table_opening_the_document_gets_no_gap_and_keeps_its_cell_padding() {
    let mut cell = line(Some(1), BlockKind::Table);
    cell.table_cell = true;
    cell.starts_document = true;
    let lines = vec![cell, cell, line(Some(2), BlockKind::Paragraph)];
    let groups = group_spacing(&lines);
    assert_eq!(groups[0].gap, Gap::Opening);
    assert_eq!((groups[0].start, groups[0].end), (0, 2));
    assert_eq!(groups[0].trim_above, None);
    assert_eq!(groups[0].trim_below, None);
    assert_eq!(groups[1].gap, Gap::Between { previous: 1, root: 2 });
}

#[test]
fn card_lines_split_at_breaks_inside_them() {
    assert_eq!(split_at_breaks(10, 40, &vec![5, 18, 18, 25, 40, 60]), vec![(10, 18), (18, 25), (25, 40)]);
    assert_eq!(split_at_breaks(10, 40, &vec![]), vec![(10, 40)]);
    assert_eq!(split_at_breaks(7, 7, &vec![7]), vec![(7, 7)]);
}

fn given(content: u64) -> RootKeyInput {
    RootKeyInput {
        content,
        narrative: false,
        metadata: false,
        editorial: None,
        lead: false,
        steps: false,
        figure_text: None,
        quote_roles: vec![],
        image: None,
        table: None,
        html_disclosures: vec![],
        html_images: vec![],
    }
}

#[test]
fn a_fitting_group_gets_a_key_of_its_width_cards_roots_and_gaps() {
    let mut first = segment(0, 0);
    first.node_id = 10;
    let mut cited = segment(100, 0);
    cited.node_id = 11;
    cited.context.bibliography = Some(3);
    let segments = vec![first, cited];
    let roots = vec![root(&[(100, 0)], None), root(&[(100, 0)], None)];
    let width = 1100.0f32.to_bits();
    let gap = 24.0f32.to_bits();
    let mut image = given(8);
    image.image = Some(("diagram.png".to_string(), (600, 180)));
    image.lead = true;
    let key = group_key(
        &roots,
        &segments,
        &vec![vec![0], vec![1]],
        None,
        None,
        vec![given(7), image],
        width,
        true,
        &vec![gap],
        vec![1, 2],
        Some((10, None)),
    );
    let mut expected_image = given(8);
    expected_image.image = Some(("diagram.png".to_string(), (600, 180)));
    expected_image.lead = true;
    assert_eq!(
        key,
        Some(GroupKey {
            roots: vec![
                RootKey {
                    facts: RootKeyFacts { citations: vec![], math_edit: None, expanded_code_tail: None, starts_document: true },
                    given: given(7),
                },
                RootKey {
                    facts: RootKeyFacts { citations: vec![(11, 3)], math_edit: None, expanded_code_tail: None, starts_document: false },
                    given: expected_image,
                },
            ],
            width,
            cards: true,
            gaps: vec![gap],
            footnotes: vec![1, 2],
            command_strip_lock: Some((10, None)),
        })
    );
    let five: Vec<RootFootprint> = (0..5).map(|_| root(&[(1, 0)], None)).collect();
    let indexes = vec![vec![0]; 5];
    let inputs = (0..5).map(given).collect();
    assert_eq!(group_key(&five, &segments, &indexes, None, None, inputs, width, false, &vec![gap; 4], vec![], None), None);
}
