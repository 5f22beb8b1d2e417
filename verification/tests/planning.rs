use document_view::model::BlockKind;
use document_view::planning::{
    dimensions_resolved, group_measure, measurement_windows, nearby_advance, nearby_gap_lines, nearby_wants_lines, pending_images,
    segments_by_root, GroupMeasure, ImageSegment, NearbyGap, NearbyRoot, RootShape,
};

fn root(kind: BlockKind) -> RootShape {
    RootShape {
        kind,
        editorial: false,
        paragraphs_only: true,
        margin_note: false,
        segments: 1,
        rich_timeline: false,
        image_resolved: true,
    }
}

#[test]
fn editorial_groups_measure_themselves() {
    let mut first = root(BlockKind::Other);
    first.editorial = true;
    assert_eq!(group_measure(&vec![first, root(BlockKind::Other)], true), GroupMeasure::Editorial);
}

#[test]
fn peer_sections_stay_open_and_companion_cards_get_a_panel() {
    let peers = vec![root(BlockKind::Heading), root(BlockKind::Paragraph)];
    assert_eq!(group_measure(&peers, true), GroupMeasure::Measured { padded: false });
    let companion = vec![root(BlockKind::Paragraph), root(BlockKind::List)];
    assert_eq!(group_measure(&companion, true), GroupMeasure::Measured { padded: true });
    assert_eq!(group_measure(&companion, false), GroupMeasure::Measured { padded: false });
}

#[test]
fn groups_outside_row_search_are_unsupported() {
    let five = vec![root(BlockKind::Paragraph); 5];
    assert_eq!(group_measure(&five, false), GroupMeasure::Unsupported);
    assert_eq!(group_measure(&vec![root(BlockKind::Other)], false), GroupMeasure::Unsupported);
    assert_eq!(group_measure(&vec![root(BlockKind::Alert)], true), GroupMeasure::Unsupported);
    assert_eq!(group_measure(&vec![root(BlockKind::Alert)], false), GroupMeasure::Measured { padded: false });
    let quote = root(BlockKind::BlockQuote);
    assert_eq!(group_measure(&vec![quote], false), GroupMeasure::Unsupported);
    let mut note = quote;
    note.margin_note = true;
    assert_eq!(group_measure(&vec![note], false), GroupMeasure::Measured { padded: false });
    assert_eq!(group_measure(&vec![root(BlockKind::Table)], true), GroupMeasure::Unsupported);
    let mut split_image = root(BlockKind::Image);
    split_image.segments = 2;
    assert_eq!(group_measure(&vec![split_image], false), GroupMeasure::Unsupported);
    let mut timeline = root(BlockKind::List);
    timeline.rich_timeline = true;
    assert_eq!(group_measure(&vec![timeline], false), GroupMeasure::Unsupported);
    let mut unresolved = root(BlockKind::Image);
    unresolved.image_resolved = false;
    assert_eq!(group_measure(&vec![unresolved], false), GroupMeasure::Unsupported);
    assert_eq!(group_measure(&vec![root(BlockKind::Image)], false), GroupMeasure::Measured { padded: false });
    let mut empty = root(BlockKind::Paragraph);
    empty.segments = 0;
    assert_eq!(group_measure(&vec![empty], false), GroupMeasure::Unsupported);
}

fn image(id: u64, source: Option<&str>, resolved: Option<(&str, (u32, u32))>) -> ImageSegment {
    ImageSegment {
        node_id: id,
        source: source.map(String::from),
        resolved: resolved.map(|(s, size)| (s.to_string(), size)),
    }
}

#[test]
fn images_stay_pending_until_their_own_source_has_a_size() {
    let images = vec![
        image(1, Some("a.png"), None),
        image(2, Some("b.png"), Some(("b.png", (640, 480)))),
        image(3, Some("c.png"), Some(("old.png", (640, 480)))),
        image(4, Some("d.png"), Some(("d.png", (0, 480)))),
        image(5, None, Some(("e.png", (10, 10)))),
    ];
    assert_eq!(pending_images(&images), vec![1, 3, 4, 5]);
}

#[test]
fn measurement_windows_are_ordered_by_start_without_repeats() {
    let requested = vec![(4, 6), (0, 2), (4, 6), (2, 4), (0, 2)];
    assert_eq!(measurement_windows(&requested), vec![(0, 2), (2, 4), (4, 6)]);
    let equal_starts = vec![(3, 5), (3, 4), (1, 2)];
    assert_eq!(measurement_windows(&equal_starts), vec![(1, 2), (3, 5), (3, 4)]);
    assert_eq!(measurement_windows(&Vec::new()), Vec::<(usize, usize)>::new());
}

#[test]
fn segments_are_grouped_by_their_root_in_projection_order() {
    let groups = segments_by_root(&vec![7, 7, 9, 7, 3]);
    assert_eq!(groups.len(), 3);
    assert_eq!(groups[&7], vec![0, 1, 3]);
    assert_eq!(groups[&9], vec![2]);
    assert_eq!(groups[&3], vec![4]);
}

#[test]
fn prose_after_a_grid_is_recorded_until_the_limit() {
    let roots = vec![
        (1, NearbyRoot::Prose, Some(3)),
        (2, NearbyRoot::List { grid: true }, None),
        (3, NearbyRoot::Prose, Some(2)),
        (4, NearbyRoot::Prose, Some(4)),
        (5, NearbyRoot::Prose, Some(1)),
        (6, NearbyRoot::List { grid: true }, None),
        (7, NearbyRoot::Prose, Some(1)),
        (8, NearbyRoot::Other, None),
        (9, NearbyRoot::Prose, Some(1)),
    ];
    assert_eq!(nearby_gap_lines(&roots, 5), vec![(3, 2), (4, 4), (7, 1)]);
    assert_eq!(nearby_gap_lines(&roots, 100), vec![(3, 2), (4, 4), (5, 1), (7, 1)]);
}

#[test]
fn an_unmeasurable_root_ends_the_run_and_a_list_restarts_it() {
    let start = NearbyGap { after_grid: true, accumulated: 7 };
    assert!(nearby_wants_lines(start, NearbyRoot::Prose));
    assert!(!nearby_wants_lines(start, NearbyRoot::Other));
    assert_eq!(nearby_advance(start, NearbyRoot::Prose, None, 10), (NearbyGap { after_grid: false, accumulated: 7 }, None));
    assert_eq!(
        nearby_advance(start, NearbyRoot::List { grid: false }, None, 10),
        (NearbyGap { after_grid: false, accumulated: 0 }, None)
    );
    let saturated = NearbyGap { after_grid: true, accumulated: usize::MAX - 1 };
    assert_eq!(
        nearby_advance(saturated, NearbyRoot::Prose, Some(5), usize::MAX),
        (NearbyGap { after_grid: true, accumulated: usize::MAX }, Some(5))
    );
}

#[test]
fn dimensions_from_an_old_image_source_are_not_reused() {
    assert!(!dimensions_resolved(&image(1, Some("diagram.png"), Some(("other.png", (600, 180))))));
    assert!(dimensions_resolved(&image(1, Some("diagram.png"), Some(("diagram.png", (600, 180))))));
    assert!(!dimensions_resolved(&image(1, Some("diagram.png"), Some(("diagram.png", (0, 180))))));
    assert!(!dimensions_resolved(&image(1, Some("diagram.png"), None)));
}
