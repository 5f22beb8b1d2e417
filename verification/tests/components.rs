use document_view::components::{
    advance_cursor, component_ids, heading_row_line, locate_line, rebase_first_line, ComponentOwners, HeadingRow,
    LineSegment, SegmentScan,
};

#[test]
fn the_cursor_walks_to_the_last_segment_starting_at_the_line() {
    let segments = vec![(0, 10), (10, 20), (20, 30), (30, 40)];
    assert_eq!(advance_cursor(&segments, 0, 0), 0);
    assert_eq!(advance_cursor(&segments, 0, 25), 2);
    assert_eq!(advance_cursor(&segments, 2, 30), 3);
    assert_eq!(advance_cursor(&segments, 3, 99), 3);
}

#[test]
fn forward_lines_find_their_segment_and_backward_lines_ask_for_a_lookup() {
    let segments = vec![(0, 10), (12, 20)];
    let scan = SegmentScan { cursor: 0, previous_start: None };
    let (found, scan) = locate_line(&segments, scan, (0, 10));
    assert_eq!(found, LineSegment::Found(0));
    let (found, scan) = locate_line(&segments, scan, (10, 11));
    assert_eq!(found, LineSegment::Missing);
    let (found, scan) = locate_line(&segments, scan, (14, 20));
    assert_eq!(found, LineSegment::Found(1));
    assert_eq!(scan, SegmentScan { cursor: 1, previous_start: Some(14) });
    let (found, scan) = locate_line(&segments, scan, (2, 5));
    assert_eq!(found, LineSegment::Search);
    assert_eq!(scan, SegmentScan { cursor: 1, previous_start: Some(2) });
}

#[test]
fn a_line_extends_its_node_root_containers_and_ancestors() {
    let owners = ComponentOwners {
        node: 5,
        root: 1,
        alert: None,
        quote: Some(3),
        table: Some(4),
        list_ancestors: vec![2, 6],
        quote_ancestors: vec![3],
    };
    assert_eq!(component_ids(&owners), vec![5, 1, 3, 4, 2, 6, 3]);
}

#[test]
fn first_headings_of_each_column_share_their_row_top() {
    let mut rows: Vec<HeadingRow> = Vec::new();
    assert_eq!(heading_row_line(&mut rows, 9, 0, 0, 4), 4);
    assert_eq!(heading_row_line(&mut rows, 9, 0, 1, 6), 4);
    assert_eq!(heading_row_line(&mut rows, 9, 0, 1, 8), 8);
    assert_eq!(heading_row_line(&mut rows, 9, 1, 1, 12), 12);
    assert_eq!(rows.len(), 2);
    assert_eq!(rows[0].columns, 0b11);
    assert_eq!(rows[1].columns, 0b10);
}

#[test]
fn a_localized_edit_moves_only_following_first_lines() {
    assert_eq!(rebase_first_line(2, 0, 2, 1), 1);
    assert_eq!(rebase_first_line(0, 0, 2, 1), 0);
    assert_eq!(rebase_first_line(7, 3, 5, 4), 9);
}
