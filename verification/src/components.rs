//! The integer side of component geometry: which segment a visual line
//! belongs to, which components it contributes to, which row a heading
//! anchors to, and how component line indexes move after a local edit.
use crate::model::NodeId;
use vstd::prelude::*;

verus! {

/// Where the scan of visual lines finds a line's segment.
#[derive(Clone, Copy, Debug, PartialEq, Eq, Structural)]
pub enum LineSegment {
    /// The segment at this position of the projection.
    Found(usize),
    /// The line lies outside the segment that the scan reached.
    Missing,
    /// Lines went backwards: the line's segment must be looked up by range.
    Search,
}

/// The segment scan: the cursor and the start of the previous line.
#[derive(Clone, Copy, Debug, PartialEq, Eq, Structural)]
pub struct SegmentScan {
    pub cursor: usize,
    pub previous_start: Option<usize>,
}

/// The cursor moved forward past every later segment that starts at or before
/// `line_start`: starts from `cursor + 1` through `result` are at most
/// `line_start`, and the segment after `result`, if any, starts later.
pub open spec fn advanced(starts: Seq<usize>, cursor: int, line_start: int, result: int) -> bool {
    &&& cursor <= result
    &&& forall|k: int| cursor < k <= result ==> #[trigger] starts[k] <= line_start
    &&& (result + 1 >= starts.len() || starts[result + 1] > line_start)
}

/// Whether a segment holds a line: the line starts inside it, the line is the
/// whole segment, or both end together.
pub open spec fn holds_line(segment: (usize, usize), line: (usize, usize)) -> bool {
    ||| (segment.0 <= line.0 && line.0 < segment.1)
    ||| segment == line
    ||| segment.1 == line.1
}

/// Moves the cursor past every following segment that starts at or before
/// `line_start`.
pub fn advance_cursor(segments: &Vec<(usize, usize)>, cursor: usize, line_start: usize) -> (result: usize)
    ensures
        advanced(segments@.map_values(|s: (usize, usize)| s.0), cursor as int, line_start as int, result as int),
{
    let ghost starts = segments@.map_values(|s: (usize, usize)| s.0);
    let mut i = cursor;
    while i < segments.len() && i + 1 < segments.len() && segments[i + 1].0 <= line_start
        invariant
            cursor <= i,
            starts == segments@.map_values(|s: (usize, usize)| s.0),
            forall|k: int| cursor < k <= i ==> #[trigger] starts[k] <= line_start,
        decreases segments@.len() - i,
    {
        i += 1;
    }
    i
}

/// The segment of the next visual line `line`, given as its projected start
/// and end, and the scan after it. While lines move forward the scan walks the
/// segments once; a line that starts before the previous one asks for a
/// lookup by range and leaves the cursor where it was.
pub fn locate_line(segments: &Vec<(usize, usize)>, scan: SegmentScan, line: (usize, usize)) -> (found: (
    LineSegment,
    SegmentScan,
))
    ensures
        found.1.previous_start == Some(line.0),
        (match scan.previous_start {
            Some(p) => p > line.0,
            None => false,
        }) ==> found.0 == LineSegment::Search && found.1.cursor == scan.cursor,
        !(match scan.previous_start {
            Some(p) => p > line.0,
            None => false,
        }) ==> {
            &&& advanced(segments@.map_values(|s: (usize, usize)| s.0), scan.cursor as int, line.0 as int, found.1.cursor as int)
            &&& (found.0 == LineSegment::Found(found.1.cursor) <==> (found.1.cursor < segments@.len() && holds_line(segments@[found.1.cursor as int], line)))
            &&& (found.0 != LineSegment::Found(found.1.cursor) ==> found.0 == LineSegment::Missing)
        },
{
    let backwards = match scan.previous_start {
        Some(p) => p > line.0,
        None => false,
    };
    if backwards {
        return (LineSegment::Search, SegmentScan { cursor: scan.cursor, previous_start: Some(line.0) });
    }
    let cursor = advance_cursor(segments, scan.cursor, line.0);
    let next = SegmentScan { cursor, previous_start: Some(line.0) };
    if cursor < segments.len() {
        let segment = segments[cursor];
        let holds = (segment.0 <= line.0 && line.0 < segment.1) || (segment.0 == line.0 && segment.1 == line.1)
            || segment.1 == line.1;
        if holds {
            return (LineSegment::Found(cursor), next);
        }
    }
    (LineSegment::Missing, next)
}

/// The containers of a segment whose component bounds its lines extend.
#[derive(Debug)]
pub struct ComponentOwners {
    pub node: NodeId,
    pub root: NodeId,
    pub alert: Option<NodeId>,
    pub quote: Option<NodeId>,
    pub table: Option<NodeId>,
    pub list_ancestors: Vec<NodeId>,
    pub quote_ancestors: Vec<NodeId>,
}

pub open spec fn optional(id: Option<NodeId>) -> Seq<NodeId> {
    match id {
        Some(id) => seq![id],
        None => Seq::empty(),
    }
}

/// The segment's node, its root, its alert, quote and table if any, then its
/// list ancestors and its quote ancestors, in that order.
pub open spec fn owner_ids(owners: ComponentOwners) -> Seq<NodeId> {
    seq![owners.node, owners.root] + optional(owners.alert) + optional(owners.quote) + optional(owners.table)
        + owners.list_ancestors@ + owners.quote_ancestors@
}

fn push_optional(ids: &mut Vec<NodeId>, id: Option<NodeId>)
    ensures
        final(ids)@ == old(ids)@ + optional(id),
{
    if let Some(id) = id {
        ids.push(id);
    } else {
        assert(old(ids)@ + optional(id) =~= old(ids)@);
    }
}

fn push_all(ids: &mut Vec<NodeId>, more: &Vec<NodeId>)
    ensures
        final(ids)@ == old(ids)@ + more@,
{
    let mut i: usize = 0;
    while i < more.len()
        invariant
            i <= more@.len(),
            ids@ == old(ids)@ + more@.take(i as int),
        decreases more@.len() - i,
    {
        ids.push(more[i]);
        assert(old(ids)@ + more@.take(i + 1) =~= old(ids)@ + more@.take(i as int) + seq![more@[i as int]]);
        i += 1;
    }
    assert(more@.take(more@.len() as int) =~= more@);
}

/// Every component whose bounds a line of the segment extends.
pub fn component_ids(owners: &ComponentOwners) -> (ids: Vec<NodeId>)
    ensures
        ids@ == owner_ids(*owners),
{
    let mut ids: Vec<NodeId> = Vec::new();
    ids.push(owners.node);
    ids.push(owners.root);
    push_optional(&mut ids, owners.alert);
    push_optional(&mut ids, owners.quote);
    push_optional(&mut ids, owners.table);
    push_all(&mut ids, &owners.list_ancestors);
    push_all(&mut ids, &owners.quote_ancestors);
    assert(ids@ =~= owner_ids(*owners));
    ids
}

/// A visual row of a multi-column slot: the line of its first heading and the
/// columns whose first heading it has already anchored, one bit per track.
#[derive(Clone, Copy, Debug)]
pub struct HeadingRow {
    pub group: NodeId,
    pub row: usize,
    pub first_line: usize,
    pub columns: usize,
}

pub open spec fn claimed(columns: usize, track: usize) -> bool {
    columns & (1usize << track) != 0
}

/// Rows are told apart by their group and row.
pub open spec fn distinct_rows(rows: Seq<HeadingRow>) -> bool {
    forall|i: int, j: int| #![trigger rows[i], rows[j]] 0 <= i < j < rows.len() ==> (rows[i].group, rows[i].row) != (rows[j].group, rows[j].row)
}

/// Where the row `(group, row)` stands in `rows`, if it is there.
pub open spec fn row_index(rows: Seq<HeadingRow>, group: NodeId, row: usize) -> Option<int> {
    if exists|i: int| 0 <= i < rows.len() && rows[i].group == group && #[trigger] rows[i].row == row {
        Some(choose|i: int| 0 <= i < rows.len() && rows[i].group == group && #[trigger] rows[i].row == row)
    } else {
        None
    }
}

proof fn lemma_bits(columns: usize, track: usize, other: usize)
    requires
        track < usize::BITS,
        other < usize::BITS,
    ensures
        claimed(columns | (1usize << track), track),
        other != track ==> (claimed(columns | (1usize << track), other) == claimed(columns, other)),
        claimed(0, other) == false,
{
    assert((columns | (1usize << track)) & (1usize << track) != 0) by (bit_vector)
        requires
            track < usize::BITS,
    ;
    assert(other != track ==> ((columns | (1usize << track)) & (1usize << other) != 0) == (columns & (1usize << other) != 0))
        by (bit_vector)
        requires
            track < usize::BITS,
            other < usize::BITS,
    ;
    assert(0usize & (1usize << other) == 0) by (bit_vector);
}

/// The line whose top a heading in a multi-column slot takes. The first
/// heading of each column of a row aligns with the row's first heading;
/// a later heading in a column keeps its own line.
pub fn heading_row_line(rows: &mut Vec<HeadingRow>, group: NodeId, row: usize, track: usize, line: usize) -> (anchor: usize)
    requires
        distinct_rows(old(rows)@),
        track < usize::BITS,
    ensures
        distinct_rows(final(rows)@),
        exists|i: int| 0 <= i < final(rows)@.len() && final(rows)@[i].group == group && #[trigger] final(rows)@[i].row == row
            && claimed(final(rows)@[i].columns, track),
        match row_index(old(rows)@, group, row) {
            None => {
                &&& anchor == line
                &&& final(rows)@ == old(rows)@.push(HeadingRow { group, row, first_line: line, columns: 1usize << track })
            },
            Some(i) => {
                let r = old(rows)@[i];
                &&& anchor == (if claimed(r.columns, track) { line } else { r.first_line })
                &&& final(rows)@ == old(rows)@.update(i, HeadingRow { columns: r.columns | (1usize << track), ..r })
            },
        },
{
    let mut i: usize = 0;
    while i < rows.len()
        invariant
            i <= rows@.len(),
            rows@ == old(rows)@,
            distinct_rows(old(rows)@),
            track < usize::BITS,
            forall|k: int| 0 <= k < i ==> !(rows@[k].group == group && #[trigger] rows@[k].row == row),
        decreases rows@.len() - i,
    {
        if rows[i].group == group && rows[i].row == row {
            let found = rows[i];
            proof {
                let j = choose|j: int| 0 <= j < rows@.len() && rows@[j].group == group && #[trigger] rows@[j].row == row;
                if j != i {
                    if j < i {
                    } else {
                        assert((rows@[i as int].group, rows@[i as int].row) != (rows@[j].group, rows@[j].row));
                    }
                }
                assert(row_index(old(rows)@, group, row) == Some(i as int));
            }
            let bit: usize = 1usize << track;
            let anchor = if found.columns & bit == 0 {
                found.first_line
            } else {
                line
            };
            let updated = HeadingRow { columns: found.columns | bit, ..found };
            proof {
                lemma_bits(found.columns, track, track);
            }
            rows.set(i, updated);
            assert forall|a: int, b: int| #![trigger rows@[a], rows@[b]] 0 <= a < b < rows@.len() implies (rows@[a].group, rows@[a].row) != (rows@[b].group, rows@[b].row) by {
                assert(old(rows)@[a].group == rows@[a].group && old(rows)@[a].row == rows@[a].row);
                assert(old(rows)@[b].group == rows@[b].group && old(rows)@[b].row == rows@[b].row);
            }
            assert(rows@[i as int].row == row && claimed(rows@[i as int].columns, track));
            return anchor;
        }
        i += 1;
    }
    assert(row_index(old(rows)@, group, row) == None::<int>);
    let bit: usize = 1usize << track;
    proof {
        lemma_bits(0, track, track);
        assert(0usize | (1usize << track) == (1usize << track)) by (bit_vector);
    }
    rows.push(HeadingRow { group, row, first_line: line, columns: bit });
    assert forall|a: int, b: int| #![trigger rows@[a], rows@[b]] 0 <= a < b < rows@.len() implies (rows@[a].group, rows@[a].row) != (rows@[b].group, rows@[b].row) by {
        if b == rows@.len() - 1 {
            assert(!(old(rows)@[a].group == group && old(rows)@[a].row == row));
        } else {
            assert(rows@[a] == old(rows)@[a] && rows@[b] == old(rows)@[b]);
        }
    }
    assert(rows@[rows@.len() - 1].row == row && claimed(rows@[rows@.len() - 1].columns, track));
    line
}

/// The first line of a component after lines `paint_start..paint_end` were
/// replaced by `inserted` lines: lines from the replaced range's end on move
/// by the change in length; earlier lines stay.
pub open spec fn rebased_line(first_line: int, paint_start: int, paint_end: int, inserted: int) -> int {
    if first_line >= paint_end {
        first_line + inserted - (paint_end - paint_start)
    } else {
        first_line
    }
}

/// Where a component's first line stands after a localized edit replaced the
/// painted lines `paint_start..paint_end` with `inserted` lines.
pub fn rebase_first_line(first_line: usize, paint_start: usize, paint_end: usize, inserted: usize) -> (line: usize)
    requires
        paint_start <= paint_end,
        first_line + inserted <= usize::MAX,
    ensures
        line == rebased_line(first_line as int, paint_start as int, paint_end as int, inserted as int),
{
    if first_line >= paint_end {
        first_line + inserted - (paint_end - paint_start)
    } else {
        first_line
    }
}

} // verus!
