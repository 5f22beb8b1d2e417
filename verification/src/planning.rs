//! Decisions of the edit-locked adaptive plan that need no text measurement:
//! whether a row group can enter row search (including whether its images
//! resolved their dimensions), which images are still pending, which windows
//! are measured, which segments belong to each root, and which prose rows
//! follow a horizontal list grid.
use crate::model::{BlockKind, NodeId};
use crate::text::same_text;
use std::collections::HashMap;
use vstd::prelude::*;

verus! {

broadcast use vstd::std_specs::hash::group_hash_axioms;

/// What row-group measurement reads of one root before measuring it.
#[derive(Clone, Copy, Debug)]
pub struct RootShape {
    pub kind: BlockKind,
    /// The plan presents this root as an editorial module.
    pub editorial: bool,
    /// Every block inside an alert or quote is a paragraph.
    pub paragraphs_only: bool,
    /// The root's first segment is a margin note.
    pub margin_note: bool,
    /// Number of projected segments of the root.
    pub segments: usize,
    /// A timeline list with code, tables or nested blocks beside its labels.
    pub rich_timeline: bool,
    /// For an image, whether its own source resolved to a non-empty size
    /// (see `dimensions_resolved`).
    pub image_resolved: bool,
}

/// How a row group is measured.
#[derive(Clone, Copy, Debug, PartialEq, Eq, Structural)]
pub enum GroupMeasure {
    /// The editorial module measures its own group.
    Editorial,
    /// The group cannot enter row search.
    Unsupported,
    /// Measured root by root; `padded` groups are cards with an enclosing panel.
    Measured { padded: bool },
}

/// Kinds of root that row measurement understands.
pub open spec fn measurable_kind(kind: BlockKind) -> bool {
    ||| kind == BlockKind::Paragraph
    ||| kind == BlockKind::Heading
    ||| kind == BlockKind::List
    ||| kind matches BlockKind::CodeBlock { .. }
    ||| kind == BlockKind::Table
    ||| kind == BlockKind::Image
    ||| kind == BlockKind::Alert
    ||| kind == BlockKind::BlockQuote
}

/// A root that keeps a group out of row search: an unknown kind, an alert or
/// quote in a card or holding more than paragraphs, a quote that is not a
/// margin note, a root without segments, an image in a card, spread over
/// several segments or without resolved dimensions, a table in a card, or a
/// rich timeline.
pub open spec fn excluded_root(root: RootShape, cards: bool) -> bool {
    ||| !measurable_kind(root.kind)
    ||| (root.kind == BlockKind::Alert && (cards || !root.paragraphs_only))
    ||| (root.kind == BlockKind::BlockQuote && (cards || !root.paragraphs_only || !root.margin_note))
    ||| root.segments == 0
    ||| (root.kind == BlockKind::Image && (cards || root.segments != 1 || !root.image_resolved))
    ||| (root.kind == BlockKind::Table && cards)
    ||| (root.kind == BlockKind::List && root.rich_timeline)
}

pub open spec fn group_measure_spec(roots: Seq<RootShape>, cards: bool) -> GroupMeasure {
    if roots.len() > 0 && roots[0].editorial {
        GroupMeasure::Editorial
    } else if roots.len() > 4 || exists|i: int| 0 <= i < roots.len() && excluded_root(#[trigger] roots[i], cards) {
        GroupMeasure::Unsupported
    } else {
        GroupMeasure::Measured { padded: cards && !(roots.len() > 0 && roots[0].kind == BlockKind::Heading) }
    }
}

/// Decides how a row group is measured. Peer sections start with headings and
/// stay open; other card groups own a padded panel. Groups outside row search
/// (see `excluded_root`, which includes images whose dimensions did not
/// resolve) are unsupported. A measured group may still fail on what only
/// text measurement knows.
pub fn group_measure(roots: &Vec<RootShape>, cards: bool) -> (measure: GroupMeasure)
    ensures
        measure == group_measure_spec(roots@, cards),
{
    if roots.len() > 0 && roots[0].editorial {
        return GroupMeasure::Editorial;
    }
    if roots.len() > 4 {
        return GroupMeasure::Unsupported;
    }
    let mut i: usize = 0;
    while i < roots.len()
        invariant
            i <= roots@.len(),
            roots@.len() <= 4,
            !(roots@.len() > 0 && roots@[0].editorial),
            forall|j: int| 0 <= j < i ==> !excluded_root(#[trigger] roots@[j], cards),
        decreases roots@.len() - i,
    {
        let root = roots[i];
        let known = match root.kind {
            BlockKind::Paragraph | BlockKind::Heading | BlockKind::List | BlockKind::CodeBlock { .. }
            | BlockKind::Table | BlockKind::Image | BlockKind::Alert | BlockKind::BlockQuote => true,
            _ => false,
        };
        let alert = match root.kind {
            BlockKind::Alert => cards || !root.paragraphs_only,
            _ => false,
        };
        let quote = match root.kind {
            BlockKind::BlockQuote => cards || !root.paragraphs_only || !root.margin_note,
            _ => false,
        };
        let image = match root.kind {
            BlockKind::Image => cards || root.segments != 1 || !root.image_resolved,
            _ => false,
        };
        let table = match root.kind {
            BlockKind::Table => cards,
            _ => false,
        };
        let timeline = match root.kind {
            BlockKind::List => root.rich_timeline,
            _ => false,
        };
        if !known || alert || quote || root.segments == 0 || image || table || timeline {
            assert(excluded_root(roots@[i as int], cards));
            return GroupMeasure::Unsupported;
        }
        i += 1;
    }
    let heading_first = roots.len() > 0 && match roots[0].kind {
        BlockKind::Heading => true,
        _ => false,
    };
    GroupMeasure::Measured { padded: cards && !heading_first }
}

/// An image segment and what the loaded resources know of its image.
pub struct ImageSegment {
    pub node_id: NodeId,
    /// The source the segment shows.
    pub source: Option<String>,
    /// The source and intrinsic size that the image resources resolved.
    pub resolved: Option<(String, (u32, u32))>,
}

/// An image is pending until its own source resolved to a non-empty size.
pub open spec fn image_pending(image: ImageSegment) -> bool {
    match image.resolved {
        None => true,
        Some((source, (width, height))) => {
            ||| !(image.source matches Some(own) && own@ == source@)
            ||| width == 0
            ||| height == 0
        },
    }
}

pub open spec fn pending_images_spec(images: Seq<ImageSegment>) -> Seq<NodeId>
    decreases images.len(),
{
    if images.len() == 0 {
        Seq::empty()
    } else {
        let before = pending_images_spec(images.drop_last());
        if image_pending(images.last()) {
            before.push(images.last().node_id)
        } else {
            before
        }
    }
}

/// Whether an image's own source resolved to a non-empty size: dimensions
/// resolved for another source are never reused.
pub fn dimensions_resolved(image: &ImageSegment) -> (resolved: bool)
    ensures
        resolved == !image_pending(*image),
{
    match &image.resolved {
        None => false,
        Some((source, (width, height))) => shows_source(&image.source, source) && *width != 0 && *height != 0,
    }
}

fn shows_source(own: &Option<String>, source: &String) -> (shows: bool)
    ensures
        shows == (own matches Some(s) && s@ == source@),
{
    match own {
        Some(s) => same_text(s.as_str(), source.as_str()),
        None => false,
    }
}

/// Image segments whose dimensions are not yet known, in source order.
pub fn pending_images(images: &Vec<ImageSegment>) -> (pending: Vec<NodeId>)
    ensures
        pending@ == pending_images_spec(images@),
{
    let mut pending: Vec<NodeId> = Vec::new();
    let mut i: usize = 0;
    while i < images.len()
        invariant
            i <= images@.len(),
            pending@ == pending_images_spec(images@.take(i as int)),
        decreases images@.len() - i,
    {
        assert(images@.take(i + 1).drop_last() =~= images@.take(i as int));
        let image = &images[i];
        let waiting = !dimensions_resolved(image);
        if waiting {
            pending.push(image.node_id);
        }
        i += 1;
    }
    assert(images@.take(images@.len() as int) =~= images@);
    pending
}


/// A window of root ordinals, as a start and an end.
pub type Window = (usize, usize);

/// `s` with `w` placed after every window whose start is not later than its own.
pub open spec fn insert_by_start(s: Seq<Window>, w: Window) -> Seq<Window>
    decreases s.len(),
{
    if s.len() == 0 || s.last().0 <= w.0 {
        s.push(w)
    } else {
        insert_by_start(s.drop_last(), w).push(s.last())
    }
}

/// Windows ordered by start; windows with equal starts keep their order.
pub open spec fn sort_by_start(s: Seq<Window>) -> Seq<Window>
    decreases s.len(),
{
    if s.len() == 0 {
        s
    } else {
        insert_by_start(sort_by_start(s.drop_last()), s.last())
    }
}

/// `s` without each window that repeats the one just before it.
pub open spec fn dedup_windows(s: Seq<Window>) -> Seq<Window>
    decreases s.len(),
{
    if s.len() == 0 {
        s
    } else if s.len() > 1 && s[s.len() - 2] == s.last() {
        dedup_windows(s.drop_last())
    } else {
        dedup_windows(s.drop_last()).push(s.last())
    }
}

pub open spec fn starts_ascending(s: Seq<Window>) -> bool {
    forall|i: int, j: int| 0 <= i <= j < s.len() ==> s[i].0 <= s[j].0
}

proof fn lemma_insert_by_start(s: Seq<Window>, w: Window)
    requires
        starts_ascending(s),
    ensures
        starts_ascending(insert_by_start(s, w)),
        insert_by_start(s, w).len() == s.len() + 1,
        insert_by_start(s, w).to_multiset() == s.to_multiset().insert(w),
    decreases s.len(),
{
    broadcast use vstd::seq_lib::group_to_multiset_ensures;
    if s.len() == 0 || s.last().0 <= w.0 {
    } else {
        let t = s.drop_last();
        assert(starts_ascending(t));
        lemma_insert_by_start(t, w);
        let r = insert_by_start(t, w);
        assert forall|i: int| 0 <= i < r.len() implies r[i].0 <= s.last().0 by {
            assert(r.to_multiset().count(r[i]) > 0);
            assert(t.to_multiset().insert(w).count(r[i]) > 0);
            if r[i] != w {
                assert(t.to_multiset().count(r[i]) > 0);
                assert(t.contains(r[i]));
            }
        }
        assert(s =~= t.push(s.last()));
    }
}

proof fn lemma_sort_by_start(s: Seq<Window>)
    ensures
        starts_ascending(sort_by_start(s)),
        sort_by_start(s).to_multiset() == s.to_multiset(),
        sort_by_start(s).len() == s.len(),
    decreases s.len(),
{
    broadcast use vstd::seq_lib::group_to_multiset_ensures;
    if s.len() > 0 {
        lemma_sort_by_start(s.drop_last());
        lemma_insert_by_start(sort_by_start(s.drop_last()), s.last());
        assert(s =~= s.drop_last().push(s.last()));
    }
}

/// Where `w` goes in `s`: after the last window whose start is not later.
fn insertion_point(s: &Vec<Window>, w: Window) -> (p: usize)
    ensures
        p <= s@.len(),
        insert_by_start(s@, w) == s@.take(p as int).push(w) + s@.skip(p as int),
{
    let mut p: usize = s.len();
    assert(s@.take(p as int) =~= s@);
    assert(insert_by_start(s@, w) =~= insert_by_start(s@.take(p as int), w) + s@.skip(p as int));
    while p > 0 && s[p - 1].0 > w.0
        invariant
            p <= s@.len(),
            insert_by_start(s@, w) == insert_by_start(s@.take(p as int), w) + s@.skip(p as int),
        decreases p,
    {
        let ghost t = s@.take(p as int);
        assert(t.drop_last() =~= s@.take(p - 1));
        assert(s@.skip(p - 1) =~= seq![t.last()] + s@.skip(p as int));
        assert(insert_by_start(t, w) == insert_by_start(t.drop_last(), w).push(t.last()));
        assert(insert_by_start(t.drop_last(), w).push(t.last()) + s@.skip(p as int)
            =~= insert_by_start(t.drop_last(), w) + s@.skip(p - 1));
        p -= 1;
    }
    assert(s@.take(p as int).len() == 0 || s@.take(p as int).last().0 <= w.0);
    p
}

/// The windows to measure: ordered by start, equal starts in request order,
/// without a window that repeats the one before it.
pub fn measurement_windows(requested: &Vec<Window>) -> (windows: Vec<Window>)
    ensures
        windows@ == dedup_windows(sort_by_start(requested@)),
        starts_ascending(windows@),
        forall|w: Window| #[trigger] windows@.contains(w) <==> requested@.contains(w),
        forall|i: int| 0 < i < windows@.len() ==> #[trigger] windows@[i] != windows@[i - 1],
{
    let mut sorted: Vec<Window> = Vec::new();
    let mut i: usize = 0;
    while i < requested.len()
        invariant
            i <= requested@.len(),
            sorted@ == sort_by_start(requested@.take(i as int)),
        decreases requested@.len() - i,
    {
        let w = requested[i];
        let p = insertion_point(&sorted, w);
        let ghost before = sorted@;
        sorted.insert(p, w);
        assert(sorted@ =~= before.take(p as int).push(w) + before.skip(p as int));
        assert(requested@.take(i + 1).drop_last() =~= requested@.take(i as int));
        i += 1;
    }
    assert(requested@.take(requested@.len() as int) =~= requested@);
    proof {
        lemma_sort_by_start(requested@);
    }
    let mut windows: Vec<Window> = Vec::new();
    let mut j: usize = 0;
    while j < sorted.len()
        invariant
            j <= sorted@.len(),
            windows@ == dedup_windows(sorted@.take(j as int)),
            j > 0 ==> windows@.len() > 0 && windows@.last() == sorted@[j - 1],
            j == 0 ==> windows@.len() == 0,
        decreases sorted@.len() - j,
    {
        let w = sorted[j];
        let ghost t = sorted@.take(j + 1);
        assert(t.drop_last() =~= sorted@.take(j as int));
        let repeats = j > 0 && {
            let last = windows[windows.len() - 1];
            last.0 == w.0 && last.1 == w.1
        };
        if !repeats {
            windows.push(w);
        }
        j += 1;
    }
    assert(sorted@.take(sorted@.len() as int) =~= sorted@);
    proof {
        lemma_dedup_windows(sorted@);
        broadcast use vstd::seq_lib::group_to_multiset_ensures;
        assert forall|w: Window| #[trigger] sorted@.contains(w) <==> requested@.contains(w) by {
            assert(sorted@.to_multiset().count(w) == requested@.to_multiset().count(w));
        }
    }
    windows
}

proof fn lemma_dedup_windows(s: Seq<Window>)
    ensures
        forall|w: Window| #[trigger] dedup_windows(s).contains(w) <==> s.contains(w),
        forall|i: int| 0 < i < dedup_windows(s).len() ==> #[trigger] dedup_windows(s)[i] != dedup_windows(s)[i - 1],
        starts_ascending(s) ==> starts_ascending(dedup_windows(s)),
        s.len() > 0 ==> dedup_windows(s).len() > 0 && dedup_windows(s).last() == s.last(),
        dedup_windows(s).len() <= s.len(),
    decreases s.len(),
{
    if s.len() > 0 {
        let t = s.drop_last();
        lemma_dedup_windows(t);
        let d = dedup_windows(t);
        assert(s =~= t.push(s.last()));
        if starts_ascending(s) {
            assert(starts_ascending(t));
        }
        assert forall|w: Window| #[trigger] s.contains(w) <==> (t.contains(w) || w == s.last()) by {
            if s.contains(w) {
                let k = choose|k: int| 0 <= k < s.len() && s[k] == w;
                if k < t.len() {
                    assert(t[k] == w);
                }
            }
            if t.contains(w) {
                let k = choose|k: int| 0 <= k < t.len() && t[k] == w;
                assert(s[k] == w);
            }
            if w == s.last() {
                assert(s[s.len() - 1] == w);
            }
        }
        if s.len() > 1 && s[s.len() - 2] == s.last() {
            assert(t.last() == s.last());
            assert(t.contains(t.last()));
        } else {
            let r = d.push(s.last());
            assert forall|w: Window| #[trigger] r.contains(w) <==> (d.contains(w) || w == s.last()) by {
                if r.contains(w) {
                    let k = choose|k: int| 0 <= k < r.len() && r[k] == w;
                    if k < d.len() {
                        assert(d[k] == w);
                    }
                }
                if d.contains(w) {
                    let k = choose|k: int| 0 <= k < d.len() && d[k] == w;
                    assert(r[k] == w);
                }
                if w == s.last() {
                    assert(r[r.len() - 1] == w);
                }
            }
            if starts_ascending(s) && d.len() > 0 {
                assert forall|i: int, j: int| 0 <= i <= j < r.len() implies r[i].0 <= r[j].0 by {
                    if j == r.len() - 1 && i < j {
                        assert(d.contains(r[i]));
                        let k = choose|k: int| 0 <= k < t.len() && t[k] == r[i];
                        assert(s[k] == t[k]);
                    }
                }
            }
        }
    }
}


/// Positions in `roots` that hold `root`, ascending.
pub open spec fn indices_of(roots: Seq<NodeId>, root: NodeId) -> Seq<usize>
    decreases roots.len(),
{
    if roots.len() == 0 {
        Seq::empty()
    } else {
        let before = indices_of(roots.drop_last(), root);
        if roots.last() == root {
            before.push((roots.len() - 1) as usize)
        } else {
            before
        }
    }
}

/// The segments of each root: given the top-level root of every projected
/// segment, the positions of its segments in projection order, keyed by root.
pub fn segments_by_root(roots: &Vec<NodeId>) -> (segments: HashMap<NodeId, Vec<usize>>)
    ensures
        forall|root: NodeId| #[trigger] segments@.contains_key(root) <==> roots@.contains(root),
        forall|root: NodeId| #[trigger] segments@.contains_key(root) ==> segments@[root]@ == indices_of(roots@, root),
{
    let mut segments: HashMap<NodeId, Vec<usize>> = HashMap::new();
    let mut i: usize = 0;
    while i < roots.len()
        invariant
            i <= roots@.len(),
            forall|root: NodeId| #[trigger] segments@.contains_key(root) <==> roots@.take(i as int).contains(root),
            forall|root: NodeId| #[trigger] segments@.contains_key(root) ==> segments@[root]@ == indices_of(roots@.take(i as int), root),
        decreases roots@.len() - i,
    {
        let root = roots[i];
        let ghost before = segments@;
        let ghost prefix = roots@.take(i as int);
        let ghost next = roots@.take(i + 1);
        assert(next.drop_last() =~= prefix);
        assert(next.last() == root);
        let mut indices = match segments.remove(&root) {
            Some(v) => v,
            None => {
                proof {
                    assert(indices_of(prefix, root) =~= Seq::<usize>::empty()) by {
                        lemma_indices_absent(prefix, root);
                    }
                }
                Vec::new()
            },
        };
        indices.push(i);
        segments.insert(root, indices);
        assert forall|r: NodeId| #[trigger] segments@.contains_key(r) <==> next.contains(r) by {
            if next.contains(r) && r != root {
                let k = choose|k: int| 0 <= k < next.len() && next[k] == r;
                assert(prefix[k] == r);
            }
            if prefix.contains(r) {
                let k = choose|k: int| 0 <= k < prefix.len() && prefix[k] == r;
                assert(next[k] == r);
            }
            assert(next[i as int] == root);
        }
        i += 1;
    }
    assert(roots@.take(roots@.len() as int) =~= roots@);
    segments
}

proof fn lemma_indices_absent(roots: Seq<NodeId>, root: NodeId)
    requires
        !roots.contains(root),
    ensures
        indices_of(roots, root).len() == 0,
    decreases roots.len(),
{
    if roots.len() > 0 {
        assert(!roots.drop_last().contains(root)) by {
            if roots.drop_last().contains(root) {
                let k = choose|k: int| 0 <= k < roots.drop_last().len() && roots.drop_last()[k] == root;
                assert(roots[k] == root);
            }
        }
        assert(roots[roots.len() - 1] != root);
        lemma_indices_absent(roots.drop_last(), root);
    }
}


/// What the pass over prose after a horizontal list grid reads of one root.
#[derive(Clone, Copy, Debug, PartialEq, Eq, Structural)]
pub enum NearbyRoot {
    /// A list; `grid` when its measured layout is a grid.
    List { grid: bool },
    /// A paragraph or a heading.
    Prose,
    Other,
}

/// State of the pass: whether the roots since the last list still follow a
/// grid, and how many visual lines they have taken.
#[derive(Clone, Copy, Debug, PartialEq, Eq, Structural)]
pub struct NearbyGap {
    pub after_grid: bool,
    pub accumulated: usize,
}

pub open spec fn saturating_sum(a: usize, b: usize) -> usize {
    if a + b > usize::MAX {
        usize::MAX
    } else {
        (a + b) as usize
    }
}

/// Whether the pass needs the line count of `root`: a paragraph or heading
/// while the roots still follow a grid.
pub open spec fn wants_lines(state: NearbyGap, root: NearbyRoot) -> bool {
    state.after_grid && root == NearbyRoot::Prose
}

/// The next state, and the lines recorded for `root`. `lines` is the root's
/// line count, or nothing when it cannot be measured. A list restarts the
/// pass; prose after a grid is recorded until more than `limit` lines
/// follow the grid; anything else ends the run.
pub open spec fn nearby_step(state: NearbyGap, root: NearbyRoot, lines: Option<usize>, limit: usize) -> (NearbyGap, Option<usize>) {
    match root {
        NearbyRoot::List { grid } => (NearbyGap { after_grid: grid, accumulated: 0 }, None),
        NearbyRoot::Other => (NearbyGap { after_grid: false, ..state }, None),
        NearbyRoot::Prose => if !state.after_grid {
            (state, None)
        } else {
            match lines {
                None => (NearbyGap { after_grid: false, ..state }, None),
                Some(n) => {
                    let total = saturating_sum(state.accumulated, n);
                    (NearbyGap { after_grid: total <= limit, accumulated: total }, Some(n))
                },
            }
        },
    }
}

/// Whether the pass needs the line count of `root`.
pub fn nearby_wants_lines(state: NearbyGap, root: NearbyRoot) -> (wants: bool)
    ensures
        wants == wants_lines(state, root),
{
    state.after_grid && root == NearbyRoot::Prose
}

/// One step of the pass over the roots.
pub fn nearby_advance(state: NearbyGap, root: NearbyRoot, lines: Option<usize>, limit: usize) -> (next: (NearbyGap, Option<usize>))
    ensures
        next == nearby_step(state, root, lines, limit),
{
    match root {
        NearbyRoot::List { grid } => (NearbyGap { after_grid: grid, accumulated: 0 }, None),
        NearbyRoot::Other => (NearbyGap { after_grid: false, accumulated: state.accumulated }, None),
        NearbyRoot::Prose => {
            if !state.after_grid {
                (state, None)
            } else {
                match lines {
                    None => (NearbyGap { after_grid: false, accumulated: state.accumulated }, None),
                    Some(n) => {
                        let total = if state.accumulated > usize::MAX - n {
                            usize::MAX
                        } else {
                            state.accumulated + n
                        };
                        (NearbyGap { after_grid: total <= limit, accumulated: total }, Some(n))
                    },
                }
            }
        },
    }
}

/// The state after the pass read `roots`, and the lines it recorded so far.
pub open spec fn nearby_run(roots: Seq<(NodeId, NearbyRoot, Option<usize>)>, limit: usize) -> (NearbyGap, Seq<(NodeId, usize)>)
    decreases roots.len(),
{
    if roots.len() == 0 {
        (NearbyGap { after_grid: false, accumulated: 0 }, Seq::empty())
    } else {
        let (state, recorded) = nearby_run(roots.drop_last(), limit);
        let (id, root, lines) = roots.last();
        let (next, record) = nearby_step(state, root, lines, limit);
        match record {
            Some(n) => (next, recorded.push((id, n))),
            None => (next, recorded),
        }
    }
}

/// Line counts of the paragraphs and headings that follow a horizontal list
/// grid, root by root, for roots given with their line count where the pass
/// wants one. The pass stops recording once more than `limit` lines follow
/// the grid, and at any other kind of root.
pub fn nearby_gap_lines(roots: &Vec<(NodeId, NearbyRoot, Option<usize>)>, limit: usize) -> (recorded: Vec<(NodeId, usize)>)
    ensures
        recorded@ == nearby_run(roots@, limit).1,
{
    let mut state = NearbyGap { after_grid: false, accumulated: 0 };
    let mut recorded: Vec<(NodeId, usize)> = Vec::new();
    let mut i: usize = 0;
    while i < roots.len()
        invariant
            i <= roots@.len(),
            (state, recorded@) == nearby_run(roots@.take(i as int), limit),
        decreases roots@.len() - i,
    {
        let (id, root, lines) = roots[i];
        assert(roots@.take(i + 1).drop_last() =~= roots@.take(i as int));
        let (next, record) = nearby_advance(state, root, lines, limit);
        if let Some(n) = record {
            recorded.push((id, n));
        }
        state = next;
        i += 1;
    }
    assert(roots@.take(roots@.len() as int) =~= roots@);
    recorded
}

/// Every entry of `recorded` names a paragraph or heading of `roots` with the
/// line count it was given.
pub open spec fn records_prose(roots: Seq<(NodeId, NearbyRoot, Option<usize>)>, recorded: Seq<(NodeId, usize)>) -> bool {
    forall|k: int| 0 <= k < recorded.len() ==> exists|i: int|
        0 <= i < roots.len() && (#[trigger] roots[i]).0 == (#[trigger] recorded[k]).0
            && roots[i].1 == NearbyRoot::Prose && roots[i].2 == Some(recorded[k].1)
}

/// Every root the pass records is a paragraph or heading with its own line
/// count, and the pass records nothing before the first grid list.
pub proof fn lemma_nearby_records_prose(roots: Seq<(NodeId, NearbyRoot, Option<usize>)>, limit: usize)
    ensures
        records_prose(roots, nearby_run(roots, limit).1),
        (forall|i: int| 0 <= i < roots.len() ==> (#[trigger] roots[i]).1 != (NearbyRoot::List { grid: true }))
            ==> nearby_run(roots, limit).1.len() == 0 && !nearby_run(roots, limit).0.after_grid,
    decreases roots.len(),
{
    if roots.len() > 0 {
        let t = roots.drop_last();
        lemma_nearby_records_prose(t, limit);
        let (state, recorded) = nearby_run(t, limit);
        let r = nearby_run(roots, limit).1;
        assert forall|k: int| 0 <= k < r.len() implies exists|i: int|
            0 <= i < roots.len() && (#[trigger] roots[i]).0 == (#[trigger] r[k]).0
                && roots[i].1 == NearbyRoot::Prose && roots[i].2 == Some(r[k].1) by {
            if k < recorded.len() {
                assert(r[k] == recorded[k]);
                let i = choose|i: int| 0 <= i < t.len() && (#[trigger] t[i]).0 == recorded[k].0
                    && t[i].1 == NearbyRoot::Prose && t[i].2 == Some(recorded[k].1);
                assert(roots[i] == t[i]);
            } else {
                assert(roots[roots.len() - 1].0 == r[k].0);
            }
        }
        if forall|i: int| 0 <= i < roots.len() ==> (#[trigger] roots[i]).1 != (NearbyRoot::List { grid: true }) {
            assert forall|i: int| 0 <= i < t.len() implies (#[trigger] t[i]).1 != (NearbyRoot::List { grid: true }) by {
                assert(roots[i] == t[i]);
            }
            assert(roots[roots.len() - 1].1 != (NearbyRoot::List { grid: true }));
        }
    }
}

} // verus!
