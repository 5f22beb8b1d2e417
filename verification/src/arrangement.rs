//! Source-order arrangement decisions: card presentation breaks, the bounded
//! cache key of a row group, outer spacing between groups, and the checklist
//! summaries above task lists.
use crate::model::{BlockKind, NodeId, Segment};
use crate::text::{char_width, chars_of, decimal, is_blank, is_whitespace, push_decimal, push_str, utf8_len, utf8_width, whitespace};
use vstd::prelude::*;

verus! {

/// Stages of an authored sequence, split at each arrow; an empty text is one
/// empty stage.
pub open spec fn arrow_stages(s: Seq<char>) -> Seq<Seq<char>>
    decreases s.len(),
{
    if s.len() == 0 {
        seq![Seq::empty()]
    } else {
        let before = arrow_stages(s.drop_last());
        if s.last() == '→' {
            before.push(Seq::empty())
        } else {
            before.update(before.len() - 1, before.last().push(s.last()))
        }
    }
}

/// Byte offsets, within `s`, of its arrows.
pub open spec fn arrow_offsets(s: Seq<char>) -> Seq<int>
    decreases s.len(),
{
    if s.len() == 0 {
        Seq::empty()
    } else if s.last() == '→' {
        arrow_offsets(s.drop_last()).push(utf8_len(s.drop_last()) as int)
    } else {
        arrow_offsets(s.drop_last())
    }
}

/// A stage that a card may break out: not blank and at most 48 bytes.
pub open spec fn short_stage(stage: Seq<char>) -> bool {
    !is_blank(stage) && utf8_len(stage) <= 48
}

/// An authored sequence presented in stages: three to six short stages.
pub open spec fn staged_sequence(s: Seq<char>) -> bool {
    let stages = arrow_stages(s);
    &&& 3 <= stages.len() <= 6
    &&& forall|i: int| 0 <= i < stages.len() ==> short_stage(#[trigger] stages[i])
}

pub open spec fn strictly_increasing(v: Seq<usize>) -> bool {
    forall|i: int, j: int| 0 <= i < j < v.len() ==> v[i] < v[j]
}

/// The break positions of a card: the end of the authored label of a
/// paragraph, and each arrow of a staged list sequence; projected offsets.
pub open spec fn is_card_break(
    segment: Segment,
    block: Option<BlockKind>,
    label_end: Option<usize>,
    text: Seq<char>,
    cards: bool,
    x: int,
) -> bool {
    &&& block is Some
    &&& {
        ||| (cards && block == Some(BlockKind::Paragraph) && label_end is Some && x
            == segment.start + label_end.unwrap())
        ||| (cards && segment.context.list_depth > 0 && staged_sequence(text)
            && arrow_offsets(text).contains(x - segment.start))
    }
}

proof fn lemma_blank_push(s: Seq<char>, c: char)
    ensures
        is_blank(s.push(c)) == (is_blank(s) && is_whitespace(c)),
{
    if is_blank(s) && is_whitespace(c) {
        assert forall|i: int| 0 <= i < s.push(c).len() implies is_whitespace(#[trigger] s.push(c)[i]) by {
            if i < s.len() {
                assert(s.push(c)[i] == s[i]);
            }
        }
    }
    if is_blank(s.push(c)) {
        assert forall|i: int| 0 <= i < s.len() implies is_whitespace(#[trigger] s[i]) by {
            assert(s.push(c)[i] == s[i]);
        }
        assert(s.push(c)[s.len() as int] == c);
    }
}

proof fn lemma_utf8_len_push_char(s: Seq<char>, c: char)
    ensures
        utf8_len(s.push(c)) == utf8_len(s) + utf8_width(c),
{
    assert(s.push(c).drop_last() =~= s);
}

proof fn lemma_arrow_stages_nonempty(s: Seq<char>)
    ensures
        arrow_stages(s).len() >= 1,
        arrow_stages(s).len() <= s.len() + 1,
    decreases s.len(),
{
    if s.len() > 0 {
        lemma_arrow_stages_nonempty(s.drop_last());
    }
}

proof fn lemma_arrow_offsets_bounded(s: Seq<char>)
    ensures
        forall|i: int| 0 <= i < arrow_offsets(s).len() ==> 0 <= #[trigger] arrow_offsets(s)[i] < utf8_len(s),
        forall|i: int, j: int|
            0 <= i < j < arrow_offsets(s).len() ==> arrow_offsets(s)[i] < arrow_offsets(s)[j],
        arrow_offsets(s).len() <= s.len(),
    decreases s.len(),
{
    if s.len() > 0 {
        lemma_arrow_offsets_bounded(s.drop_last());
        assert(s =~= s.drop_last().push(s.last()));
        lemma_utf8_len_push_char(s.drop_last(), s.last());
    }
}

/// Where a card breaks its text: the end of a paragraph's authored label,
/// and the arrows of a staged list sequence. Ascending, without repeats.
pub fn card_presentation_breaks(
    segment: &Segment,
    block: Option<BlockKind>,
    label_end: Option<usize>,
    text: &str,
    cards: bool,
) -> (breaks: Vec<usize>)
    requires
        segment.start + utf8_len(text@) <= usize::MAX,
        label_end matches Some(end) ==> segment.start + end <= usize::MAX,
    ensures
        strictly_increasing(breaks@),
        forall|x: usize|
            breaks@.contains(x) <==> is_card_break(*segment, block, label_end, text@, cards, x as int),
{
    let mut breaks: Vec<usize> = Vec::new();
    if block.is_none() {
        return breaks;
    }
    let staged_list = cards && segment.context.list_depth > 0;
    if staged_list {
        let chars = chars_of(text);
        let mut arrows: Vec<usize> = Vec::new();
        let mut total: usize = 0;
        let mut stages: usize = 1;
        let mut stage_bytes: usize = 0;
        let mut stage_filled = false;
        let mut earlier_short = true;
        let mut i: usize = 0;
        while i < chars.len()
            invariant
                chars@ == text@,
                segment.start + utf8_len(text@) <= usize::MAX,
                i <= chars@.len(),
                total == utf8_len(chars@.take(i as int)),
                stages == arrow_stages(chars@.take(i as int)).len(),
                stages <= total + 1,
                stage_bytes == utf8_len(arrow_stages(chars@.take(i as int)).last()),
                stage_filled == !is_blank(arrow_stages(chars@.take(i as int)).last()),
                earlier_short == forall|j: int|
                    0 <= j < stages - 1 ==> short_stage(#[trigger] arrow_stages(chars@.take(i as int))[j]),
                arrows@.len() == arrow_offsets(chars@.take(i as int)).len(),
                forall|j: int|
                    0 <= j < arrows@.len() ==> #[trigger] arrows@[j] == segment.start + arrow_offsets(
                        chars@.take(i as int),
                    )[j],
            decreases chars@.len() - i,
        {
            let ghost prefix = chars@.take(i as int);
            let ghost next = chars@.take(i + 1);
            proof {
                assert(next =~= prefix.push(chars@[i as int]));
                assert(next.drop_last() =~= prefix);
                lemma_arrow_stages_nonempty(prefix);
                lemma_utf8_len_push_char(prefix, chars@[i as int]);
                lemma_utf8_len_take_le(chars@, i + 1);
                lemma_arrow_offsets_bounded(prefix);
            }
            let c = chars[i];
            let w = char_width(c);
            if c == '→' {
                let ghost st = arrow_stages(prefix);
                let ghost was_short = earlier_short;
                earlier_short = earlier_short && stage_filled && stage_bytes <= 48;
                proof {
                    let nst = arrow_stages(next);
                    assert(nst == st.push(Seq::empty()));
                    assert forall|j: int| 0 <= j < stages implies #[trigger] nst[j] == st[j] by {}
                    assert(utf8_width(c) == 3);
                    assert(short_stage(st[stages - 1]) == (stage_filled && stage_bytes <= 48));
                    if earlier_short {
                        assert forall|j: int| 0 <= j < stages implies short_stage(#[trigger] nst[j]) by {
                            if j < stages - 1 {
                                assert(short_stage(st[j]));
                            }
                        }
                    } else {
                        if was_short {
                            assert(!short_stage(nst[stages - 1]));
                        } else {
                            let k = choose|k: int| 0 <= k < stages - 1 && !short_stage(#[trigger] st[k]);
                            assert(nst[k] == st[k]);
                        }
                    }
                }
                arrows.push(segment.start + total);
                stages = stages + 1;
                stage_bytes = 0;
                stage_filled = false;
                proof {
                    assert(utf8_len(Seq::<char>::empty()) == 0);
                    assert(is_blank(Seq::<char>::empty()));
                }
            } else {
                proof {
                    let st = arrow_stages(prefix);
                    let nst = arrow_stages(next);
                    assert(nst == st.update(st.len() - 1, st.last().push(c)));
                    lemma_blank_push(st.last(), c);
                    lemma_utf8_len_push_char(st.last(), c);
                    assert forall|j: int| 0 <= j < stages - 1 implies #[trigger] nst[j] == st[j] by {}
                    lemma_stage_bytes_bounded(prefix);
                    if earlier_short {
                        assert forall|j: int| 0 <= j < stages - 1 implies short_stage(#[trigger] nst[j]) by {
                            assert(short_stage(st[j]));
                        }
                    } else {
                        let k = choose|k: int| 0 <= k < stages - 1 && !short_stage(#[trigger] st[k]);
                        assert(nst[k] == st[k]);
                    }
                }
                stage_bytes = stage_bytes + w;
                stage_filled = stage_filled || !whitespace(c);
            }
            total = total + w;
            i += 1;
        }
        proof {
            assert(chars@.take(chars@.len() as int) =~= chars@);
        }
        let staged = 3 <= stages && stages <= 6 && earlier_short && stage_filled && stage_bytes <= 48;
        proof {
            let st = arrow_stages(text@);
            if staged {
                assert forall|j: int| 0 <= j < st.len() implies short_stage(#[trigger] st[j]) by {}
            }
            if staged_sequence(text@) {
                assert(short_stage(st[stages - 1]));
                assert forall|j: int| 0 <= j < stages - 1 implies short_stage(#[trigger] st[j]) by {}
            }
            assert(staged == staged_sequence(text@));
            lemma_arrow_offsets_bounded(text@);
        }
        if staged {
            breaks = arrows;
        }
    }
    let label = if cards && matches!(block, Some(BlockKind::Paragraph)) {
        match label_end {
            Some(end) => Some(segment.start + end),
            None => None,
        }
    } else {
        None
    };
    assert(strictly_increasing(breaks@));
    let result = match label {
        Some(x) => insert_sorted(breaks, x),
        None => breaks,
    };
    proof {
        assert forall|x: usize|
            result@.contains(x) <==> is_card_break(*segment, block, label_end, text@, cards, x as int) by {
            if staged_list && staged_sequence(text@) && arrow_offsets(text@).contains(x - segment.start) {
                let j = choose|j: int|
                    0 <= j < arrow_offsets(text@).len() && arrow_offsets(text@)[j] == x - segment.start;
                assert(breaks@[j] == x);
            }
        }
    }
    result
}

proof fn lemma_utf8_len_take_le(s: Seq<char>, i: int)
    requires
        0 <= i <= s.len(),
    ensures
        utf8_len(s.take(i)) <= utf8_len(s),
    decreases s.len() - i,
{
    if i < s.len() {
        assert(s.take(i + 1).drop_last() =~= s.take(i));
        lemma_utf8_len_take_le(s, i + 1);
    } else {
        assert(s.take(i) =~= s);
    }
}

proof fn lemma_stage_bytes_bounded(s: Seq<char>)
    ensures
        utf8_len(arrow_stages(s).last()) <= utf8_len(s),
    decreases s.len(),
{
    if s.len() > 0 {
        let p = s.drop_last();
        lemma_stage_bytes_bounded(p);
        lemma_arrow_stages_nonempty(p);
        assert(s =~= p.push(s.last()));
        lemma_utf8_len_push_char(p, s.last());
        if s.last() != '→' {
            lemma_utf8_len_push_char(arrow_stages(p).last(), s.last());
        }
    }
}

/// Pieces of the display line `[start, end)`, split at each break that falls
/// strictly inside what remains of it, taking the breaks in order.
pub open spec fn split_pieces(start: usize, end: usize, breaks: Seq<usize>) -> Seq<(usize, usize)>
    decreases breaks.len(),
{
    if breaks.len() == 0 {
        seq![(start, end)]
    } else if start < breaks[0] && breaks[0] < end {
        seq![(start, breaks[0])] + split_pieces(breaks[0], end, breaks.drop_first())
    } else {
        split_pieces(start, end, breaks.drop_first())
    }
}

/// The pieces tile the line: the first starts it, the last ends it, each
/// begins where the one before ended, and only a line that is empty yields an
/// empty piece.
pub open spec fn tiles(pieces: Seq<(usize, usize)>, start: usize, end: usize) -> bool {
    &&& pieces.len() > 0
    &&& pieces[0].0 == start
    &&& pieces.last().1 == end
    &&& forall|i: int| 0 <= i < pieces.len() - 1 ==> (#[trigger] pieces[i]).1 == pieces[i + 1].0
    &&& forall|i: int| 0 <= i < pieces.len() ==> ((#[trigger] pieces[i]).0 < pieces[i].1 || (start == end
        && pieces.len() == 1))
}

/// Splitting at breaks tiles a line whose start is not after its end.
pub proof fn lemma_split_tiles(start: usize, end: usize, breaks: Seq<usize>)
    requires
        start <= end,
    ensures
        tiles(split_pieces(start, end, breaks), start, end),
    decreases breaks.len(),
{
    if breaks.len() > 0 {
        let b = breaks[0];
        if start < b && b < end {
            lemma_split_tiles(b, end, breaks.drop_first());
            let rest = split_pieces(b, end, breaks.drop_first());
            let all = seq![(start, b)] + rest;
            assert forall|i: int| 0 <= i < all.len() - 1 implies (#[trigger] all[i]).1 == all[i + 1].0 by {
                if i > 0 {
                    assert(all[i] == rest[i - 1]);
                    assert(all[i + 1] == rest[i]);
                }
            }
            assert forall|i: int| 0 <= i < all.len() implies ((#[trigger] all[i]).0 < all[i].1 || (start == end
                && all.len() == 1)) by {
                if i > 0 {
                    assert(all[i] == rest[i - 1]);
                }
            }
        } else {
            lemma_split_tiles(start, end, breaks.drop_first());
        }
    }
}

/// Splits one display line of a card's segment at its presentation breaks,
/// so a card's label and each stage start lines of their own.
pub fn split_at_breaks(start: usize, end: usize, breaks: &Vec<usize>) -> (pieces: Vec<(usize, usize)>)
    ensures
        pieces@ == split_pieces(start, end, breaks@),
        start <= end ==> tiles(pieces@, start, end),
{
    let mut pieces: Vec<(usize, usize)> = Vec::new();
    let mut current = start;
    let mut i: usize = 0;
    assert(breaks@.skip(0) =~= breaks@);
    assert(pieces@ + split_pieces(current, end, breaks@.skip(0)) =~= split_pieces(start, end, breaks@));
    while i < breaks.len()
        invariant
            i <= breaks@.len(),
            pieces@ + split_pieces(current, end, breaks@.skip(i as int)) == split_pieces(start, end, breaks@),
        decreases breaks@.len() - i,
    {
        let b = breaks[i];
        let ghost rest = breaks@.skip(i as int);
        assert(rest.drop_first() =~= breaks@.skip(i + 1));
        assert(rest[0] == b);
        if current < b && b < end {
            assert(pieces@.push((current, b)) + split_pieces(b, end, breaks@.skip(i + 1)) =~= pieces@ + (seq![
                (current, b),
            ] + split_pieces(b, end, breaks@.skip(i + 1))));
            pieces.push((current, b));
            current = b;
        }
        i += 1;
    }
    assert(breaks@.skip(i as int) =~= Seq::<usize>::empty());
    pieces.push((current, end));
    proof {
        if start <= end {
            lemma_split_tiles(start, end, breaks@);
        }
    }
    pieces
}

/// `v` with `x` in its place, unless `v` holds it already.
pub fn insert_sorted(v: Vec<usize>, x: usize) -> (out: Vec<usize>)
    requires
        strictly_increasing(v@),
    ensures
        strictly_increasing(out@),
        forall|y: usize| out@.contains(y) <==> (v@.contains(y) || y == x),
{
    let mut p: usize = 0;
    while p < v.len() && v[p] < x
        invariant
            p <= v@.len(),
            forall|k: int| 0 <= k < p ==> v@[k] < x,
        decreases v@.len() - p,
    {
        p += 1;
    }
    if p < v.len() && v[p] == x {
        assert(v@[p as int] == x);
        return v;
    }
    let ghost before = v@;
    let mut out = v;
    assert(out@ == before);
    out.insert(p, x);
    proof {
        assert(out@ =~= before.take(p as int).push(x) + before.skip(p as int));
        assert forall|i: int, j: int| 0 <= i < j < out@.len() implies out@[i] < out@[j] by {
            if j < p {
            } else if j == p {
            } else if i < p {
                assert(before[i] < x);
                assert(out@[j] == before[j - 1]);
                assert(x < before[p as int] || p == before.len());
            } else if i == p {
                assert(out@[j] == before[j - 1]);
                assert(x <= before[p as int]);
                assert(before[p as int] != x);
            } else {
                assert(out@[j] == before[j - 1]);
                assert(out@[i] == before[i - 1]);
            }
        }
        assert forall|y: usize| out@.contains(y) <==> (before.contains(y) || y == x) by {
            if out@.contains(y) {
                let k = choose|k: int| 0 <= k < out@.len() && out@[k] == y;
                if k < p {
                    assert(before[k] == y);
                } else if k > p {
                    assert(before[k - 1] == y);
                }
            }
            if before.contains(y) {
                let k = choose|k: int| 0 <= k < before.len() && before[k] == y;
                if k < p {
                    assert(out@[k] == y);
                } else {
                    assert(out@[k + 1] == y);
                }
            }
            if y == x {
                assert(out@[p as int] == x);
            }
        }
        assert(before == v@);
        assert(forall|y: usize| out@.contains(y) <==> (v@.contains(y) || y == x));
    }
    out
}

/// Largest root group whose measurement is cached.
pub const CACHED_GROUP_ROOTS: usize = 4;

/// Most segments a cached group may hold.
pub const CACHED_GROUP_SEGMENTS: usize = 512;

/// Most bytes of text, counting 32 per HTML disclosure override, in a cached group.
pub const CACHED_GROUP_BYTES: usize = 64 * 1024;

/// Longest image source that a cache key may hold.
pub const CACHED_IMAGE_SOURCE: usize = 4096;

/// What a group's cache key reads of one root.
pub struct RootFootprint {
    /// Projected length and HTML disclosure override count of each segment of
    /// the root; `None` when the root has no segments.
    pub segments: Option<Vec<(usize, usize)>>,
    /// Length of the source of an image root.
    pub image_source_len: Option<usize>,
    /// Whether the projection holds a content handle for the root.
    pub has_handle: bool,
}

/// Bytes that a root's segments add to a key: text plus 32 per override.
pub open spec fn footprint_bytes(segments: Seq<(usize, usize)>) -> nat
    decreases segments.len(),
{
    if segments.len() == 0 {
        0
    } else {
        footprint_bytes(segments.drop_last()) + segments.last().0 as nat + 32 * (segments.last().1 as nat)
    }
}

pub open spec fn root_admitted(root: RootFootprint) -> bool {
    &&& root.segments is Some
    &&& root.has_handle
    &&& root.image_source_len matches Some(n) ==> n <= CACHED_IMAGE_SOURCE
}

pub open spec fn group_segments(roots: Seq<RootFootprint>) -> nat
    decreases roots.len(),
{
    if roots.len() == 0 {
        0
    } else {
        group_segments(roots.drop_last()) + match roots.last().segments {
            Some(v) => v@.len(),
            None => 0,
        }
    }
}

pub open spec fn group_bytes(roots: Seq<RootFootprint>) -> nat
    decreases roots.len(),
{
    if roots.len() == 0 {
        0
    } else {
        group_bytes(roots.drop_last()) + match roots.last().segments {
            Some(v) => footprint_bytes(v@),
            None => 0,
        }
    }
}

/// Whether a group of roots gets a retained cache key: one to four roots,
/// each with segments and a content handle, no image source over 4096 bytes,
/// at most 512 segments and at most 64 KiB of keyed text. Larger groups are
/// measured uncached with the same eligibility and renderer.
pub open spec fn group_key_fits_spec(roots: Seq<RootFootprint>) -> bool {
    &&& 1 <= roots.len() <= CACHED_GROUP_ROOTS
    &&& forall|i: int| 0 <= i < roots.len() ==> root_admitted(#[trigger] roots[i])
    &&& group_segments(roots) <= CACHED_GROUP_SEGMENTS
    &&& group_bytes(roots) <= CACHED_GROUP_BYTES
}

proof fn lemma_footprint_prefix(segments: Seq<(usize, usize)>, i: int)
    requires
        0 <= i <= segments.len(),
    ensures
        footprint_bytes(segments.take(i)) <= footprint_bytes(segments),
    decreases segments.len() - i,
{
    if i < segments.len() {
        assert(segments.take(i + 1).drop_last() =~= segments.take(i));
        lemma_footprint_prefix(segments, i + 1);
    } else {
        assert(segments.take(i) =~= segments);
    }
}

proof fn lemma_group_prefix(roots: Seq<RootFootprint>, i: int)
    requires
        0 <= i <= roots.len(),
    ensures
        group_segments(roots.take(i)) <= group_segments(roots),
        group_bytes(roots.take(i)) <= group_bytes(roots),
    decreases roots.len() - i,
{
    if i < roots.len() {
        assert(roots.take(i + 1).drop_last() =~= roots.take(i));
        lemma_group_prefix(roots, i + 1);
    } else {
        assert(roots.take(i) =~= roots);
    }
}

/// Sizes that counting a root's footprint keeps inside `usize`.
pub open spec fn addressable(root: RootFootprint) -> bool {
    match root.segments {
        Some(v) => v@.len() <= usize::MAX - CACHED_GROUP_SEGMENTS && forall|k: int|
            0 <= k < v@.len() ==> 32 * (#[trigger] v@[k]).1 <= usize::MAX,
        None => true,
    }
}

/// Whether a root group is small enough for a retained measurement key.
#[verifier::loop_isolation(false)]
pub fn group_key_fits(roots: &Vec<RootFootprint>) -> (fits: bool)
    requires
        forall|i: int|
            0 <= i < roots@.len() ==> addressable(#[trigger] roots@[i]),
    ensures
        fits == group_key_fits_spec(roots@),
{
    if roots.len() == 0 || roots.len() > CACHED_GROUP_ROOTS {
        return false;
    }
    let mut count: usize = 0;
    let mut bytes: usize = 0;
    let mut r: usize = 0;
    while r < roots.len()
        invariant
            1 <= roots@.len() <= CACHED_GROUP_ROOTS,
            forall|i: int|
                0 <= i < roots@.len() ==> addressable(#[trigger] roots@[i]),
            r <= roots@.len(),
            forall|i: int| 0 <= i < r ==> root_admitted(#[trigger] roots@[i]),
            count == group_segments(roots@.take(r as int)),
            bytes == group_bytes(roots@.take(r as int)),
            count <= CACHED_GROUP_SEGMENTS,
            bytes <= CACHED_GROUP_BYTES,
        decreases roots@.len() - r,
    {
        assert(roots@.take(r + 1).drop_last() =~= roots@.take(r as int));
        let root = &roots[r];
        let segments = match &root.segments {
            Some(v) => v,
            None => return false,
        };
        count = count + segments.len();
        if count > CACHED_GROUP_SEGMENTS {
            proof {
                lemma_group_prefix(roots@, r + 1);
            }
            return false;
        }
        let mut root_bytes: usize = 0;
        let mut k: usize = 0;
        while k < segments.len()
            invariant
                k <= segments@.len(),
                forall|j: int| 0 <= j < segments@.len() ==> 32 * (#[trigger] segments@[j]).1 <= usize::MAX,
                root_bytes == footprint_bytes(segments@.take(k as int)),
                bytes + root_bytes <= CACHED_GROUP_BYTES,
                bytes <= CACHED_GROUP_BYTES,
            decreases segments@.len() - k,
        {
            assert(segments@.take(k + 1).drop_last() =~= segments@.take(k as int));
            let (len, overrides) = segments[k];
            let extra = overrides * 32;
            if len > CACHED_GROUP_BYTES - bytes - root_bytes || extra > CACHED_GROUP_BYTES - bytes - root_bytes - len {
                proof {
                    lemma_footprint_prefix(segments@, k + 1);
                    lemma_group_prefix(roots@, r + 1);
                }
                return false;
            }
            root_bytes = root_bytes + len + extra;
            k += 1;
        }
        assert(segments@.take(k as int) =~= segments@);
        if let Some(n) = root.image_source_len {
            if n > CACHED_IMAGE_SOURCE {
                return false;
            }
        }
        if !root.has_handle {
            return false;
        }
        bytes = bytes + root_bytes;
        r += 1;
    }
    assert(roots@.take(roots@.len() as int) =~= roots@);
    true
}

/// Bibliography entries among segments, as a segment node and the entry's
/// owner, in the order of `indexes`.
pub open spec fn keyed_citations(segments: Seq<Segment>, indexes: Seq<usize>) -> Seq<(NodeId, NodeId)>
    decreases indexes.len(),
{
    if indexes.len() == 0 {
        Seq::empty()
    } else {
        let before = keyed_citations(segments, indexes.drop_last());
        let s = segments[indexes.last() as int];
        match s.context.bibliography {
            Some(owner) => before.push((s.node_id, owner)),
            None => before,
        }
    }
}

/// `node`, if one of the segments at `indexes` belongs to it.
pub open spec fn owned_node(segments: Seq<Segment>, indexes: Seq<usize>, node: Option<NodeId>) -> Option<NodeId> {
    match node {
        Some(n) => if exists|k: int| 0 <= k < indexes.len() && segments[#[trigger] indexes[k] as int].node_id == n {
            Some(n)
        } else {
            None
        },
        None => None,
    }
}

/// What a root's measurement key records of its segments besides content.
#[derive(Debug, PartialEq, Eq)]
pub struct RootKeyFacts {
    /// Bibliography entries, as segment node and owner.
    pub citations: Vec<(NodeId, NodeId)>,
    /// The formula being edited, if it lies in this root.
    pub math_edit: Option<NodeId>,
    /// The code block whose terminal row is expanded, if it lies in this root.
    pub expanded_code_tail: Option<NodeId>,
    /// The root's first segment starts the document.
    pub starts_document: bool,
}

fn owns_node(segments: &Vec<Segment>, indexes: &Vec<usize>, node: Option<NodeId>) -> (owned: Option<NodeId>)
    requires
        forall|k: int| 0 <= k < indexes@.len() ==> #[trigger] indexes@[k] < segments@.len(),
    ensures
        owned == owned_node(segments@, indexes@, node),
{
    let n = match node {
        Some(n) => n,
        None => return None,
    };
    let mut k: usize = 0;
    while k < indexes.len()
        invariant
            k <= indexes@.len(),
            node == Some(n),
            forall|j: int| 0 <= j < indexes@.len() ==> #[trigger] indexes@[j] < segments@.len(),
            forall|j: int| 0 <= j < k ==> segments@[#[trigger] indexes@[j] as int].node_id != n,
        decreases indexes@.len() - k,
    {
        if segments[indexes[k]].node_id == n {
            assert(segments@[indexes@[k as int] as int].node_id == n);
            return Some(n);
        }
        k += 1;
    }
    None
}

/// Whether `facts` are the key facts of the root whose segments are at `indexes`.
pub open spec fn facts_of(
    facts: RootKeyFacts,
    segments: Seq<Segment>,
    indexes: Seq<usize>,
    preview_edit_node: Option<NodeId>,
    expanded_code_tail: Option<NodeId>,
) -> bool {
    &&& facts.citations@ == keyed_citations(segments, indexes)
    &&& facts.math_edit == owned_node(segments, indexes, preview_edit_node)
    &&& facts.expanded_code_tail == owned_node(segments, indexes, expanded_code_tail)
    &&& facts.starts_document == (indexes.len() > 0 && segments[indexes[0] as int].start == 0)
}

/// The per-segment facts of a root's measurement key: its bibliography
/// entries, the edited formula and expanded code tail when they lie in the
/// root, and whether the root starts the document.
pub fn root_key_facts(
    segments: &Vec<Segment>,
    indexes: &Vec<usize>,
    preview_edit_node: Option<NodeId>,
    expanded_code_tail: Option<NodeId>,
) -> (facts: RootKeyFacts)
    requires
        forall|k: int| 0 <= k < indexes@.len() ==> #[trigger] indexes@[k] < segments@.len(),
    ensures
        facts_of(facts, segments@, indexes@, preview_edit_node, expanded_code_tail),
{
    let mut citations: Vec<(NodeId, NodeId)> = Vec::new();
    let mut k: usize = 0;
    while k < indexes.len()
        invariant
            k <= indexes@.len(),
            forall|j: int| 0 <= j < indexes@.len() ==> #[trigger] indexes@[j] < segments@.len(),
            citations@ == keyed_citations(segments@, indexes@.take(k as int)),
        decreases indexes@.len() - k,
    {
        assert(indexes@.take(k + 1).drop_last() =~= indexes@.take(k as int));
        let s = &segments[indexes[k]];
        if let Some(owner) = s.context.bibliography {
            citations.push((s.node_id, owner));
        }
        k += 1;
    }
    assert(indexes@.take(indexes@.len() as int) =~= indexes@);
    let starts_document = indexes.len() > 0 && segments[indexes[0]].start == 0;
    RootKeyFacts {
        citations,
        math_edit: owns_node(segments, indexes, preview_edit_node),
        expanded_code_tail: owns_node(segments, indexes, expanded_code_tail),
        starts_document,
    }
}

/// The widths a table root's key records, as `f32` bit patterns, and
/// whether the table uses its record layout.
#[derive(Debug, PartialEq, Eq)]
pub struct TableKey {
    pub minimum: Vec<u32>,
    pub preferred: Vec<u32>,
    pub fitted: Vec<u32>,
    pub records: bool,
}

/// What a root's measurement key records besides its segments, as read from
/// the presentation plan and the projection.
#[derive(Debug, PartialEq, Eq)]
pub struct RootKeyInput {
    /// Identity of the root's content.
    pub content: u64,
    /// The root's first segment is narrative text.
    pub narrative: bool,
    /// The root's first segment is a metadata list.
    pub metadata: bool,
    /// The editorial module the root belongs to, if any.
    pub editorial: Option<u64>,
    pub lead: bool,
    pub steps: bool,
    /// The image and role of figure text in the root's first segment.
    pub figure_text: Option<(NodeId, u64)>,
    /// Quote roles of the root's segments.
    pub quote_roles: Vec<(NodeId, u64)>,
    /// The resolved source and size of an image root.
    pub image: Option<(String, (u32, u32))>,
    pub table: Option<TableKey>,
    /// HTML disclosure overrides and image keys of the root's segments.
    pub html_disclosures: Vec<(NodeId, Vec<u64>)>,
    pub html_images: Vec<(NodeId, u64)>,
}

/// One root's entry in a group's measurement key.
#[derive(Debug, PartialEq, Eq)]
pub struct RootKey {
    pub facts: RootKeyFacts,
    pub given: RootKeyInput,
}

/// The measurement key of a row group: one entry per root, the canvas width
/// as an `f32` bit pattern, whether the group is measured as cards, the gap
/// between each adjacent pair of roots as an `f32` bit pattern, the footnote
/// numbering and the command-strip lock.
#[derive(Debug, PartialEq, Eq)]
pub struct GroupKey {
    pub roots: Vec<RootKey>,
    pub width: u32,
    pub cards: bool,
    pub gaps: Vec<u32>,
    pub footnotes: Vec<u64>,
    pub command_strip_lock: Option<(NodeId, Option<u32>)>,
}

/// The retained measurement key of a row group, or nothing when the group is
/// too large for one (see `group_key_fits_spec`). `indexes[r]` holds the
/// positions of root `r`'s segments among `segments`, `inputs[r]` what its
/// key records besides them, and `gaps[r]` the gap between roots `r` and
/// `r + 1`.
pub fn group_key(
    roots: &Vec<RootFootprint>,
    segments: &Vec<Segment>,
    indexes: &Vec<Vec<usize>>,
    preview_edit_node: Option<NodeId>,
    expanded_code_tail: Option<NodeId>,
    inputs: Vec<RootKeyInput>,
    width_bits: u32,
    cards: bool,
    gaps: &Vec<u32>,
    footnotes: Vec<u64>,
    command_strip_lock: Option<(NodeId, Option<u32>)>,
) -> (key: Option<GroupKey>)
    requires
        forall|i: int| 0 <= i < roots@.len() ==> addressable(#[trigger] roots@[i]),
        indexes@.len() == roots@.len(),
        inputs@.len() == roots@.len(),
        roots@.len() > 0 ==> gaps@.len() == roots@.len() - 1,
        forall|r: int, k: int|
            0 <= r < indexes@.len() && 0 <= k < indexes@[r]@.len() ==> #[trigger] indexes@[r]@[k] < segments@.len(),
    ensures
        key is Some <==> group_key_fits_spec(roots@),
        key matches Some(k) ==> {
            &&& k.width == width_bits
            &&& k.cards == cards
            &&& k.roots@.len() == roots@.len()
            &&& k.gaps@ == gaps@
            &&& k.gaps@.len() == roots@.len() - 1
            &&& k.footnotes == footnotes
            &&& k.command_strip_lock == command_strip_lock
            &&& forall|r: int| 0 <= r < roots@.len() ==> {
                &&& facts_of(
                    (#[trigger] k.roots@[r]).facts,
                    segments@,
                    indexes@[r]@,
                    preview_edit_node,
                    expanded_code_tail,
                )
                &&& k.roots@[r].given == inputs@[r]
            }
        },
{
    if !group_key_fits(roots) {
        return None;
    }
    let ghost given = inputs@;
    let mut inputs = inputs;
    let mut entries: Vec<RootKey> = Vec::new();
    let mut r: usize = 0;
    while r < indexes.len()
        invariant
            r <= indexes@.len(),
            indexes@.len() == given.len(),
            entries@.len() == r,
            inputs@ == given.skip(r as int),
            forall|q: int, k: int|
                0 <= q < indexes@.len() && 0 <= k < indexes@[q]@.len() ==> #[trigger] indexes@[q]@[k] < segments@.len(),
            forall|q: int| 0 <= q < r ==> {
                &&& facts_of(
                    (#[trigger] entries@[q]).facts,
                    segments@,
                    indexes@[q]@,
                    preview_edit_node,
                    expanded_code_tail,
                )
                &&& entries@[q].given == given[q]
            },
        decreases indexes@.len() - r,
    {
        let facts = root_key_facts(segments, &indexes[r], preview_edit_node, expanded_code_tail);
        let entry_input = inputs.remove(0);
        assert(inputs@ =~= given.skip(r + 1));
        assert(entry_input == given[r as int]);
        entries.push(RootKey { facts, given: entry_input });
        r += 1;
    }
    let mut copied: Vec<u32> = Vec::new();
    let mut g: usize = 0;
    while g < gaps.len()
        invariant
            g <= gaps@.len(),
            copied@ == gaps@.take(g as int),
        decreases gaps@.len() - g,
    {
        copied.push(gaps[g]);
        assert(gaps@.take(g + 1) =~= gaps@.take(g as int).push(gaps@[g as int]));
        g += 1;
    }
    assert(gaps@.take(gaps@.len() as int) =~= gaps@);
    Some(GroupKey { roots: entries, width: width_bits, cards, gaps: copied, footnotes, command_strip_lock })
}

/// Checklists whose progress summary appears, in the order their first
/// visible line appears; each visible line gives its top-level node and
/// whether that node is a checklist, or nothing when it has no segment.
pub open spec fn summarized_checklists(visible: Seq<Option<(NodeId, bool)>>) -> Seq<NodeId>
    decreases visible.len(),
{
    if visible.len() == 0 {
        Seq::empty()
    } else {
        let before = summarized_checklists(visible.drop_last());
        match visible.last() {
            Some((id, true)) => if before.contains(id) {
                before
            } else {
                before.push(id)
            },
            _ => before,
        }
    }
}

/// The checklists that show a progress summary, each once.
pub fn checklist_summaries(visible: &Vec<Option<(NodeId, bool)>>) -> (ids: Vec<NodeId>)
    ensures
        ids@ == summarized_checklists(visible@),
{
    let mut ids: Vec<NodeId> = Vec::new();
    let mut i: usize = 0;
    while i < visible.len()
        invariant
            i <= visible@.len(),
            ids@ == summarized_checklists(visible@.take(i as int)),
        decreases visible@.len() - i,
    {
        assert(visible@.take(i + 1).drop_last() =~= visible@.take(i as int));
        if let Some((id, true)) = visible[i] {
            let mut seen = false;
            let mut k: usize = 0;
            while k < ids.len()
                invariant
                    k <= ids@.len(),
                    seen == exists|j: int| 0 <= j < k && ids@[j] == id,
                decreases ids@.len() - k,
            {
                if ids[k] == id {
                    seen = true;
                }
                k += 1;
            }
            if !seen {
                ids.push(id);
            }
        }
        i += 1;
    }
    assert(visible@.take(visible@.len() as int) =~= visible@);
    ids
}

/// The progress line of a checklist summary.
pub fn checklist_progress(completed: usize, count: usize) -> (label: String)
    ensures
        label@ == decimal(completed as nat) + " of "@ + decimal(count as nat) + " complete"@,
{
    let mut label = String::new();
    push_decimal(&mut label, completed);
    push_str(&mut label, " of ");
    push_decimal(&mut label, count);
    push_str(&mut label, " complete");
    label
}

/// An outer margin that group spacing removes from a component's first or
/// last line; each names a constant of the document style.
#[derive(Clone, Copy, Debug, PartialEq, Eq, Structural)]
pub enum Margin {
    Zero,
    Seven,
    Eight,
    Sixteen,
    Twenty,
    TwentyFour,
    EquationGap,
    BibliographyGap,
}

/// The gap a group's first line receives.
#[derive(Clone, Copy, Debug, PartialEq, Eq, Structural)]
pub enum Gap {
    /// The group continues a slot: its gap is left as it was.
    Unchanged,
    /// The first group of the document: no gap.
    Opening,
    /// The first group of the document is a heading: 8 px.
    OpeningHeading,
    /// The plan's relationship gap between two roots.
    Between { previous: NodeId, root: NodeId },
}

/// What the spacing pass reads of one visual line.
#[derive(Clone, Copy, Debug)]
pub struct SpacingLine {
    /// Top-level node of the line's segment, if it has a segment whose root
    /// block exists.
    pub root: Option<NodeId>,
    pub root_is_heading: bool,
    /// Block of the line's own segment.
    pub block: Option<BlockKind>,
    /// Slot group of the line and whether the slot presents cards.
    pub slot: Option<(NodeId, bool)>,
    /// Whether the line's slot and the previous line's slot share a column.
    pub same_column_as_previous_line: bool,
    pub table_cell: bool,
    pub code_preview: bool,
    pub starts_document: bool,
    /// Quotes and attributions own their outer paragraph margin.
    pub no_outer_paragraph_margin: bool,
    pub bibliography: bool,
    pub lead: bool,
}

/// Spacing decisions for one run of lines sharing a top-level root.
#[derive(Clone, Copy, Debug, PartialEq, Eq, Structural)]
pub struct GroupSpacing {
    pub start: usize,
    pub end: usize,
    pub gap: Gap,
    /// Outer margin removed above the first line, if it is removed.
    pub trim_above: Option<Margin>,
    /// Outer margin removed below the last line, if it is removed.
    pub trim_below: Option<Margin>,
}

/// The renderer's old external margin above a component's first line.
pub open spec fn margin_above(line: SpacingLine) -> Margin {
    if line.code_preview {
        Margin::EquationGap
    } else if line.block == Some(BlockKind::Heading) {
        if line.starts_document {
            Margin::Eight
        } else {
            Margin::Twenty
        }
    } else if line.block matches Some(BlockKind::CodeBlock { .. }) || line.block == Some(BlockKind::Image) {
        Margin::Eight
    } else {
        Margin::Zero
    }
}

/// The renderer's old external margin below a component's last line.
pub open spec fn margin_below(line: SpacingLine) -> Margin {
    if line.code_preview {
        Margin::EquationGap
    } else if line.no_outer_paragraph_margin {
        Margin::Zero
    } else if line.bibliography {
        Margin::BibliographyGap
    } else if line.block == Some(BlockKind::Heading) {
        Margin::Seven
    } else if line.lead {
        Margin::TwentyFour
    } else {
        Margin::Sixteen
    }
}

/// End of the run of lines that share the root of `lines[start]`.
pub open spec fn run_end(lines: Seq<SpacingLine>, start: int, i: int) -> int
    decreases lines.len() - i,
{
    if i >= lines.len() || lines[i].root != lines[start].root {
        i
    } else {
        run_end(lines, start, i + 1)
    }
}

/// Spacing for the run starting at `start`, after a run with root `previous`.
pub open spec fn group_spacing_at(lines: Seq<SpacingLine>, start: int, end: int, previous: Option<NodeId>) -> GroupSpacing {
    let first = lines[start];
    let last = lines[end - 1];
    let previous_slot = if start > 0 {
        lines[start - 1].slot
    } else {
        None
    };
    let continues = first.slot is Some && previous_slot is Some && first.slot.unwrap().0 == previous_slot.unwrap().0;
    let same_column = first.slot is Some && previous_slot is Some && !first.slot.unwrap().1
        && first.same_column_as_previous_line;
    let gap = if !continues || same_column {
        match previous {
            None => if first.root_is_heading {
                Gap::OpeningHeading
            } else {
                Gap::Opening
            },
            Some(p) => Gap::Between { previous: p, root: first.root.unwrap() },
        }
    } else {
        Gap::Unchanged
    };
    let open = first.slot is None || !first.slot.unwrap().1;
    GroupSpacing {
        start: start as usize,
        end: end as usize,
        gap,
        trim_above: if open && !first.table_cell {
            Some(margin_above(first))
        } else {
            None
        },
        trim_below: if open && !last.table_cell {
            Some(margin_below(last))
        } else {
            None
        },
    }
}

/// The spacing of every run from `start` on, until a line without a root.
pub open spec fn spacing_from(lines: Seq<SpacingLine>, start: int, previous: Option<NodeId>) -> Seq<GroupSpacing>
    decreases lines.len() - start,
{
    if start < 0 || start >= lines.len() || lines[start].root is None {
        Seq::empty()
    } else {
        let end = run_end(lines, start, start + 1);
        if end <= start || end > lines.len() {
            Seq::empty()
        } else {
            seq![group_spacing_at(lines, start, end, previous)] + spacing_from(lines, end, lines[start].root)
        }
    }
}

proof fn lemma_run_end(lines: Seq<SpacingLine>, start: int, i: int)
    requires
        0 <= start < i <= lines.len(),
        forall|j: int| start <= j < i ==> lines[j].root == lines[start].root,
    ensures
        i <= run_end(lines, start, i) <= lines.len(),
        forall|j: int| start <= j < run_end(lines, start, i) ==> lines[j].root == lines[start].root,
        run_end(lines, start, i) < lines.len() ==> lines[run_end(lines, start, i)].root != lines[start].root,
    decreases lines.len() - i,
{
    if i < lines.len() && lines[i].root == lines[start].root {
        lemma_run_end(lines, start, i + 1);
    }
}

/// The run starting at `s` continues the slot group of the line before it.
pub open spec fn continues_slot(lines: Seq<SpacingLine>, s: int) -> bool {
    &&& s > 0
    &&& lines[s - 1].slot is Some
    &&& lines[s].slot is Some
    &&& lines[s].slot.unwrap().0 == lines[s - 1].slot.unwrap().0
}

/// What every spacing decision satisfies, read off the lines alone: a run is
/// a non-empty range of the lines; its gap is left unchanged exactly when it
/// continues the previous line's slot group and is not an open slot sharing
/// that line's column; a relationship gap names the root before and the
/// run's own root; and only the document's first run opens the document.
pub open spec fn spacing_law(lines: Seq<SpacingLine>, group: GroupSpacing) -> bool {
    let s = group.start as int;
    &&& s < group.end <= lines.len()
    &&& (group.gap == Gap::Unchanged <==> continues_slot(lines, s) && !(!lines[s].slot.unwrap().1
        && lines[s].same_column_as_previous_line))
    &&& (group.gap matches Gap::Between { previous, root } ==> s > 0 && lines[s - 1].root == Some(previous)
        && lines[s].root == Some(root))
    &&& (group.gap == Gap::Opening || group.gap == Gap::OpeningHeading) ==> s == 0
}

/// Every spacing decision of the runs from `start` on satisfies the spacing law.
pub proof fn lemma_spacing_law(lines: Seq<SpacingLine>, start: int, previous: Option<NodeId>)
    requires
        0 <= start,
        lines.len() <= usize::MAX,
        start == 0 ==> previous is None,
        0 < start <= lines.len() ==> previous is Some && previous == lines[start - 1].root,
    ensures
        forall|g: int| 0 <= g < spacing_from(lines, start, previous).len() ==> spacing_law(
            lines,
            #[trigger] spacing_from(lines, start, previous)[g],
        ),
    decreases lines.len() - start,
{
    if !(start < 0 || start >= lines.len() || lines[start].root is None) {
        lemma_run_end(lines, start, start + 1);
        let end = run_end(lines, start, start + 1);
        if !(end <= start || end > lines.len()) {
            assert(lines[end - 1].root == lines[start].root);
            lemma_spacing_law(lines, end, lines[start].root);
            let all = spacing_from(lines, start, previous);
            let rest = spacing_from(lines, end, lines[start].root);
            assert forall|g: int| 0 <= g < all.len() implies spacing_law(lines, #[trigger] all[g]) by {
                if g > 0 {
                    assert(all[g] == rest[g - 1]);
                } else {
                    let first = group_spacing_at(lines, start, end, previous);
                    assert(all[0] == first);
                    assert(first.start as int == start);
                    assert(first.end as int == end);
                    assert(lines[start].root is Some);
                    if start > 0 {
                        assert(previous is Some);
                    }
                }
            }
        }
    }
}

/// Separates outside whitespace from component insets: which gap each run of
/// a root's lines receives, and which outer margins its first and last lines
/// lose. Table spacing moves the whole row, not just its first cell.
pub fn group_spacing(lines: &Vec<SpacingLine>) -> (groups: Vec<GroupSpacing>)
    ensures
        groups@ == spacing_from(lines@, 0, None),
        forall|g: int| 0 <= g < groups@.len() ==> spacing_law(lines@, #[trigger] groups@[g]),
        forall|g: int|
            0 <= g < groups@.len() && (#[trigger] groups@[g]).gap == Gap::Unchanged ==> continues_slot(
                lines@,
                groups@[g].start as int,
            ),
{
    proof {
        assert(lines@.len() == lines.len());
        lemma_spacing_law(lines@, 0, None);
    }
    let mut groups: Vec<GroupSpacing> = Vec::new();
    let mut start: usize = 0;
    let mut previous: Option<NodeId> = None;
    while start < lines.len() && lines[start].root.is_some()
        invariant
            start <= lines@.len(),
            groups@ + spacing_from(lines@, start as int, previous) == spacing_from(lines@, 0, None),
        decreases lines@.len() - start,
    {
        let root = lines[start].root;
        let mut end = start + 1;
        while end < lines.len() && lines[end].root == root
            invariant
                start < end <= lines@.len(),
                lines@[start as int].root == root,
                run_end(lines@, start as int, start + 1) == run_end(lines@, start as int, end as int),
            decreases lines@.len() - end,
        {
            end += 1;
        }
        proof {
            lemma_run_end(lines@, start as int, start + 1);
        }
        let first = lines[start];
        let last = lines[end - 1];
        let previous_slot = if start > 0 {
            lines[start - 1].slot
        } else {
            None
        };
        let continues = match (first.slot, previous_slot) {
            (Some((group, _)), Some((before, _))) => group == before,
            _ => false,
        };
        let same_column = match (first.slot, previous_slot) {
            (Some((_, cards)), Some(_)) => !cards && first.same_column_as_previous_line,
            _ => false,
        };
        let gap = if !continues || same_column {
            match previous {
                None => if first.root_is_heading {
                    Gap::OpeningHeading
                } else {
                    Gap::Opening
                },
                Some(p) => Gap::Between { previous: p, root: first.root.unwrap() },
            }
        } else {
            Gap::Unchanged
        };
        let open = match first.slot {
            Some((_, cards)) => !cards,
            None => true,
        };
        let trim_above = if open && !first.table_cell {
            Some(above(&first))
        } else {
            None
        };
        let trim_below = if open && !last.table_cell {
            Some(below(&last))
        } else {
            None
        };
        let group = GroupSpacing { start, end, gap, trim_above, trim_below };
        proof {
            assert(group == group_spacing_at(lines@, start as int, end as int, previous));
            assert(groups@.push(group) + spacing_from(lines@, end as int, root) =~= groups@ + spacing_from(
                lines@,
                start as int,
                previous,
            ));
        }
        groups.push(group);
        previous = root;
        start = end;
    }
    assert(spacing_from(lines@, start as int, previous) =~= Seq::<GroupSpacing>::empty());
    assert(groups@ + Seq::<GroupSpacing>::empty() =~= groups@);
    groups
}

fn above(line: &SpacingLine) -> (m: Margin)
    ensures
        m == margin_above(*line),
{
    if line.code_preview {
        Margin::EquationGap
    } else {
        match line.block {
            Some(BlockKind::Heading) => if line.starts_document {
                Margin::Eight
            } else {
                Margin::Twenty
            },
            Some(BlockKind::CodeBlock { .. }) | Some(BlockKind::Image) => Margin::Eight,
            _ => Margin::Zero,
        }
    }
}

fn below(line: &SpacingLine) -> (m: Margin)
    ensures
        m == margin_below(*line),
{
    if line.code_preview {
        Margin::EquationGap
    } else if line.no_outer_paragraph_margin {
        Margin::Zero
    } else if line.bibliography {
        Margin::BibliographyGap
    } else if line.block == Some(BlockKind::Heading) {
        Margin::Seven
    } else if line.lead {
        Margin::TwentyFour
    } else {
        Margin::Sixteen
    }
}

} // verus!
