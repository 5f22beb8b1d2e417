//! A pressure-triggered outline tree, with explicit source-backed parent context.
use crate::segmentation::{concat, extended_graphemes, graphemes_of};
use crate::model::{BlockKind, SegmentContext};
use crate::text::{blank, char_width, chars_of, decimal, is_blank, push_decimal, push_str, utf8_len, utf8_width};
use vstd::prelude::*;

verus! {

/// Byte budget of a parent excerpt, before the ellipsis.
pub const EXCERPT_BYTES: usize = 1024;

/// Grapheme budget of a parent excerpt.
pub const EXCERPT_GRAPHEMES: usize = 96;

/// Length of the longest prefix of `s` whose UTF-8 encoding fits in `budget` bytes.
pub open spec fn fitting_prefix(s: Seq<char>, budget: int) -> nat
    decreases s.len(),
{
    if s.len() == 0 || utf8_width(s[0]) > budget {
        0
    } else {
        1 + fitting_prefix(s.drop_first(), budget - utf8_width(s[0]))
    }
}

/// How many of the clusters `parts` of the byte-bounded prefix of `s` an
/// excerpt keeps: at most 96, and never the final cluster of a prefix that
/// cut the source, since that cluster may continue past the cut.
pub open spec fn kept_count(s: Seq<char>, parts: Seq<Seq<char>>) -> nat {
    let k = fitting_prefix(s, EXCERPT_BYTES as int);
    let g = parts.len();
    if g > EXCERPT_GRAPHEMES {
        EXCERPT_GRAPHEMES as nat
    } else if k < s.len() && g > 0 {
        (g - 1) as nat
    } else {
        g
    }
}

/// Line breaks become spaces in a one-line caption.
pub open spec fn caption_char(c: char) -> char {
    if c == '\n' || c == '\r' {
        ' '
    } else {
        c
    }
}

/// The caption text of `s` given the clusters `parts` of its byte-bounded
/// prefix: whole leading clusters, line breaks as spaces, and an ellipsis
/// where the source continues.
pub open spec fn excerpt_of(s: Seq<char>, parts: Seq<Seq<char>>) -> Seq<char> {
    let kept = concat(parts.take(kept_count(s, parts) as int));
    let shown = kept.map_values(|c: char| caption_char(c));
    if kept.len() < s.len() {
        shown.push('…')
    } else {
        shown
    }
}

/// The caption text of a parent item, over the extended grapheme clusters of
/// its longest prefix within the byte budget.
pub open spec fn parent_excerpt_spec(s: Seq<char>) -> Seq<char> {
    excerpt_of(s, extended_graphemes(s.take(fitting_prefix(s, EXCERPT_BYTES as int) as int)))
}

proof fn lemma_utf8_len_push(s: Seq<char>, k: int)
    requires
        0 <= k < s.len(),
    ensures
        utf8_len(s.take(k + 1)) == utf8_len(s.take(k)) + utf8_width(s[k]),
{
    assert(s.take(k + 1).drop_last() =~= s.take(k));
}

proof fn lemma_concat_push(parts: Seq<Seq<char>>, i: int)
    requires
        0 <= i < parts.len(),
    ensures
        concat(parts.take(i + 1)) == concat(parts.take(i)) + parts[i],
{
    assert(parts.take(i + 1).drop_last() =~= parts.take(i));
}

/// Length, in characters, of the longest prefix of `chars` that fits in
/// `budget` UTF-8 bytes.
fn fitting_prefix_len(chars: &Vec<char>, budget: usize) -> (k: usize)
    ensures
        k == fitting_prefix(chars@, budget as int),
        k <= chars@.len(),
        utf8_len(chars@.take(k as int)) <= budget,
{
    let mut k: usize = 0;
    let mut bytes: usize = 0;
    assert(chars@.skip(0) =~= chars@);
    assert(chars@.take(0) =~= Seq::<char>::empty());
    while k < chars.len() && char_width(chars[k]) <= budget - bytes
        invariant
            k <= chars@.len(),
            bytes <= budget,
            bytes == utf8_len(chars@.take(k as int)),
            fitting_prefix(chars@, budget as int) == k + fitting_prefix(
                chars@.skip(k as int),
                budget - bytes,
            ),
        decreases chars@.len() - k,
    {
        proof {
            lemma_utf8_len_push(chars@, k as int);
            assert(chars@.skip(k as int).drop_first() =~= chars@.skip(k + 1));
            assert(chars@.skip(k as int)[0] == chars@[k as int]);
        }
        bytes = bytes + char_width(chars[k]);
        k = k + 1;
    }
    proof {
        if k < chars@.len() {
            assert(chars@.skip(k as int)[0] == chars@[k as int]);
        } else {
            assert(chars@.skip(k as int).len() == 0);
        }
    }
    k
}

proof fn lemma_concat_take(parts: Seq<Seq<char>>, m: int)
    requires
        0 <= m <= parts.len(),
    ensures
        concat(parts.take(m)).len() <= concat(parts).len(),
        concat(parts.take(m)) == concat(parts).take(concat(parts.take(m)).len() as int),
    decreases parts.len(),
{
    if m == parts.len() {
        assert(parts.take(m) =~= parts);
        assert(concat(parts).take(concat(parts).len() as int) =~= concat(parts));
    } else {
        let init = parts.drop_last();
        assert(init.take(m) =~= parts.take(m));
        lemma_concat_take(init, m);
        assert(concat(parts) == concat(init) + parts.last());
        assert(concat(parts.take(m)) =~= concat(parts).take(concat(parts.take(m)).len() as int));
    }
}

proof fn lemma_utf8_len_take(s: Seq<char>, i: int)
    requires
        0 <= i <= s.len(),
    ensures
        utf8_len(s.take(i)) <= utf8_len(s),
    decreases s.len() - i,
{
    if i < s.len() {
        lemma_utf8_len_push(s, i);
        lemma_utf8_len_take(s, i + 1);
    } else {
        assert(s.take(i) =~= s);
    }
}

proof fn lemma_utf8_len_caption(s: Seq<char>)
    ensures
        utf8_len(s.map_values(|c: char| caption_char(c))) == utf8_len(s),
    decreases s.len(),
{
    if s.len() > 0 {
        lemma_utf8_len_caption(s.drop_last());
        assert(s.map_values(|c: char| caption_char(c)).drop_last() =~= s.drop_last().map_values(
            |c: char| caption_char(c),
        ));
    }
}

/// The source prefix of `p` characters with line breaks blanked, followed by
/// an ellipsis when the source continues.
pub open spec fn blanked_prefix(s: Seq<char>, p: int) -> Seq<char> {
    let shown = s.take(p).map_values(|c: char| caption_char(c));
    if p < s.len() {
        shown.push('…')
    } else {
        shown
    }
}

/// A bounded, one-line excerpt of a parent item's projected text. Bytes are
/// bounded as well as clusters, so one adversarial combining cluster cannot
/// make the caption scan a whole paragraph.
pub fn parent_excerpt(source: &str) -> (excerpt: String)
    ensures
        excerpt@ == parent_excerpt_spec(source@),
        utf8_len(excerpt@) <= EXCERPT_BYTES + 3,
        exists|p: int| 0 <= p <= source@.len() && excerpt@ == blanked_prefix(source@, p),
{
    let chars = chars_of(source);
    let k = fitting_prefix_len(&chars, EXCERPT_BYTES);
    let prefix = source.substring_char(0, k);
    let parts = graphemes_of(prefix);
    assert(prefix@ == source@.take(k as int));
    excerpt_from_clusters(source, &parts)
}

/// The excerpt of `source`, given the clusters of its longest prefix within
/// the byte budget: at most 96 whole clusters, never the last cluster of a
/// prefix that cut the source, with line breaks as spaces and an ellipsis
/// where the source continues.
pub fn excerpt_from_clusters(source: &str, clusters: &Vec<String>) -> (excerpt: String)
    requires
        concat(clusters@.map_values(|p: String| p@)) == source@.take(fitting_prefix(source@, EXCERPT_BYTES as int) as int),
    ensures
        excerpt@ == excerpt_of(source@, clusters@.map_values(|p: String| p@)),
        utf8_len(excerpt@) <= EXCERPT_BYTES + 3,
        exists|p: int| 0 <= p <= source@.len() && excerpt@ == blanked_prefix(source@, p),
{
    let chars = chars_of(source);
    let k = fitting_prefix_len(&chars, EXCERPT_BYTES);
    let ghost views = clusters@.map_values(|p: String| p@);
    let g = clusters.len();
    let m = if g > EXCERPT_GRAPHEMES {
        EXCERPT_GRAPHEMES
    } else if k < chars.len() && g > 0 {
        g - 1
    } else {
        g
    };
    assert(m == kept_count(source@, views));
    let mut kept: Vec<char> = Vec::new();
    let mut i: usize = 0;
    while i < m
        invariant
            m <= clusters@.len(),
            i <= m,
            views == clusters@.map_values(|p: String| p@),
            kept@ == concat(views.take(i as int)),
        decreases m - i,
    {
        let piece = chars_of(clusters[i].as_str());
        let mut j: usize = 0;
        let ghost before = kept@;
        while j < piece.len()
            invariant
                j <= piece@.len(),
                kept@ == before + piece@.take(j as int),
            decreases piece@.len() - j,
        {
            kept.push(piece[j]);
            assert(piece@.take(j + 1) =~= piece@.take(j as int).push(piece@[j as int]));
            j += 1;
        }
        proof {
            assert(piece@.take(j as int) =~= piece@);
            lemma_concat_push(views, i as int);
        }
        i += 1;
    }
    let mut excerpt = String::new();
    let mut j: usize = 0;
    while j < kept.len()
        invariant
            j <= kept@.len(),
            excerpt@ == kept@.take(j as int).map_values(|c: char| caption_char(c)),
        decreases kept@.len() - j,
    {
        let c = kept[j];
        excerpt.push(if c == '\n' || c == '\r' { ' ' } else { c });
        assert(kept@.take(j + 1).map_values(|c: char| caption_char(c)) =~= kept@.take(
            j as int,
        ).map_values(|c: char| caption_char(c)).push(caption_char(kept@[j as int])));
        j += 1;
    }
    assert(kept@.take(kept@.len() as int) =~= kept@);
    proof {
        lemma_concat_take(views, m as int);
        let p = kept@.len() as int;
        assert(kept@ =~= source@.take(p));
        lemma_utf8_len_take(source@.take(k as int), p);
        lemma_utf8_len_caption(kept@);
        let shown = kept@.map_values(|c: char| caption_char(c));
        assert(shown.push('…').drop_last() =~= shown);
        assert(utf8_width('…') == 3);
    }
    if kept.len() < chars.len() {
        excerpt.push('…');
    }
    assert(excerpt@ =~= blanked_prefix(source@, kept@.len() as int));
    excerpt
}

/// Whether a segment's outline turns into the compact tree: deeper than three
/// levels while the canvas beside its inset is under pressure.
pub open spec fn compacts(context: SegmentContext, pressured: bool) -> bool {
    context.outline_metrics matches Some((depth, _)) && depth > 3 && pressured
}

/// The segment context used for layout. `pressured` says whether the canvas
/// less the outline's inset is narrower than 320 px; the canonical context is
/// never changed.
pub fn prepare(context: &SegmentContext, pressured: bool) -> (prepared: SegmentContext)
    ensures
        prepared == if compacts(*context, pressured) {
            (SegmentContext { compact_outline: true, ..*context })
        } else {
            *context
        },
{
    let compact = match context.outline_metrics {
        Some((depth, _)) => depth > 3 && pressured,
        None => false,
    };
    if !compact {
        return *context;
    }
    let mut prepared = *context;
    prepared.compact_outline = true;
    prepared
}

/// Headers belong to compact branch starts below the second level: an item
/// at depth two or less, outside the compact tree, not starting a branch,
/// without a marker or without a parent never carries one, and every item
/// that has all of these does.
pub proof fn lemma_header_needs_depth(context: SegmentContext)
    ensures
        context.list_depth <= 2 ==> !has_header_spec(context),
        !context.compact_outline || !context.list_branch_start || !context.has_list_marker ==> !has_header_spec(context),
        context.list_parent_label is None ==> !has_header_spec(context),
        context.compact_outline && context.list_depth > 2 && context.list_branch_start && context.has_list_marker
            && context.list_parent_label is Some ==> has_header_spec(context),
{
}

/// Whether a compact branch start carries a caption naming its parent.
pub open spec fn has_header_spec(context: SegmentContext) -> bool {
    &&& context.compact_outline
    &&& context.list_depth > 2
    &&& context.list_branch_start
    &&& context.has_list_marker
    &&& context.list_parent_label is Some
}

/// Whether a compact branch start carries a caption naming its parent.
pub fn has_header(context: &SegmentContext) -> (header: bool)
    ensures
        header == has_header_spec(*context),
        header ==> context.list_depth > 2 && context.compact_outline && context.list_branch_start,
        header ==> context.has_list_marker && context.list_parent_label is Some,
        context.list_depth <= 2 ==> !header,
{
    context.compact_outline && context.list_depth > 2 && context.list_branch_start
        && context.has_list_marker && context.list_parent_label.is_some()
}

/// Whether a visual line receives the tree caption: a compact-tree line that
/// starts a marked branch below the second level.
pub fn starts_tree_caption(
    compact_tree_line: bool,
    context: &SegmentContext,
    line_start: usize,
    segment_start: usize,
) -> (starts: bool)
    ensures
        starts == (compact_tree_line && context.list_depth > 2 && context.list_branch_start
            && context.has_list_marker && line_start == segment_start),
{
    compact_tree_line && context.list_depth > 2 && context.list_branch_start
        && context.has_list_marker && line_start == segment_start
}

/// What a caption says of a parent whose excerpt is blank.
pub open spec fn untitled_parent(parent: Option<BlockKind>) -> Seq<char> {
    match parent {
        Some(BlockKind::CodeBlock { .. }) => "code block"@,
        Some(BlockKind::Image) => "image"@,
        Some(BlockKind::Heading) => "heading"@,
        _ => "an untitled item"@,
    }
}

/// The tree caption above a branch: its level and its parent, by excerpt or,
/// when the excerpt is blank, by the parent's kind.
pub open spec fn tree_caption_spec(depth: nat, excerpt: Seq<char>, parent: Option<BlockKind>) -> Seq<char> {
    "Level "@ + decimal(depth) + " · Within "@ + if is_blank(excerpt) {
        untitled_parent(parent)
    } else {
        excerpt
    }
}

/// The tree caption above a branch.
pub fn tree_caption(depth: usize, excerpt: &str, parent: Option<BlockKind>) -> (caption: String)
    ensures
        caption@ == tree_caption_spec(depth as nat, excerpt@, parent),
{
    let mut caption = String::new();
    push_str(&mut caption, "Level ");
    push_decimal(&mut caption, depth);
    push_str(&mut caption, " · Within ");
    if blank(excerpt) {
        let name = match parent {
            Some(BlockKind::CodeBlock { .. }) => "code block",
            Some(BlockKind::Image) => "image",
            Some(BlockKind::Heading) => "heading",
            _ => "an untitled item",
        };
        push_str(&mut caption, name);
    } else {
        push_str(&mut caption, excerpt);
    }
    caption
}

/// The container panel whose top edge a branch caption follows.
#[derive(Clone, Copy, Debug, PartialEq, Eq, Structural)]
pub enum ContainerPanel {
    Quote,
    Alert,
    Table,
}

pub open spec fn leading_container_spec(
    owner_kind: Option<BlockKind>,
    has_marker: bool,
    starts_segment: bool,
    has_component: bool,
) -> Option<ContainerPanel> {
    if owner_kind is None || !has_marker || !starts_segment || !has_component {
        None
    } else {
        match owner_kind.unwrap() {
            BlockKind::BlockQuote => Some(ContainerPanel::Quote),
            BlockKind::Alert => Some(ContainerPanel::Alert),
            BlockKind::Table => Some(ContainerPanel::Table),
            _ => None,
        }
    }
}

/// The panel of the container that a marked list item leads: only the line
/// that starts the item, and only a quote, alert or table whose component
/// geometry is known. `owner_kind` is the kind of the item's container block.
pub fn leading_container(
    owner_kind: Option<BlockKind>,
    has_marker: bool,
    starts_segment: bool,
    has_component: bool,
) -> (panel: Option<ContainerPanel>)
    ensures
        panel == leading_container_spec(owner_kind, has_marker, starts_segment, has_component),
{
    let kind = match owner_kind {
        Some(k) => k,
        None => return None,
    };
    if !has_marker || !starts_segment || !has_component {
        return None;
    }
    match kind {
        BlockKind::BlockQuote => Some(ContainerPanel::Quote),
        BlockKind::Alert => Some(ContainerPanel::Alert),
        BlockKind::Table => Some(ContainerPanel::Table),
        _ => None,
    }
}

} // verus!
