//! Code-pane source-preserving presentation: one-line command strips and the
//! terminal row after a code block's final newline.
use crate::model::{BlockKind, NodeId, Segment};
use crate::text::{chars_of, same_text, utf8_len, utf8_width};
use vstd::prelude::*;

verus! {

/// Longest command, in UTF-8 bytes, that a strip presents on one line.
pub const STRIP_MAX_BYTES: usize = 4096;

/// Languages whose one-line blocks are shell commands.
pub open spec fn is_shell(language: Seq<char>) -> bool {
    ||| language == "sh"@
    ||| language == "shell"@
    ||| language == "bash"@
    ||| language == "zsh"@
    ||| language == "fish"@
    ||| language == "console"@
}

/// Whether a code block's language marks a shell command.
pub fn shell_language(language: &str) -> (shell: bool)
    ensures
        shell == is_shell(language@),
{
    same_text(language, "sh") || same_text(language, "shell") || same_text(language, "bash")
        || same_text(language, "zsh") || same_text(language, "fish") || same_text(language, "console")
}

/// The command a code block holds: its text without one final line feed and
/// then without one final carriage return.
pub open spec fn command_value(text: Seq<char>) -> Seq<char> {
    let lf = if text.len() > 0 && text.last() == '\n' {
        text.drop_last()
    } else {
        text
    };
    if lf.len() > 0 && lf.last() == '\r' {
        lf.drop_last()
    } else {
        lf
    }
}

/// Whether a command fits a one-line strip: non-empty, at most 4096 bytes,
/// with no line break or tab.
pub open spec fn single_line_command(value: Seq<char>) -> bool {
    &&& value.len() > 0
    &&& utf8_len(value) <= STRIP_MAX_BYTES
    &&& forall|i: int|
        0 <= i < value.len() ==> #[trigger] value[i] != '\n' && value[i] != '\r' && value[i] != '\t'
}

/// What deciding a command strip needs next.
#[derive(Clone, Copy, Debug, PartialEq, Eq, Structural)]
pub enum StripPlan {
    /// The block is presented as an ordinary code pane.
    Pane,
    /// An editing lock retains the strip's leading track (an `f32` bit
    /// pattern), if it had one; only the available width is left to check.
    Locked(Option<u32>),
    /// The command's first `value_bytes` bytes must be measured against the
    /// available width.
    Measure { value_bytes: usize },
}

/// The strip decision for one segment, before any text is measured.
pub open spec fn strip_plan_spec(
    segment: Segment,
    block: Option<BlockKind>,
    language: Option<Seq<char>>,
    lock: Option<(NodeId, Option<u32>)>,
    text: Seq<char>,
) -> StripPlan {
    if segment.node_id != segment.top_level_node_id || segment.context.table_cell is Some {
        StripPlan::Pane
    } else if !(block matches Some(BlockKind::CodeBlock { .. })) {
        StripPlan::Pane
    } else if !(language matches Some(l) && is_shell(l)) {
        StripPlan::Pane
    } else if lock matches Some((id, leading)) && id == segment.node_id {
        StripPlan::Locked(lock.unwrap().1)
    } else if single_line_command(command_value(text)) {
        StripPlan::Measure { value_bytes: utf8_len(command_value(text)) as usize }
    } else {
        StripPlan::Pane
    }
}

/// Decides whether a top-level shell block may become a one-line command
/// strip, and what remains to be measured.
#[verifier::loop_isolation(false)]
pub fn strip_plan(
    segment: &Segment,
    block: Option<BlockKind>,
    language: Option<&str>,
    lock: Option<(NodeId, Option<u32>)>,
    text: &str,
) -> (plan: StripPlan)
    ensures
        plan == strip_plan_spec(
            *segment,
            block,
            match language {
                Some(l) => Some(l@),
                None => None,
            },
            lock,
            text@,
        ),
{
    if segment.node_id != segment.top_level_node_id || segment.context.table_cell.is_some() {
        return StripPlan::Pane;
    }
    if !matches!(block, Some(BlockKind::CodeBlock { .. })) {
        return StripPlan::Pane;
    }
    let shell = match language {
        Some(l) => shell_language(l),
        None => false,
    };
    if !shell {
        return StripPlan::Pane;
    }
    if let Some((id, leading)) = lock {
        if id == segment.node_id {
            return StripPlan::Locked(leading);
        }
    }
    let chars = chars_of(text);
    let mut n = chars.len();
    if n > 0 && chars[n - 1] == '\n' {
        n = n - 1;
    }
    if n > 0 && chars[n - 1] == '\r' {
        n = n - 1;
    }
    let ghost value = chars@.take(n as int);
    assert(value =~= command_value(text@));
    if n == 0 {
        return StripPlan::Pane;
    }
    let mut bytes: usize = 0;
    let mut i: usize = 0;
    while i < n
        invariant
            n <= chars@.len(),
            value == chars@.take(n as int),
            value == command_value(text@),
            i <= n,
            bytes == utf8_len(value.take(i as int)),
            bytes <= STRIP_MAX_BYTES,
            forall|j: int|
                0 <= j < i ==> #[trigger] value[j] != '\n' && value[j] != '\r' && value[j] != '\t',
        decreases n - i,
    {
        let c = chars[i];
        assert(value[i as int] == c);
        if c == '\n' || c == '\r' || c == '\t' {
            return StripPlan::Pane;
        }
        assert(value.take(i + 1).drop_last() =~= value.take(i as int));
        let w = crate::text::char_width(c);
        assert(value.take(i + 1).last() == c);
        assert(utf8_len(value.take(i + 1)) == bytes + w);
        if w > STRIP_MAX_BYTES - bytes {
            proof {
                lemma_utf8_len_prefix(value, i + 1);
            }
            return StripPlan::Pane;
        }
        bytes = bytes + w;
        i += 1;
    }
    assert(value.take(n as int) =~= value);
    StripPlan::Measure { value_bytes: bytes }
}

proof fn lemma_utf8_len_prefix(s: Seq<char>, i: int)
    requires
        0 <= i <= s.len(),
    ensures
        utf8_len(s.take(i)) <= utf8_len(s),
    decreases s.len() - i,
{
    if i < s.len() {
        assert(s.take(i + 1).drop_last() =~= s.take(i));
        lemma_utf8_len_prefix(s, i + 1);
    } else {
        assert(s.take(i) =~= s);
    }
}

/// Whether a code block's final empty row has no idle footprint: source code
/// (not math) ending in a line feed, unless the editor expanded that tail.
pub open spec fn hides_terminal_row(
    kind: BlockKind,
    expanded_code_tail: Option<NodeId>,
    node: NodeId,
    text: Seq<char>,
) -> bool {
    &&& kind matches BlockKind::CodeBlock { math } && !math
    &&& expanded_code_tail != Some(node)
    &&& text.len() > 0 && text.last() == '\n'
}

/// Only a source block that ends in a line feed has an empty terminal row to
/// hide: a text whose last character is not a line feed, math, another kind
/// of block or the expanded tail never hides one; every other source block
/// ending in a line feed does.
pub proof fn lemma_terminal_row_needs_final_newline(
    kind: BlockKind,
    expanded_code_tail: Option<NodeId>,
    node: NodeId,
    text: Seq<char>,
)
    ensures
        (text.len() == 0 || text.last() != '\n') ==> !hides_terminal_row(kind, expanded_code_tail, node, text),
        !(kind matches BlockKind::CodeBlock { math } && !math) ==> !hides_terminal_row(kind, expanded_code_tail, node, text),
        expanded_code_tail == Some(node) ==> !hides_terminal_row(kind, expanded_code_tail, node, text),
        (kind matches BlockKind::CodeBlock { math } && !math) && expanded_code_tail != Some(node) && text.len() > 0
            && text.last() == '\n' ==> hides_terminal_row(kind, expanded_code_tail, node, text),
{
}

/// Whether a code block's final empty row has no idle footprint.
pub fn hide_terminal_row(
    kind: BlockKind,
    expanded_code_tail: Option<NodeId>,
    node: NodeId,
    text: &str,
) -> (hidden: bool)
    ensures
        hidden == hides_terminal_row(kind, expanded_code_tail, node, text@),
        hidden ==> text@.len() > 0 && text@.last() == '\n',
        hidden ==> (kind matches BlockKind::CodeBlock { math } && !math) && expanded_code_tail != Some(node),
        (kind matches BlockKind::CodeBlock { math } && !math) && expanded_code_tail != Some(node) && text@.len() > 0
            && text@.last() == '\n' ==> hidden,
{
    let code = match kind {
        BlockKind::CodeBlock { math } => !math,
        _ => false,
    };
    if !code || expanded_code_tail == Some(node) {
        return false;
    }
    let chars = chars_of(text);
    chars.len() > 0 && chars[chars.len() - 1] == '\n'
}

/// Navigation still visits every authored line even when the final empty row
/// has no idle footprint: after the last line of such a block, the caret's
/// next stop is the segment's end.
pub fn terminal_after_line(line_end: usize, segment_end: usize, hides_terminal: bool) -> (stop: Option<
    usize,
>)
    ensures
        stop == if line_end + 1 == segment_end && hides_terminal {
            Some(segment_end)
        } else {
            None
        },
{
    if segment_end > 0 && line_end == segment_end - 1 && hides_terminal {
        Some(segment_end)
    } else {
        None
    }
}

} // verus!
