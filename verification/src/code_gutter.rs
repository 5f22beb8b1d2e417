//! Visual code coordinates are decorations, never editable document text.
use crate::model::{is_source_code, BlockKind};
use crate::text::{chars_of, decimal, push_decimal};
use vstd::prelude::*;

verus! {

/// The line-number rail of one visual code line.
#[derive(Clone, Copy, Debug)]
pub struct CodeLine {
    /// Zero denotes the caret-only line after the final source newline.
    pub number: usize,
    /// Rail width as an `f32` bit pattern.
    pub width_bits: u32,
    pub strip: bool,
}

/// The projected range of a visual line and its code rail, if any.
#[derive(Clone, Copy, Debug)]
pub struct LineSpan {
    pub start: usize,
    pub end: usize,
    pub code_line: Option<CodeLine>,
}

/// Line starts never decrease in a visual-line list.
pub open spec fn starts_sorted(lines: Seq<LineSpan>) -> bool {
    forall|i: int, j: int| 0 <= i <= j < lines.len() ==> lines[i].start <= lines[j].start
}

/// Number of line feeds in `s`.
pub open spec fn newlines(s: Seq<char>) -> nat
    decreases s.len(),
{
    if s.len() == 0 {
        0
    } else {
        newlines(s.drop_last()) + if s.last() == '\n' {
            1nat
        } else {
            0nat
        }
    }
}

/// `str::lines().count()`: lines end at a line feed, and a final line ending
/// is optional.
pub open spec fn line_count_spec(s: Seq<char>) -> nat {
    newlines(s) + if s.len() > 0 && s.last() != '\n' {
        1nat
    } else {
        0nat
    }
}

proof fn lemma_newlines_bounded(s: Seq<char>)
    ensures
        newlines(s) <= s.len(),
        s.len() > 0 && s.last() != '\n' ==> newlines(s) < s.len(),
    decreases s.len(),
{
    if s.len() > 0 {
        lemma_newlines_bounded(s.drop_last());
    }
}

/// Number of source lines of a code block's text.
pub fn line_count(text: &str) -> (n: usize)
    ensures
        n == line_count_spec(text@),
{
    let chars = chars_of(text);
    let mut n: usize = 0;
    let mut i: usize = 0;
    while i < chars.len()
        invariant
            chars@ == text@,
            i <= chars@.len(),
            n == newlines(chars@.take(i as int)),
        decreases chars@.len() - i,
    {
        proof {
            assert(chars@.take(i + 1).drop_last() =~= chars@.take(i as int));
            lemma_newlines_bounded(chars@.take(i as int));
        }
        if chars[i] == '\n' {
            n = n + 1;
        }
        i += 1;
    }
    assert(chars@.take(chars@.len() as int) =~= chars@);
    if chars.len() > 0 && chars[chars.len() - 1] != '\n' {
        proof {
            lemma_newlines_bounded(chars@);
        }
        n = n + 1;
    }
    n
}

/// Whether a block gets a numbered rail at all: source code, not math.
pub fn numbers_lines(kind: BlockKind) -> (numbered: bool)
    ensures
        numbered == is_source_code(kind),
{
    match kind {
        BlockKind::CodeBlock { math } => !math,
        _ => false,
    }
}

/// Digits reserved by a rail for `count` lines: none below four lines, else
/// one spare digit beyond the count's own, so the common 9 to 10 and 99 to
/// 100 typing transitions keep their text origin.
pub open spec fn rail_digits_spec(count: nat) -> Option<nat> {
    if count < 4 {
        None
    } else {
        let digits = decimal(count).len() + 1;
        Some(if digits < 2 { 2 } else { digits })
    }
}

proof fn lemma_decimal_len(n: nat)
    ensures
        decimal(n).len() == if n < 10 { 1 } else { decimal(n / 10).len() + 1 },
        decimal(n).len() <= n + 1,
        n >= 1 ==> decimal(n).len() <= n,
        n >= 2 ==> decimal(n).len() < n,
    decreases n,
{
    if n >= 10 {
        lemma_decimal_len(n / 10);
    }
}

/// Number of decimal digits of `n`.
pub fn decimal_len(n: usize) -> (len: usize)
    ensures
        len == decimal(n as nat).len(),
    decreases n,
{
    proof {
        lemma_decimal_len(n as nat);
    }
    if n < 10 {
        1
    } else {
        let rest = decimal_len(n / 10);
        proof {
            lemma_decimal_len((n / 10) as nat);
        }
        rest + 1
    }
}

/// Digits reserved by a rail for `count` lines.
pub fn rail_digits(count: usize) -> (digits: Option<usize>)
    ensures
        match digits {
            Some(d) => rail_digits_spec(count as nat) == Some(d as nat),
            None => rail_digits_spec(count as nat) is None,
        },
{
    if count < 4 {
        return None;
    }
    proof {
        lemma_decimal_len(count as nat);
    }
    let digits = decimal_len(count) + 1;
    Some(if digits < 2 { 2 } else { digits })
}

/// Index of the first line whose start is not before `position`.
pub fn first_line_from(lines: &Vec<LineSpan>, position: usize) -> (index: usize)
    requires
        starts_sorted(lines@),
    ensures
        index <= lines@.len(),
        forall|i: int| 0 <= i < index ==> lines@[i].start < position,
        forall|i: int| index <= i < lines@.len() ==> lines@[i].start >= position,
{
    let mut low: usize = 0;
    let mut high: usize = lines.len();
    while low < high
        invariant
            low <= high <= lines@.len(),
            starts_sorted(lines@),
            forall|i: int| 0 <= i < low ==> lines@[i].start < position,
            forall|i: int| high <= i < lines@.len() ==> lines@[i].start >= position,
        decreases high - low,
    {
        let mid = low + (high - low) / 2;
        if lines[mid].start < position {
            low = mid + 1;
        } else {
            high = mid;
        }
    }
    low
}

/// Index of the first line that starts after `position`.
pub fn first_line_after(lines: &Vec<LineSpan>, position: usize) -> (index: usize)
    requires
        starts_sorted(lines@),
    ensures
        index <= lines@.len(),
        forall|i: int| 0 <= i < index ==> lines@[i].start <= position,
        forall|i: int| index <= i < lines@.len() ==> lines@[i].start > position,
{
    let mut low: usize = 0;
    let mut high: usize = lines.len();
    while low < high
        invariant
            low <= high <= lines@.len(),
            starts_sorted(lines@),
            forall|i: int| 0 <= i < low ==> lines@[i].start <= position,
            forall|i: int| high <= i < lines@.len() ==> lines@[i].start > position,
        decreases high - low,
    {
        let mid = low + (high - low) / 2;
        if lines[mid].start <= position {
            low = mid + 1;
        } else {
            high = mid;
        }
    }
    low
}

/// Whether a retained rail width applies to `line`: a rail of the same kind
/// on a line inside the code segment `[start, end]`.
pub open spec fn keeps_rail(line: LineSpan, start: usize, end: usize, strip: bool) -> bool {
    &&& start <= line.start <= end
    &&& line.end <= end
    &&& line.code_line matches Some(code) && code.strip == strip
}

/// `line` with its rail width replaced.
pub open spec fn with_rail_width(line: LineSpan, width_bits: u32) -> LineSpan {
    match line.code_line {
        Some(code) => LineSpan { code_line: Some(CodeLine { width_bits, ..code }), ..line },
        None => line,
    }
}

/// Keeps a previously published rail width on the lines of one code segment,
/// so typing does not move the code's text origin. Nothing changes without a
/// previous width or when the segment is gone.
pub fn retain_width(lines: &mut Vec<LineSpan>, segment: Option<(usize, usize)>, previous: Option<(u32, bool)>)
    requires
        starts_sorted(old(lines)@),
    ensures
        final(lines)@.len() == old(lines)@.len(),
        forall|i: int|
            0 <= i < old(lines)@.len() ==> #[trigger] final(lines)@[i] == match (segment, previous) {
                (Some((start, end)), Some((width, strip))) => if keeps_rail(old(lines)@[i], start, end, strip) {
                    with_rail_width(old(lines)@[i], width)
                } else {
                    old(lines)@[i]
                },
                _ => old(lines)@[i],
            },
{
    let (width, strip) = match previous {
        Some(p) => p,
        None => return ,
    };
    let (start, end) = match segment {
        Some(s) => s,
        None => return ,
    };
    let first = first_line_from(lines, start);
    let last = first_line_after(lines, end);
    let ghost before = lines@;
    let mut i = first;
    while i < last
        invariant
            first <= i,
            lines@.len() == before.len(),
            last <= before.len(),
            forall|j: int| 0 <= j < first ==> before[j].start < start,
            forall|j: int| first <= j < before.len() ==> before[j].start >= start,
            forall|j: int| 0 <= j < last ==> before[j].start <= end,
            forall|j: int| last <= j < before.len() ==> before[j].start > end,
            forall|j: int|
                0 <= j < before.len() ==> #[trigger] lines@[j] == if first <= j < i && keeps_rail(
                    before[j],
                    start,
                    end,
                    strip,
                ) {
                    with_rail_width(before[j], width)
                } else {
                    before[j]
                },
        decreases last - i,
    {
        let line = lines[i];
        if start <= line.start && line.end <= end {
            if let Some(code) = line.code_line {
                if code.strip == strip {
                    let mut updated = line;
                    updated.code_line = Some(CodeLine { width_bits: width, ..code });
                    lines.set(i, updated);
                }
            }
        }
        i += 1;
    }
}

/// Number of lines that start before `position`; in sorted lines, the index
/// of the first line starting at or after it.
pub open spec fn lines_before(lines: Seq<LineSpan>, position: usize) -> nat
    decreases lines.len(),
{
    if lines.len() == 0 {
        0
    } else {
        lines_before(lines.drop_last(), position) + if lines.last().start < position {
            1nat
        } else {
            0nat
        }
    }
}

proof fn lemma_lines_before_split(lines: Seq<LineSpan>, position: usize, k: int)
    requires
        0 <= k <= lines.len(),
        forall|i: int| 0 <= i < k ==> lines[i].start < position,
        forall|i: int| k <= i < lines.len() ==> lines[i].start >= position,
    ensures
        lines_before(lines, position) == k,
    decreases lines.len(),
{
    if lines.len() > 0 {
        if k == lines.len() {
            lemma_lines_before_split(lines.drop_last(), position, k - 1);
        } else {
            lemma_lines_before_split(lines.drop_last(), position, k);
        }
    }
}

/// The rail of the first visual line of a code segment, if the segment and
/// that line exist.
pub fn first_rail(lines: &Vec<LineSpan>, segment: Option<(usize, usize)>) -> (rail: Option<CodeLine>)
    requires
        starts_sorted(lines@),
    ensures
        rail == match segment {
            Some((start, _)) => if lines_before(lines@, start) < lines@.len() {
                lines@[lines_before(lines@, start) as int].code_line
            } else {
                None
            },
            None => None,
        },
{
    let (start, _) = match segment {
        Some(s) => s,
        None => return None,
    };
    let first = first_line_from(lines, start);
    proof {
        lemma_lines_before_split(lines@, start, first as int);
    }
    if first < lines.len() {
        lines[first].code_line
    } else {
        None
    }
}

/// Whether an `f32` bit pattern holds a value greater than zero: a positive
/// finite number or positive infinity, never a zero or a NaN.
pub open spec fn positive_bits(bits: u32) -> bool {
    0 < bits <= 0x7F80_0000
}

/// The number a painted rail shows: rails without a positive width and
/// command strips paint nothing; the caret-only line shows an empty label.
pub open spec fn rail_label_spec(code: CodeLine) -> Option<Seq<char>> {
    if !positive_bits(code.width_bits) || code.strip {
        None
    } else if code.number == 0 {
        Some(Seq::empty())
    } else {
        Some(decimal(code.number as nat))
    }
}

/// The label painted in a line's rail, if the rail is painted.
pub fn rail_label(code: CodeLine) -> (label: Option<String>)
    ensures
        match rail_label_spec(code) {
            Some(text) => label matches Some(l) && l@ == text,
            None => label is None,
        },
{
    if !(0 < code.width_bits && code.width_bits <= 0x7F80_0000) || code.strip {
        return None;
    }
    let mut label = String::new();
    if code.number != 0 {
        push_decimal(&mut label, code.number);
    }
    assert(label@ =~= if code.number == 0 { Seq::<char>::empty() } else { decimal(code.number as nat) });
    Some(label)
}

} // verus!
