//! Accessible names of text blocks that cite footnotes: each citing run reads
//! as its footnote number.
use crate::text::{char_width, chars_of, decimal, push_decimal, push_str, utf8_len, utf8_width};
use vstd::prelude::*;

verus! {

/// A run of a block's text, by UTF-8 byte range, that cites a numbered footnote.
#[derive(Clone, Copy, Debug, PartialEq, Eq, Structural)]
pub struct FootnoteReference {
    pub start: usize,
    pub end: usize,
    pub number: usize,
}

/// Whether byte offset `b` falls between two characters of `t`.
pub open spec fn at_boundary(t: Seq<char>, b: int) -> bool {
    exists|k: int| 0 <= k <= t.len() && utf8_len(t.take(k)) == b
}

/// The number of characters before byte offset `b` of `t`.
pub open spec fn boundary_char(t: Seq<char>, b: int) -> int {
    choose|k: int| 0 <= k <= t.len() && utf8_len(t.take(k)) == b
}

/// What a citing run reads as.
pub open spec fn footnote_mark(number: nat) -> Seq<char> {
    " [footnote "@ + decimal(number) + "]"@
}

/// `t` with each citing run replaced by its mark; runs are replaced from the
/// last one back, so earlier byte ranges still address the original text.
pub open spec fn marked(t: Seq<char>, refs: Seq<FootnoteReference>) -> Seq<char>
    decreases refs.len(),
{
    if refs.len() == 0 {
        t
    } else {
        let r = refs.last();
        marked(t.take(boundary_char(t, r.start as int)), refs.drop_last()) + footnote_mark(r.number as nat)
            + t.skip(boundary_char(t, r.end as int))
    }
}

/// Citing runs lie on character boundaries of the text, in order, without
/// overlapping; otherwise replacing them would panic.
pub open spec fn references_ordered(t: Seq<char>, refs: Seq<FootnoteReference>) -> bool {
    &&& forall|k: int|
        0 <= k < refs.len() ==> (#[trigger] refs[k]).start <= refs[k].end && at_boundary(t, refs[k].start as int)
            && at_boundary(t, refs[k].end as int)
    &&& forall|k: int| 0 <= k < refs.len() - 1 ==> (#[trigger] refs[k]).end <= refs[k + 1].start
}

proof fn lemma_utf8_len_strict(t: Seq<char>, i: int, j: int)
    requires
        0 <= i < j <= t.len(),
    ensures
        utf8_len(t.take(i)) < utf8_len(t.take(j)),
    decreases j - i,
{
    assert(t.take(j).drop_last() =~= t.take(j - 1));
    if i < j - 1 {
        lemma_utf8_len_strict(t, i, j - 1);
    }
}

proof fn lemma_boundary_char(t: Seq<char>, b: int)
    requires
        at_boundary(t, b),
    ensures
        0 <= boundary_char(t, b) <= t.len(),
        utf8_len(t.take(boundary_char(t, b))) == b,
        forall|k: int| 0 <= k <= t.len() && utf8_len(t.take(k)) == b ==> k == boundary_char(t, b),
{
    let c = boundary_char(t, b);
    assert forall|k: int| 0 <= k <= t.len() && utf8_len(t.take(k)) == b implies k == c by {
        if k < c {
            lemma_utf8_len_strict(t, k, c);
        } else if k > c {
            lemma_utf8_len_strict(t, c, k);
        }
    }
}

/// Boundaries before character `y` keep their position in `t.take(y)`.
proof fn lemma_boundary_prefix(t: Seq<char>, y: int, b: int)
    requires
        0 <= y <= t.len(),
        at_boundary(t, b),
        b <= utf8_len(t.take(y)),
    ensures
        at_boundary(t.take(y), b),
        boundary_char(t.take(y), b) == boundary_char(t, b),
        boundary_char(t, b) <= y,
{
    lemma_boundary_char(t, b);
    let c = boundary_char(t, b);
    if c > y {
        lemma_utf8_len_strict(t, y, c);
    }
    assert(t.take(y).take(c) =~= t.take(c));
    assert(at_boundary(t.take(y), b));
    lemma_boundary_char(t.take(y), b);
    let d = boundary_char(t.take(y), b);
    assert(t.take(y).take(d) =~= t.take(d));
}

/// Text after the last citing run extends the marked text unchanged.
proof fn lemma_marked_extend(t: Seq<char>, refs: Seq<FootnoteReference>, x: int, y: int)
    requires
        0 <= x <= y <= t.len(),
        references_ordered(t, refs),
        forall|k: int| 0 <= k < refs.len() ==> (#[trigger] refs[k]).end <= utf8_len(t.take(x)),
    ensures
        marked(t.take(y), refs) == marked(t.take(x), refs) + t.subrange(x, y),
{
    if refs.len() == 0 {
        assert(t.take(y) =~= t.take(x) + t.subrange(x, y));
    } else {
        let r = refs.last();
        lemma_utf8_len_monotone(t, x, y);
        lemma_boundary_prefix(t, x, r.start as int);
        lemma_boundary_prefix(t, x, r.end as int);
        lemma_boundary_prefix(t, y, r.start as int);
        lemma_boundary_prefix(t, y, r.end as int);
        let a = boundary_char(t, r.start as int);
        let e = boundary_char(t, r.end as int);
        assert(t.take(y).take(a) =~= t.take(x).take(a));
        assert(t.take(y).skip(e) =~= t.take(x).skip(e) + t.subrange(x, y));
    }
}

proof fn lemma_utf8_len_monotone(t: Seq<char>, x: int, y: int)
    requires
        0 <= x <= y <= t.len(),
    ensures
        utf8_len(t.take(x)) <= utf8_len(t.take(y)),
{
    if x < y {
        lemma_utf8_len_strict(t, x, y);
    }
}

/// Position of the character that starts at byte `b` of `chars`.
fn char_position(chars: &Vec<char>, b: usize) -> (k: usize)
    requires
        at_boundary(chars@, b as int),
    ensures
        k == boundary_char(chars@, b as int),
{
    proof {
        lemma_boundary_char(chars@, b as int);
    }
    let ghost target = boundary_char(chars@, b as int);
    let mut k: usize = 0;
    let mut bytes: usize = 0;
    while bytes < b
        invariant
            0 <= target <= chars.len(),
            utf8_len(chars@.take(target)) == b,
            k <= target,
            bytes == utf8_len(chars@.take(k as int)),
        decreases target - k,
    {
        proof {
            if k == target {
                assert(false);
            }
            assert(chars@.take(k + 1).drop_last() =~= chars@.take(k as int));
            lemma_utf8_len_monotone(chars@, k + 1, target);
        }
        bytes = bytes + char_width(chars[k]);
        k = k + 1;
    }
    proof {
        if k < target {
            lemma_utf8_len_strict(chars@, k as int, target);
        }
    }
    k
}

fn push_chars(out: &mut String, chars: &Vec<char>, from: usize, to: usize)
    requires
        from <= to <= chars@.len(),
    ensures
        final(out)@ == old(out)@ + chars@.subrange(from as int, to as int),
{
    let mut i = from;
    while i < to
        invariant
            from <= i <= to,
            to <= chars@.len(),
            out@ == old(out)@ + chars@.subrange(from as int, i as int),
        decreases to - i,
    {
        out.push(chars[i]);
        assert(chars@.subrange(from as int, i + 1) =~= chars@.subrange(from as int, i as int).push(chars@[i as int]));
        i += 1;
    }
}

proof fn lemma_prefix_ordered(t: Seq<char>, refs: Seq<FootnoteReference>, k: int)
    requires
        references_ordered(t, refs),
        0 <= k <= refs.len(),
    ensures
        references_ordered(t, refs.take(k)),
{
    let before = refs.take(k);
    assert forall|j: int| 0 <= j < before.len() implies (#[trigger] before[j]).start <= before[j].end
        && at_boundary(t, before[j].start as int) && at_boundary(t, before[j].end as int) by {
        assert(before[j] == refs[j]);
    }
    assert forall|j: int| 0 <= j < before.len() - 1 implies (#[trigger] before[j]).end <= before[j + 1].start by {
        assert(before[j] == refs[j]);
        assert(before[j + 1] == refs[j + 1]);
    }
}

/// One citing run: the text up to it, then its mark.
proof fn lemma_mark_step(t: Seq<char>, refs: Seq<FootnoteReference>, k: int, pos: int)
    requires
        references_ordered(t, refs),
        0 <= k < refs.len(),
        0 <= pos <= t.len(),
        k == 0 ==> pos == 0,
        k > 0 ==> utf8_len(t.take(pos)) == refs[k - 1].end,
    ensures
        ({
            let r = refs[k];
            let a = boundary_char(t, r.start as int);
            let e = boundary_char(t, r.end as int);
            &&& pos <= a <= e <= t.len()
            &&& utf8_len(t.take(e)) == r.end
            &&& marked(t.take(e), refs.take(k + 1)) == marked(t.take(pos), refs.take(k)) + t.subrange(pos, a)
                + footnote_mark(r.number as nat)
        }),
{
    let r = refs[k];
    lemma_boundary_char(t, r.start as int);
    lemma_boundary_char(t, r.end as int);
    let a = boundary_char(t, r.start as int);
    let e = boundary_char(t, r.end as int);
    if k > 0 {
        assert(refs[k - 1].end <= r.start);
    }
    if a < pos {
        lemma_utf8_len_strict(t, a, pos);
    }
    if e < a {
        lemma_utf8_len_strict(t, e, a);
    }
    let before = refs.take(k);
    assert forall|j: int| 0 <= j < before.len() implies (#[trigger] before[j]).end <= utf8_len(t.take(pos)) by {
        assert(before[j] == refs[j]);
        lemma_ends_ordered(refs, j, k - 1);
    }
    lemma_prefix_ordered(t, refs, k);
    lemma_marked_extend(t, before, pos, a);
    let next = refs.take(k + 1);
    assert(next.drop_last() =~= before);
    assert(next.last() == r);
    lemma_boundary_prefix(t, e, r.start as int);
    lemma_boundary_prefix(t, e, r.end as int);
    assert(t.take(e).take(a) =~= t.take(a));
    assert(t.take(e).skip(e) =~= Seq::<char>::empty());
    assert(marked(t.take(e), next) =~= marked(t.take(a), before) + footnote_mark(r.number as nat));
}

/// After the last citing run, the rest of the text follows unchanged.
proof fn lemma_mark_finish(t: Seq<char>, refs: Seq<FootnoteReference>, pos: int)
    requires
        references_ordered(t, refs),
        0 <= pos <= t.len(),
        refs.len() == 0 ==> pos == 0,
        refs.len() > 0 ==> utf8_len(t.take(pos)) == refs[refs.len() - 1].end,
    ensures
        marked(t, refs) == marked(t.take(pos), refs) + t.subrange(pos, t.len() as int),
{
    assert forall|j: int| 0 <= j < refs.len() implies (#[trigger] refs[j]).end <= utf8_len(t.take(pos)) by {
        lemma_ends_ordered(refs, j, refs.len() - 1);
    }
    lemma_marked_extend(t, refs, pos, t.len() as int);
    assert(t.take(t.len() as int) =~= t);
}

/// A block's text with each citing run read as its footnote number.
#[verifier::spinoff_prover]
#[verifier::rlimit(40)]
pub fn mark_references(text: &str, refs: &Vec<FootnoteReference>) -> (label: String)
    requires
        references_ordered(text@, refs@),
    ensures
        label@ == marked(text@, refs@),
{
    let chars = chars_of(text);
    let ghost t = chars@;
    let mut out = String::new();
    let mut pos: usize = 0;
    let mut k: usize = 0;
    assert(marked(t.take(0), refs@.take(0)) =~= Seq::<char>::empty());
    while k < refs.len()
        invariant
            t == chars@,
            t == text@,
            references_ordered(t, refs@),
            k <= refs@.len(),
            pos <= t.len(),
            k == 0 ==> pos == 0,
            k > 0 ==> utf8_len(t.take(pos as int)) == refs@[k - 1].end,
            out@ == marked(t.take(pos as int), refs@.take(k as int)),
        decreases refs@.len() - k,
    {
        let r = refs[k];
        proof {
            lemma_boundary_char(t, r.start as int);
            lemma_boundary_char(t, r.end as int);
            lemma_mark_step(t, refs@, k as int, pos as int);
        }
        let a = char_position(&chars, r.start);
        let e = char_position(&chars, r.end);
        push_chars(&mut out, &chars, pos, a);
        push_str(&mut out, " [footnote ");
        push_decimal(&mut out, r.number);
        push_str(&mut out, "]");
        assert(out@ =~= marked(t.take(e as int), refs@.take(k + 1)));
        pos = e;
        k += 1;
    }
    proof {
        assert(refs@.take(k as int) =~= refs@);
        lemma_mark_finish(t, refs@, pos as int);
    }
    push_chars(&mut out, &chars, pos, chars.len());
    out
}

proof fn lemma_ends_ordered(refs: Seq<FootnoteReference>, j: int, m: int)
    requires
        0 <= j <= m < refs.len(),
        forall|k: int| 0 <= k < refs.len() ==> (#[trigger] refs[k]).start <= refs[k].end,
        forall|k: int| 0 <= k < refs.len() - 1 ==> (#[trigger] refs[k]).end <= refs[k + 1].start,
    ensures
        refs[j].end <= refs[m].end,
    decreases m - j,
{
    if j < m {
        lemma_ends_ordered(refs, j + 1, m);
        assert(refs[j].end <= refs[j + 1].start);
    }
}

} // verus!
