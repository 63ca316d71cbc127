use vstd::prelude::*;

use crate::text::{
    lemma_split_keeps_shapes, lemma_split_ordered, shape_at, spans_ordered, split_at, ShapeSpan,
    SpannedString,
};
use crate::editor::{get_line_from_byte_index, line_of, lines_ordered, some_line_holds};
use core::ops::Range;
use unicode_linebreak::BreakOpportunity;

verus! {

/// The line break opportunities of `text`, in order: the byte offset of the character after the
/// break, and whether the line must break there (`true`) or only may (`false`).
pub uninterp spec fn break_opportunities(text: Seq<char>) -> Seq<(usize, bool)>;

/// The items of `unicode_linebreak::linebreaks(text)`, with `BreakOpportunity::Mandatory` as
/// `true` and `BreakOpportunity::Allowed` as `false`. Where the Unicode line breaking algorithm
/// puts the breaks is not stated.
#[verifier::external_body]
fn linebreaks_of(text: &str) -> (breaks: Vec<(usize, bool)>)
    ensures
        breaks@ == break_opportunities(text@),
{
    unicode_linebreak::linebreaks(text).map(
        |(i, op)|
            match op {
                BreakOpportunity::Mandatory => (i, true),
                BreakOpportunity::Allowed => (i, false),
            },
    ).collect()
}

/// The offsets of the breaks of `breaks` whose kind is `mandatory`, in order.
pub open spec fn offsets_of_kind(breaks: Seq<(usize, bool)>, mandatory: bool) -> Seq<usize>
    decreases breaks.len(),
{
    if breaks.len() == 0 {
        seq![]
    } else {
        let rest = offsets_of_kind(breaks.drop_last(), mandatory);
        if breaks.last().1 == mandatory {
            rest.push(breaks.last().0)
        } else {
            rest
        }
    }
}

/// Sort break opportunities into the places where a line may break and those where it must,
/// keeping their order.
pub fn classify_breaks(breaks: &[(usize, bool)]) -> (res: (Vec<usize>, Vec<usize>))
    ensures
        res.0@ == offsets_of_kind(breaks@, false),
        res.1@ == offsets_of_kind(breaks@, true),
{
    let mut allowed: Vec<usize> = Vec::new();
    let mut mandatory: Vec<usize> = Vec::new();
    let mut i: usize = 0;
    while i < breaks.len()
        invariant
            i <= breaks@.len(),
            allowed@ == offsets_of_kind(breaks@.take(i as int), false),
            mandatory@ == offsets_of_kind(breaks@.take(i as int), true),
        decreases breaks@.len() - i,
    {
        assert(breaks@.take(i + 1).drop_last() =~= breaks@.take(i as int));
        let (offset, must) = breaks[i];
        if must {
            mandatory.push(offset);
        } else {
            allowed.push(offset);
        }
        i = i + 1;
    }
    assert(breaks@.take(i as int) =~= breaks@);
    (allowed, mandatory)
}

/// The line break opportunities of `text`: the byte offsets where a line may break, and those
/// where it must.
pub fn line_breaks(text: &str) -> (res: (Vec<usize>, Vec<usize>))
    ensures
        res.0@ == offsets_of_kind(break_opportunities(text@), false),
        res.1@ == offsets_of_kind(break_opportunities(text@), true),
{
    let breaks = linebreaks_of(text);
    classify_breaks(breaks.as_slice())
}

/// The index of the first span of `s`, from the index `from` on, that starts at the byte `b`; the
/// number of spans when there is none.
pub open spec fn span_starting_at(s: Seq<ShapeSpan>, from: int, b: usize) -> int
    decreases s.len() - from,
{
    if from < 0 || from >= s.len() {
        s.len() as int
    } else if s[from].byte_range.start == b {
        from
    } else {
        span_starting_at(s, from + 1, b)
    }
}

/// The ranges of spans of the paragraphs of `s` that the breaks `breaks` end, the first starting
/// at the span `start`: each paragraph runs up to the first span that starts at its break.
pub open spec fn paragraph_spans(s: Seq<ShapeSpan>, breaks: Seq<usize>, start: int) -> Seq<Range<usize>>
    decreases breaks.len(),
{
    if breaks.len() == 0 {
        seq![]
    } else {
        let end = span_starting_at(s, start, breaks[0]);
        seq![start as usize..end as usize] + paragraph_spans(s, breaks.drop_first(), end)
    }
}

/// The spans `s` split, one after the other, at each of the breaks `breaks`.
pub open spec fn split_at_all(s: Seq<ShapeSpan>, breaks: Seq<usize>) -> Seq<ShapeSpan>
    decreases breaks.len(),
{
    if breaks.len() == 0 {
        s
    } else {
        split_at(split_at_all(s, breaks.drop_last()), breaks.last())
    }
}

/// The index of the first span at or after `from` that starts at `b`.
fn find_span_starting(s: &[ShapeSpan], from: usize, b: usize) -> (j: usize)
    requires
        from <= s@.len(),
    ensures
        j == span_starting_at(s@, from as int, b),
{
    let mut j = from;
    while j < s.len() && s[j].byte_range.start != b
        invariant
            from <= j <= s@.len(),
            span_starting_at(s@, from as int, b) == span_starting_at(s@, j as int, b),
        decreases s@.len() - j,
    {
        j = j + 1;
    }
    j
}

/// Split the text in paragraphs at its mandatory line breaks, in order: the shape span that holds
/// each break is split there, and the range of spans of each paragraph is returned.
pub fn layout_paragraphs(text: &mut SpannedString, mandatory_breaks: &[usize]) -> (paragraphs: Vec<
    Range<usize>,
>)
    requires
        spans_ordered(old(text).shapes()),
    ensures
        final(text).text() == old(text).text(),
        final(text).styles() == old(text).styles(),
        final(text).default_style() == old(text).default_style(),
        final(text).shapes() == split_at_all(old(text).shapes(), mandatory_breaks@),
        spans_ordered(final(text).shapes()),
        paragraphs@ == paragraph_spans(final(text).shapes(), mandatory_breaks@, 0),
{
    let ghost s0 = text.shapes();
    let mut i: usize = 0;
    while i < mandatory_breaks.len()
        invariant
            i <= mandatory_breaks@.len(),
            text.text() == old(text).text(),
            text.styles() == old(text).styles(),
            text.default_style() == old(text).default_style(),
            s0 == old(text).shapes(),
            text.shapes() == split_at_all(s0, mandatory_breaks@.take(i as int)),
            spans_ordered(text.shapes()),
        decreases mandatory_breaks@.len() - i,
    {
        assert(mandatory_breaks@.take(i + 1).drop_last() =~= mandatory_breaks@.take(i as int));
        text.split_shape_span(mandatory_breaks[i]);
        i = i + 1;
    }
    assert(mandatory_breaks@.take(i as int) =~= mandatory_breaks@);
    let spans = text.shape_spans();
    let ghost s = spans@;
    let ghost b = mandatory_breaks@;
    let mut paragraphs: Vec<Range<usize>> = Vec::new();
    let mut span_start: usize = 0;
    let mut i: usize = 0;
    assert(b.skip(0) =~= b);
    while i < mandatory_breaks.len()
        invariant
            s == spans@,
            b == mandatory_breaks@,
            i <= b.len(),
            span_start <= s.len(),
            paragraphs@ + paragraph_spans(s, b.skip(i as int), span_start as int) == paragraph_spans(s, b, 0),
        decreases b.len() - i,
    {
        let span_end = find_span_starting(spans, span_start, mandatory_breaks[i]);
        proof {
            assert(b.skip(i as int).drop_first() =~= b.skip(i + 1));
            assert(paragraph_spans(s, b.skip(i as int), span_start as int) == seq![span_start..span_end]
                + paragraph_spans(s, b.skip(i + 1), span_end as int));
            lemma_span_starting_at_bound(s, span_start as int, b[i as int]);
        }
        paragraphs.push(span_start..span_end);
        assert(paragraphs@ + paragraph_spans(s, b.skip(i + 1), span_end as int) =~= paragraph_spans(
            s,
            b,
            0,
        ));
        span_start = span_end;
        i = i + 1;
    }
    assert(paragraph_spans(s, b.skip(i as int), span_start as int) =~= seq![]);
    assert(paragraphs@ =~= paragraph_spans(s, b, 0));
    paragraphs
}

/// The first span starting at a byte, from `from` on, is within the spans.
proof fn lemma_span_starting_at_bound(s: Seq<ShapeSpan>, from: int, b: usize)
    requires
        0 <= from <= s.len(),
    ensures
        from <= span_starting_at(s, from, b) <= s.len(),
    decreases s.len() - from,
{
    if from < s.len() && s[from].byte_range.start != b {
        lemma_span_starting_at_bound(s, from + 1, b);
    }
}

/// Splitting the text in paragraphs changes the shape of no byte, and keeps the spans in order.
pub proof fn lemma_paragraphs_keep_shapes(s: Seq<ShapeSpan>, breaks: Seq<usize>, b: usize)
    requires
        spans_ordered(s),
    ensures
        spans_ordered(split_at_all(s, breaks)),
        shape_at(split_at_all(s, breaks), b) == shape_at(s, b),
    decreases breaks.len(),
{
    if breaks.len() > 0 {
        lemma_paragraphs_keep_shapes(s, breaks.drop_last(), b);
        let t = split_at_all(s, breaks.drop_last());
        lemma_split_ordered(t, breaks.last());
        lemma_split_keeps_shapes(t, breaks.last(), b);
    }
}

/// The glyphs that a style span over the bytes `range` colors: from the glyph that holds its
/// first byte up to, not including, the glyph that holds the byte at its end. `glyphs` are the
/// byte ranges of the glyphs, in order.
pub fn style_glyph_range(glyphs: &[Range<usize>], range: Range<usize>) -> (r: Range<usize>)
    requires
        lines_ordered(glyphs@),
        some_line_holds(glyphs@, range.start),
        some_line_holds(glyphs@, range.end),
    ensures
        r.start == line_of(glyphs@, range.start),
        r.end == line_of(glyphs@, range.end),
{
    let start = get_line_from_byte_index(range.start, glyphs);
    let end = get_line_from_byte_index(range.end, glyphs);
    start..end
}

} // verus!
