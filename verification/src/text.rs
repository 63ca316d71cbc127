use vstd::prelude::*;

use core::ops::Range;
use vstd::string::StringSliceAdditionalSpecFns;
use vstd::utf8::{encode_utf8, is_char_boundary};

use crate::color::Color;
use crate::util::cmp_range;
use core::cmp::Ordering;
use crate::font::FontId;

verus! {

/// The bits of the `f32` font size 16.0, the default.
pub const DEFAULT_FONT_SIZE: u32 = 0x4180_0000;

/// A span of text of certain shape. This contains all information necessary for text shaping.
/// The font size is the bit pattern of an `f32` (`f32::to_bits`); two sizes are the same size
/// when their bits are equal.
#[derive(Debug, PartialEq, Eq)]
pub struct ShapeSpan {
    pub byte_range: Range<usize>,
    pub font_size: u32,
    pub font_id: FontId,
}

/// A span of text with certain style. This contains information for text effects.
#[derive(Debug)]
pub struct StyleSpan {
    pub byte_range: Range<usize>,
    pub kind: StyleKind,
}

/// A text effect.
#[derive(Clone, Copy, Debug, PartialEq, Eq, Structural)]
pub enum StyleKind {
    Color(Color),
    Selection { bg: Color, fg: Option<Color> },
}

/// A style to apply to a range of text.
#[derive(Clone, Copy, Debug, PartialEq, Eq, Structural)]
pub enum Span {
    /// The bits of an `f32` font size.
    FontSize(u32),
    FontId(FontId),
    Color(Color),
    Selection { bg: Color, fg: Option<Color> },
}

impl StyleKind {
    /// The text effect a span stands for; the span itself back when it changes the shape.
    pub fn from_span(span: Span) -> (res: Result<StyleKind, Span>)
        ensures
            res == spec_style_kind(span),
    {
        match span {
            Span::FontSize(_) | Span::FontId(_) => Err(span),
            Span::Color(x) => Ok(StyleKind::Color(x)),
            Span::Selection { bg, fg } => Ok(StyleKind::Selection { bg, fg }),
        }
    }
}

/// The text effect a span stands for; the span itself back when it changes the shape.
pub open spec fn spec_style_kind(span: Span) -> Result<StyleKind, Span> {
    match span {
        Span::FontSize(_) | Span::FontId(_) => Err(span),
        Span::Color(x) => Ok(StyleKind::Color(x)),
        Span::Selection { bg, fg } => Ok(StyleKind::Selection { bg, fg }),
    }
}

/// A description of the style of a text.
#[derive(Clone, Copy, Debug, PartialEq, Eq, Structural)]
pub struct TextStyle {
    pub color: Color,
    /// The bits of the `f32` font size.
    pub font_size: u32,
    pub font_id: FontId,
}

impl Default for TextStyle {
    fn default() -> (s: TextStyle)
        ensures
            s == (TextStyle {
                color: Color { r: 0, g: 0, b: 0, a: 255 },
                font_size: DEFAULT_FONT_SIZE,
                font_id: FontId { index: 0 },
            }),
    {
        TextStyle { color: Color::black(), font_size: DEFAULT_FONT_SIZE, font_id: FontId::new(0) }
    }
}

impl TextStyle {
    /// This style with another color.
    pub fn with_color(self, color: Color) -> (s: TextStyle)
        ensures
            s == (TextStyle { color, ..self }),
    {
        TextStyle { color, ..self }
    }
}

/// `a` and `b` have the same shape: they differ at most by their ranges.
pub open spec fn same_shape(a: ShapeSpan, b: ShapeSpan) -> bool {
    a.font_size == b.font_size && a.font_id == b.font_id
}

/// The span with the shape of `proto`, over `start..end`.
pub open spec fn spanning(proto: ShapeSpan, start: usize, end: usize) -> ShapeSpan {
    ShapeSpan { byte_range: Range { start, end }, font_size: proto.font_size, font_id: proto.font_id }
}

/// Merge each span into the span kept before it when they have the same shape: the kept span
/// takes over the end of the merged one.
pub open spec fn merge_runs(s: Seq<ShapeSpan>) -> Seq<ShapeSpan>
    decreases s.len(),
{
    if s.len() == 0 {
        Seq::empty()
    } else {
        let kept = merge_runs(s.drop_last());
        let a = s.last();
        if kept.len() > 0 && same_shape(kept.last(), a) {
            kept.drop_last().push(spanning(kept.last(), kept.last().byte_range.start, a.byte_range.end))
        } else {
            kept.push(a)
        }
    }
}

/// A copy of `x` over another range.
fn span_over(x: &ShapeSpan, start: usize, end: usize) -> (r: ShapeSpan)
    ensures
        r == spanning(*x, start, end),
{
    ShapeSpan { byte_range: start..end, font_size: x.font_size, font_id: x.font_id }
}

/// `merge_runs` of `spans`.
fn merge_runs_exec(spans: Vec<ShapeSpan>) -> (res: Vec<ShapeSpan>)
    ensures
        res@ == merge_runs(spans@),
{
    let mut res: Vec<ShapeSpan> = Vec::new();
    let mut i: usize = 0;
    while i < spans.len()
        invariant
            i <= spans@.len(),
            res@ == merge_runs(spans@.take(i as int)),
        decreases spans@.len() - i,
    {
        assert(spans@.take(i + 1).drop_last() =~= spans@.take(i as int));
        let a = &spans[i];
        let n = res.len();
        if n > 0 && res[n - 1].font_size == a.font_size && res[n - 1].font_id == a.font_id {
            let last = res.pop().unwrap();
            res.push(span_over(&last, last.byte_range.start, a.byte_range.end));
        } else {
            res.push(span_over(a, a.byte_range.start, a.byte_range.end));
        }
        i = i + 1;
    }
    assert(spans@.take(i as int) =~= spans@);
    res
}

/// The shape `x` takes when the shape span `span` is applied to it.
pub open spec fn apply_shape(x: ShapeSpan, span: Span) -> ShapeSpan {
    match span {
        Span::FontSize(size) => ShapeSpan { font_size: size, ..x },
        Span::FontId(id) => ShapeSpan { font_id: id, ..x },
        _ => x,
    }
}

/// `span` changes the shape of text.
pub open spec fn is_shape_span(span: Span) -> bool {
    span is FontSize || span is FontId
}

/// What remains in place of the span `x` when the shape `span` is applied to `r`: the part of `x`
/// before `r`, the part after `r` when `x` starts inside `r`, or all of `x`, reshaped when `r`
/// covers it.
pub open spec fn cut_in_place(x: ShapeSpan, r: Range<usize>, span: Span) -> ShapeSpan {
    let rb = x.byte_range;
    if rb.start >= r.start && rb.end <= r.end {
        apply_shape(x, span)
    } else if rb.start < r.start && rb.end > r.end {
        spanning(x, rb.start, r.start)
    } else if rb.start < r.start && rb.end > r.start {
        spanning(x, rb.start, r.start)
    } else if rb.start < r.end && rb.end > r.end {
        spanning(x, r.end, rb.end)
    } else {
        x
    }
}

/// The pieces of `x` that applying the shape `span` to `r` adds after the spans.
pub open spec fn cut_extras(x: ShapeSpan, r: Range<usize>, span: Span) -> Seq<ShapeSpan> {
    let rb = x.byte_range;
    if rb.start >= r.start && rb.end <= r.end {
        Seq::empty()
    } else if rb.start < r.start && rb.end > r.end {
        seq![spanning(apply_shape(x, span), r.start, r.end), spanning(x, r.end, rb.end)]
    } else if rb.start < r.start && rb.end > r.start {
        seq![spanning(apply_shape(x, span), r.start, rb.end)]
    } else if rb.start < r.end && rb.end > r.end {
        seq![spanning(apply_shape(x, span), rb.start, r.end)]
    } else {
        Seq::empty()
    }
}

/// The added pieces of all the spans of `s`, in order.
pub open spec fn all_extras(s: Seq<ShapeSpan>, r: Range<usize>, span: Span) -> Seq<ShapeSpan>
    decreases s.len(),
{
    if s.len() == 0 {
        Seq::empty()
    } else {
        all_extras(s.drop_last(), r, span) + cut_extras(s.last(), r, span)
    }
}

/// The spans in place, followed by the added pieces.
pub open spec fn shape_pieces(s: Seq<ShapeSpan>, r: Range<usize>, span: Span) -> Seq<ShapeSpan> {
    s.map_values(|x: ShapeSpan| cut_in_place(x, r, span)) + all_extras(s, r, span)
}

/// The position of the first span of `t` that starts after `k`, or the length of `t`.
pub open spec fn first_after(t: Seq<ShapeSpan>, k: usize) -> int
    decreases t.len(),
{
    if t.len() == 0 {
        0
    } else if t[0].byte_range.start > k {
        0
    } else {
        1 + first_after(t.drop_first(), k)
    }
}

/// The spans of `s` in order of their start, those of equal start in the order of `s` (a
/// stable sort).
pub open spec fn sorted_by_start(s: Seq<ShapeSpan>) -> Seq<ShapeSpan>
    decreases s.len(),
{
    if s.len() == 0 {
        Seq::empty()
    } else {
        let t = sorted_by_start(s.drop_last());
        t.insert(first_after(t, s.last().byte_range.start), s.last())
    }
}

/// The shape spans after applying the shape `span` to the range `r`.
pub open spec fn add_shape_result(s: Seq<ShapeSpan>, r: Range<usize>, span: Span) -> Seq<ShapeSpan> {
    merge_runs(sorted_by_start(shape_pieces(s, r, span)))
}

proof fn lemma_first_after(t: Seq<ShapeSpan>, k: usize)
    ensures
        0 <= first_after(t, k) <= t.len(),
        forall|j: int| 0 <= j < first_after(t, k) ==> t[j].byte_range.start <= k,
        first_after(t, k) < t.len() ==> t[first_after(t, k)].byte_range.start > k,
    decreases t.len(),
{
    if t.len() > 0 && t[0].byte_range.start <= k {
        lemma_first_after(t.drop_first(), k);
        assert forall|j: int| 0 <= j < first_after(t, k) implies t[j].byte_range.start <= k by {
            if j > 0 {
                assert(t[j] == t.drop_first()[j - 1]);
            }
        }
    }
}

/// `first_after` of `t` and `k`.
fn first_after_exec(t: &Vec<ShapeSpan>, k: usize) -> (j: usize)
    ensures
        j == first_after(t@, k),
{
    proof {
        lemma_first_after(t@, k);
    }
    let mut j: usize = 0;
    while j < t.len() && t[j].byte_range.start <= k
        invariant
            j <= first_after(t@, k) <= t@.len(),
            forall|i: int| 0 <= i < first_after(t@, k) ==> t@[i].byte_range.start <= k,
            first_after(t@, k) < t@.len() ==> t@[first_after(t@, k)].byte_range.start > k,
        decreases t@.len() - j,
    {
        j = j + 1;
    }
    j
}

/// The stable sort of `v` by start.
fn sort_by_start(v: Vec<ShapeSpan>) -> (res: Vec<ShapeSpan>)
    ensures
        res@ == sorted_by_start(v@),
{
    let ghost orig = v@;
    let mut v = v;
    let mut res: Vec<ShapeSpan> = Vec::new();
    let ghost mut i: int = 0;
    while v.len() > 0
        invariant
            0 <= i <= orig.len(),
            v@ == orig.skip(i),
            res@ == sorted_by_start(orig.take(i)),
        decreases v@.len(),
    {
        let x = v.remove(0);
        let j = first_after_exec(&res, x.byte_range.start);
        proof {
            lemma_first_after(res@, x.byte_range.start);
            assert(orig.take(i + 1).drop_last() =~= orig.take(i));
            assert(orig.take(i + 1).last() == x);
        }
        res.insert(j, x);
        proof {
            assert(v@ =~= orig.skip(i + 1));
            i = i + 1;
        }
    }
    assert(orig.take(i) =~= orig);
    res
}

/// Set the attribute of `a` that the shape span `b` sets.
fn merge_shape_span(a: &mut ShapeSpan, b: &Span)
    requires
        is_shape_span(*b),
    ensures
        *final(a) == apply_shape(*old(a), *b),
{
    match b {
        Span::FontSize(x) => a.font_size = *x,
        Span::FontId(x) => a.font_id = *x,
        _ => {
            assert(false);
        },
    }
}

/// `cut_in_place` and `cut_extras` of `x`.
fn cut_span(x: &ShapeSpan, r: &Range<usize>, span: &Span) -> (res: (ShapeSpan, Vec<ShapeSpan>))
    requires
        is_shape_span(*span),
    ensures
        res.0 == cut_in_place(*x, *r, *span),
        res.1@ == cut_extras(*x, *r, *span),
{
    let rb_start = x.byte_range.start;
    let rb_end = x.byte_range.end;
    let mut extras: Vec<ShapeSpan> = Vec::new();
    if rb_start >= r.start && rb_end <= r.end {
        let mut y = span_over(x, rb_start, rb_end);
        merge_shape_span(&mut y, span);
        (y, extras)
    } else if rb_start < r.start && rb_end > r.end {
        let mut middle = span_over(x, r.start, r.end);
        merge_shape_span(&mut middle, span);
        extras.push(middle);
        extras.push(span_over(x, r.end, rb_end));
        (span_over(x, rb_start, r.start), extras)
    } else if rb_start < r.start && rb_end > r.start {
        let mut end = span_over(x, r.start, rb_end);
        merge_shape_span(&mut end, span);
        extras.push(end);
        (span_over(x, rb_start, r.start), extras)
    } else if rb_start < r.end && rb_end > r.end {
        let mut beggin = span_over(x, rb_start, r.end);
        merge_shape_span(&mut beggin, span);
        extras.push(beggin);
        (span_over(x, r.end, rb_end), extras)
    } else {
        (span_over(x, rb_start, rb_end), extras)
    }
}

/// The spans are in order and disjoint: each ends before the next starts.
pub open spec fn spans_ordered(s: Seq<ShapeSpan>) -> bool {
    &&& forall|i: int| 0 <= i < s.len() ==> (#[trigger] s[i]).byte_range.start <= s[i].byte_range.end
    &&& forall|i: int, j: int|
        0 <= i < j < s.len() ==> (#[trigger] s[i]).byte_range.end <= (#[trigger] s[j]).byte_range.start
}

/// The span `x` holds the byte `index`.
pub open spec fn holds(x: ShapeSpan, index: usize) -> bool {
    x.byte_range.start <= index < x.byte_range.end
}

/// The spans `s` after splitting the span that holds `index` there (when it does not start at
/// `index`).
pub open spec fn split_result(s: Seq<ShapeSpan>, i: int, index: usize) -> Seq<ShapeSpan> {
    let x = s[i];
    if x.byte_range.start == index {
        s
    } else {
        s.take(i) + seq![spanning(x, x.byte_range.start, index), spanning(x, index, x.byte_range.end)]
            + s.skip(i + 1)
    }
}

/// The spans `s` after splitting the span that holds `index` there; nothing changes when no span
/// holds `index` or the span that does starts there.
pub open spec fn split_at(s: Seq<ShapeSpan>, index: usize) -> Seq<ShapeSpan> {
    if exists|i: int| 0 <= i < s.len() && holds(#[trigger] s[i], index) {
        split_result(s, choose|i: int| 0 <= i < s.len() && holds(#[trigger] s[i], index), index)
    } else {
        s
    }
}

/// The span at position `i`.
pub open spec fn span_at(s: Seq<ShapeSpan>, i: usize) -> ShapeSpan {
    s[i as int]
}

/// The position of the span of `s` that holds `index`, found by binary search with
/// `cmp_range`.
fn find_span(s: &Vec<ShapeSpan>, index: usize) -> (res: Option<usize>)
    requires
        spans_ordered(s@),
    ensures
        match res {
            Some(i) => i < s@.len() && holds(span_at(s@, i), index),
            None => forall|i: int| 0 <= i < s@.len() ==> !holds(#[trigger] s@[i], index),
        },
{
    let mut lo: usize = 0;
    let mut hi: usize = s.len();
    while lo < hi
        invariant
            spans_ordered(s@),
            lo <= hi <= s@.len(),
            forall|i: int| 0 <= i < lo ==> !holds(#[trigger] s@[i], index),
            forall|i: int| hi <= i < s@.len() ==> !holds(#[trigger] s@[i], index),
        decreases hi - lo,
    {
        let mid = lo + (hi - lo) / 2;
        let range = s[mid].byte_range.start..s[mid].byte_range.end;
        match cmp_range(index, range) {
            Ordering::Equal => {
                return Some(mid);
            },
            Ordering::Greater => {
                assert forall|i: int| mid <= i < s@.len() implies !holds(#[trigger] s@[i], index) by {
                    if i > mid {
                        assert(span_at(s@, mid).byte_range.end <= s@[i].byte_range.start);
                    }
                }
                hi = mid;
            },
            Ordering::Less => {
                assert forall|i: int| 0 <= i <= mid implies !holds(#[trigger] s@[i], index) by {
                    if i < mid {
                        assert(s@[i].byte_range.end <= span_at(s@, mid).byte_range.start);
                    }
                }
                lo = mid + 1;
            },
        }
    }
    None
}

/// The range `r` as `replace_range` reads it: a range that does not go forward is the empty
/// range at its start.
pub open spec fn normalized(r: Range<usize>) -> Range<usize> {
    if r.start < r.end {
        r
    } else {
        Range { start: r.start, end: r.start }
    }
}

/// `b` lies within `r`.
pub open spec fn range_inside(b: Range<usize>, r: Range<usize>) -> bool {
    b.start >= r.start && b.end <= r.end
}

/// The shape spans of `s` that do not lie within `r`, in order.
pub open spec fn kept_shapes(s: Seq<ShapeSpan>, r: Range<usize>) -> Seq<ShapeSpan>
    decreases s.len(),
{
    if s.len() == 0 {
        Seq::empty()
    } else if range_inside(s.last().byte_range, r) {
        kept_shapes(s.drop_last(), r)
    } else {
        kept_shapes(s.drop_last(), r).push(s.last())
    }
}

/// The style spans of `s` that do not lie within `r`, in order.
pub open spec fn kept_styles(s: Seq<StyleSpan>, r: Range<usize>) -> Seq<StyleSpan>
    decreases s.len(),
{
    if s.len() == 0 {
        Seq::empty()
    } else if range_inside(s.last().byte_range, r) {
        kept_styles(s.drop_last(), r)
    } else {
        kept_styles(s.drop_last(), r).push(s.last())
    }
}

/// The style spans of `s` that are no selection, in order.
pub open spec fn without_selections(s: Seq<StyleSpan>) -> Seq<StyleSpan>
    decreases s.len(),
{
    if s.len() == 0 {
        Seq::empty()
    } else if s.last().kind is Selection {
        without_selections(s.drop_last())
    } else {
        without_selections(s.drop_last()).push(s.last())
    }
}

/// Where the byte at `v` (at or after the end of `r`) moves when `r` is replaced by `n` bytes.
pub open spec fn shifted(v: usize, r: Range<usize>, n: nat) -> usize {
    (v - (r.end - r.start) + n) as usize
}

/// `r` lies strictly inside the span `x`, cutting it in three.
pub open spec fn cuts_in_three(x: ShapeSpan, r: Range<usize>) -> bool {
    x.byte_range.start < r.start && x.byte_range.end > r.end
}

/// What the span `x` (not within `r`) becomes when `r` is replaced by `n` bytes: cut at `r`
/// and, after `r`, moved by the change of length.
pub open spec fn replaced_span(x: ShapeSpan, r: Range<usize>, n: nat) -> ShapeSpan {
    let s0 = x.byte_range.start;
    let e0 = x.byte_range.end;
    if cuts_in_three(x, r) {
        if n == 0 {
            spanning(x, s0, (e0 - (r.end - r.start)) as usize)
        } else {
            spanning(x, s0, r.start)
        }
    } else if s0 < r.start && e0 > r.start {
        spanning(x, s0, r.start)
    } else if s0 < r.end && e0 > r.end {
        spanning(x, shifted(r.end, r, n), shifted(e0, r, n))
    } else if s0 >= r.end {
        spanning(x, shifted(s0, r, n), shifted(e0, r, n))
    } else {
        x
    }
}

/// The part after `r` of the last span of `s` that `r` cuts in three, when `n` bytes replace
/// `r` (none are inserted when `n` is 0).
pub open spec fn last_split(s: Seq<ShapeSpan>, r: Range<usize>, n: nat) -> Option<ShapeSpan>
    decreases s.len(),
{
    if s.len() == 0 {
        None
    } else if cuts_in_three(s.last(), r) && n > 0 {
        Some(spanning(s.last(), shifted(r.end, r, n), shifted(s.last().byte_range.end, r, n)))
    } else {
        last_split(s.drop_last(), r, n)
    }
}

/// The position after the last span of `m` that ends at or before the start of `r` (0 if none).
pub open spec fn insert_pos(m: Seq<ShapeSpan>, r: Range<usize>) -> int
    decreases m.len(),
{
    if m.len() == 0 {
        0
    } else if m.last().byte_range.end <= r.start {
        m.len() as int
    } else {
        insert_pos(m.drop_last(), r)
    }
}

/// The span of the default shape over `r`, followed by `split` if there is one.
pub open spec fn inserted_spans(r: Range<usize>, default: TextStyle, split: Option<ShapeSpan>) -> Seq<ShapeSpan> {
    let shape = ShapeSpan { byte_range: r, font_size: default.font_size, font_id: default.font_id };
    match split {
        Some(sp) => seq![shape, sp],
        None => seq![shape],
    }
}

/// The shape spans after replacing the range `r` (normalized) of the text by `n` bytes: the
/// spans within `r` are dropped, the others cut and moved; inserted text gets a span of the
/// default shape over `r`, placed after the spans that end before `r`, followed by the part
/// after `r` of a span that `r` cut in three; then spans of the same shape are merged.
pub open spec fn replaced_shapes(s: Seq<ShapeSpan>, r: Range<usize>, n: nat, default: TextStyle) -> Seq<ShapeSpan> {
    let kept = kept_shapes(s, r);
    let mods = kept.map_values(|x: ShapeSpan| replaced_span(x, r, n));
    if n > 0 {
        let ii = insert_pos(mods, r);
        let ins = inserted_spans(r, default, last_split(kept, r, n));
        merge_runs(mods.take(ii) + ins + mods.skip(ii))
    } else {
        merge_runs(mods)
    }
}

/// Replacing `r` by `n` bytes moves the span `x` without going below 0 or above `usize::MAX`.
pub open spec fn shift_fits(x: ShapeSpan, r: Range<usize>, n: nat) -> bool {
    let l = r.end - r.start;
    let s0 = x.byte_range.start;
    let e0 = x.byte_range.end;
    if cuts_in_three(x, r) {
        n > 0 ==> e0 + n - l <= usize::MAX
    } else if s0 < r.start && e0 > r.start {
        true
    } else if s0 < r.end && e0 > r.end {
        e0 + n - l <= usize::MAX
    } else if s0 >= r.end {
        &&& e0 + n >= l
        &&& s0 + n - l <= usize::MAX
        &&& e0 + n - l <= usize::MAX
    } else {
        true
    }
}

/// Replaces the bytes `start..end` of `s` by `with`.
#[verifier::external_body]
fn string_replace_range(s: &mut String, start: usize, end: usize, with: &str)
    requires
        start <= end <= bytes_of(old(s)@).len(),
        is_char_boundary(bytes_of(old(s)@), start as int),
        is_char_boundary(bytes_of(old(s)@), end as int),
        bytes_of(old(s)@).len() - (end - start) + with.spec_bytes().len() <= usize::MAX,
    ensures
        bytes_of(final(s)@) == bytes_of(old(s)@).take(start as int) + with.spec_bytes() + bytes_of(
            old(s)@,
        ).skip(end as int),
{
    s.replace_range(start..end, with)
}

/// `v - l + n`.
fn shift_pos(v: usize, l: usize, n: usize) -> (res: usize)
    requires
        v + n >= l,
        v + n - l <= usize::MAX,
    ensures
        res == v + n - l,
{
    if n >= l {
        v + (n - l)
    } else {
        v - (l - n)
    }
}

/// A String with sections of it associated with diferents styles.
#[derive(Debug)]
pub struct SpannedString {
    pub(crate) string: String,
    shape_spans: Vec<ShapeSpan>,
    style_spans: Vec<StyleSpan>,
    default: TextStyle,
}

/// The bytes of a string.
pub open spec fn bytes_of(s: Seq<char>) -> Seq<u8> {
    encode_utf8(s)
}

impl SpannedString {
    /// The text, as bytes.
    pub closed spec fn text(&self) -> Seq<u8> {
        bytes_of(self.string@)
    }

    /// The shape spans.
    pub closed spec fn shapes(&self) -> Seq<ShapeSpan> {
        self.shape_spans@
    }

    /// The style spans.
    pub closed spec fn styles(&self) -> Seq<StyleSpan> {
        self.style_spans@
    }

    /// The style of the text outside the spans, and of inserted text.
    pub closed spec fn default_style(&self) -> TextStyle {
        self.default
    }

    /// No text, with the given default style.
    pub fn new(default_style: TextStyle) -> (s: SpannedString)
        ensures
            s.text().len() == 0,
            s.shapes().len() == 0,
            s.styles().len() == 0,
            s.default_style() == default_style,
    {
        SpannedString {
            string: String::new(),
            shape_spans: Vec::new(),
            style_spans: Vec::new(),
            default: default_style,
        }
    }

    /// Returns a reference to the underline string.
    pub fn string(&self) -> (s: &str)
        ensures
            s.spec_bytes() == self.text(),
    {
        self.string.as_str()
    }

    /// The shape spans, in order.
    pub fn shape_spans(&self) -> (s: &[ShapeSpan])
        ensures
            s@ == self.shapes(),
    {
        self.shape_spans.as_slice()
    }

    /// The style spans, in the order they were added.
    pub fn style_spans(&self) -> (s: &[StyleSpan])
        ensures
            s@ == self.styles(),
    {
        self.style_spans.as_slice()
    }

    /// The default style.
    pub fn default_text_style(&self) -> (s: TextStyle)
        ensures
            s == self.default_style(),
    {
        self.default
    }

    /// Remove the text and all the spans, keeping the default style.
    pub fn clear(&mut self)
        ensures
            final(self).text().len() == 0,
            final(self).shapes().len() == 0,
            final(self).styles().len() == 0,
            final(self).default_style() == old(self).default_style(),
    {
        self.string = String::new();
        self.shape_spans.clear();
        self.style_spans.clear();
    }

    /// The text `string`, with one shape span over all of it, of the given style.
    pub fn from_string(string: String, style: TextStyle) -> (s: SpannedString)
        ensures
            s.text() == bytes_of(string@),
            s.shapes() == seq![
                ShapeSpan {
                    byte_range: Range { start: 0, end: bytes_of(string@).len() as usize },
                    font_size: style.font_size,
                    font_id: style.font_id,
                },
            ],
            s.styles().len() == 0,
            s.default_style() == style,
    {
        let len = string.as_str().len();
        let mut shape_spans = Vec::new();
        shape_spans.push(
            ShapeSpan { byte_range: 0..len, font_size: style.font_size, font_id: style.font_id },
        );
        SpannedString { string, shape_spans, style_spans: Vec::new(), default: style }
    }

    /// Remove the selections, keeping the other style spans in order.
    pub fn clear_selections(&mut self)
        ensures
            final(self).text() == old(self).text(),
            final(self).shapes() == old(self).shapes(),
            final(self).default_style() == old(self).default_style(),
            final(self).styles() == without_selections(old(self).styles()),
    {
        let ghost st = self.style_spans@;
        let mut kept: Vec<StyleSpan> = Vec::new();
        let mut i: usize = 0;
        while i < self.style_spans.len()
            invariant
                st == self.style_spans@,
                i <= st.len(),
                kept@ == without_selections(st.take(i as int)),
            decreases st.len() - i,
        {
            assert(st.take(i + 1).drop_last() =~= st.take(i as int));
            let x = &self.style_spans[i];
            match x.kind {
                StyleKind::Selection { .. } => {},
                _ => kept.push(StyleSpan { byte_range: x.byte_range.start..x.byte_range.end, kind: x.kind }),
            }
            i = i + 1;
        }
        assert(st.take(i as int) =~= st);
        self.style_spans = kept;
    }

    /// Clear all spans, and replace with only one, with the given style.
    pub fn set_style(&mut self, style: TextStyle)
        ensures
            final(self).text() == old(self).text(),
            final(self).shapes() == seq![
                ShapeSpan {
                    byte_range: Range { start: 0, end: old(self).text().len() as usize },
                    font_size: style.font_size,
                    font_id: style.font_id,
                },
            ],
            final(self).styles().len() == 0,
            final(self).default_style() == style,
    {
        self.shape_spans.clear();
        self.style_spans.clear();
        let len = self.string.as_str().len();
        self.shape_spans.push(
            ShapeSpan { byte_range: 0..len, font_size: style.font_size, font_id: style.font_id },
        );
        self.default = style;
    }

    /// Apply a span to a range of the text: a text effect is recorded as a style span, a shape
    /// change reshapes the text of the range, splitting the shape spans at its ends.
    pub fn add_span(&mut self, range: Range<usize>, span: Span)
        ensures
            final(self).text() == old(self).text(),
            final(self).default_style() == old(self).default_style(),
            match spec_style_kind(span) {
                Ok(kind) => {
                    &&& final(self).styles().len() == old(self).styles().len() + 1
                    &&& final(self).styles().take(old(self).styles().len() as int) == old(self).styles()
                    &&& final(self).styles().last() == (StyleSpan { byte_range: range, kind })
                    &&& final(self).shapes() == old(self).shapes()
                },
                Err(_) => {
                    &&& final(self).styles() == old(self).styles()
                    &&& final(self).shapes() == add_shape_result(old(self).shapes(), range, span)
                },
            },
    {
        match StyleKind::from_span(span) {
            Ok(kind) => {
                self.style_spans.push(StyleSpan { byte_range: range, kind });
                assert(self.style_spans@.take(old(self).style_spans@.len() as int)
                    =~= old(self).style_spans@);
            },
            Err(span) => {
                self.add_shape_span(range, span);
            },
        }
    }

    fn add_shape_span(&mut self, range: Range<usize>, span: Span)
        requires
            is_shape_span(span),
        ensures
            final(self).text() == old(self).text(),
            final(self).default_style() == old(self).default_style(),
            final(self).styles() == old(self).styles(),
            final(self).shapes() == add_shape_result(old(self).shapes(), range, span),
    {
        let ghost s = self.shape_spans@;
        let mut in_place: Vec<ShapeSpan> = Vec::new();
        let mut to_append: Vec<ShapeSpan> = Vec::new();
        let mut i: usize = 0;
        while i < self.shape_spans.len()
            invariant
                s == self.shape_spans@,
                is_shape_span(span),
                i <= s.len(),
                in_place@ == s.take(i as int).map_values(|x: ShapeSpan| cut_in_place(x, range, span)),
                to_append@ == all_extras(s.take(i as int), range, span),
            decreases s.len() - i,
        {
            let (kept, mut extras) = cut_span(&self.shape_spans[i], &range, &span);
            in_place.push(kept);
            to_append.append(&mut extras);
            proof {
                assert(s.take(i + 1).drop_last() =~= s.take(i as int));
                assert(s.take(i + 1).map_values(|x: ShapeSpan| cut_in_place(x, range, span))
                    =~= s.take(i as int).map_values(|x: ShapeSpan| cut_in_place(x, range, span)).push(
                    cut_in_place(s[i as int], range, span),
                ));
            }
            i = i + 1;
        }
        assert(s.take(i as int) =~= s);
        in_place.append(&mut to_append);
        let sorted = sort_by_start(in_place);
        self.shape_spans = merge_runs_exec(sorted);
    }

    /// Find the shape span that holds the byte `index`, and split it in two there. This is used
    /// for text shaping. Nothing changes when no span holds `index` or the span starts there.
    pub fn split_shape_span(&mut self, index: usize)
        requires
            spans_ordered(old(self).shapes()),
        ensures
            final(self).text() == old(self).text(),
            final(self).default_style() == old(self).default_style(),
            final(self).styles() == old(self).styles(),
            spans_ordered(final(self).shapes()),
            (forall|i: int| 0 <= i < old(self).shapes().len() ==> !holds(#[trigger] old(self).shapes()[i], index))
                ==> final(self).shapes() == old(self).shapes(),
            forall|i: int|
                0 <= i < old(self).shapes().len() && holds(#[trigger] old(self).shapes()[i], index)
                    ==> final(self).shapes() == split_result(old(self).shapes(), i, index),
            final(self).shapes() == split_at(old(self).shapes(), index),
    {
        let ghost s = self.shape_spans@;
        let i = match find_span(&self.shape_spans, index) {
            Some(x) => x,
            None => return,
        };
        assert forall|k: int| 0 <= k < s.len() && holds(#[trigger] s[k], index) implies k == i by {
            if k < i {
                assert(s[k].byte_range.end <= s[i as int].byte_range.start);
            } else if k > i {
                assert(s[i as int].byte_range.end <= s[k].byte_range.start);
            }
        }
        assert(split_at(s, index) == split_result(s, i as int, index)) by {
            assert(holds(s[i as int], index));
        }
        if self.shape_spans[i].byte_range.start == index {
            return;
        }
        let first = span_over(&self.shape_spans[i], self.shape_spans[i].byte_range.start, index);
        let second = span_over(&self.shape_spans[i], index, self.shape_spans[i].byte_range.end);
        self.shape_spans.set(i, first);
        let len = self.shape_spans.len();
        assert(i < len);
        self.shape_spans.insert(i + 1, second);
        proof {
            let r = split_result(s, i as int, index);
            assert(self.shape_spans@ =~= r);
            assert forall|a: int, b: int| 0 <= a < b < r.len() implies (#[trigger] r[a]).byte_range.end
                <= (#[trigger] r[b]).byte_range.start by {
                let oa = if a <= i { a } else { a - 1 };
                let ob = if b <= i { b } else { b - 1 };
                if oa < ob {
                    assert(s[oa].byte_range.end <= s[ob].byte_range.start);
                }
            }
        }
    }

    /// `replace_range(range, ..)` with a string of bytes `with` can run on this string: the range
    /// lies within the text at char boundaries, the new text fits in memory, and every span that
    /// is kept can be moved.
    pub open spec fn can_replace(&self, range: Range<usize>, with: Seq<u8>) -> bool {
        let r = normalized(range);
        &&& r.end <= self.text().len()
        &&& is_char_boundary(self.text(), r.start as int)
        &&& is_char_boundary(self.text(), r.end as int)
        &&& self.text().len() - (r.end - r.start) + with.len() <= usize::MAX
        &&& forall|i: int|
            0 <= i < self.shapes().len() && !range_inside((#[trigger] self.shapes()[i]).byte_range, r)
                ==> shift_fits(self.shapes()[i], r, with.len())
    }

    /// `after` is this string with its range `range` replaced by the bytes `with`: the text is
    /// spliced, the shape spans are cut, moved and merged, the style spans inside the range are
    /// dropped, and the default style stays.
    pub open spec fn replaced(&self, range: Range<usize>, with: Seq<u8>, after: SpannedString) -> bool {
        let r = normalized(range);
        &&& after.text() == self.text().take(r.start as int) + with + self.text().skip(r.end as int)
        &&& after.shapes() == replaced_shapes(self.shapes(), r, with.len(), self.default_style())
        &&& after.styles() == kept_styles(self.styles(), r)
        &&& after.default_style() == self.default_style()
    }

    /// Removes the range `range` of the text, and replaces it with `string`, cutting and
    /// moving the spans. A range that does not go forward is the empty range at its start.
    /// The span of the default shape that the inserted text gets covers the replaced range,
    /// not the inserted bytes, so when their lengths differ it can overlap the spans after it
    /// (or leave bytes uncovered); the shape spans are then no longer a tiling of the text.
    pub fn replace_range(&mut self, range: Range<usize>, string: &str)
        requires
            old(self).can_replace(range, string.spec_bytes()),
        ensures
            old(self).replaced(range, string.spec_bytes(), *final(self)),
    {
        let ghost r = normalized(range);
        let ghost s = self.shape_spans@;
        let start = range.start;
        let end = if range.start < range.end {
            range.end
        } else {
            range.start
        };
        assert(r.start == start && r.end == end);
        let n = string.len();
        let l = end - start;
        assert forall|i: int|
            0 <= i < s.len() && !range_inside((#[trigger] s[i]).byte_range, r) implies shift_fits(s[i], r, n as nat) by {
            assert(s[i] == old(self).shapes()[i]);
        }
        // the spans within the range are removed
        let mut kept: Vec<ShapeSpan> = Vec::new();
        let mut i: usize = 0;
        while i < self.shape_spans.len()
            invariant
                s == self.shape_spans@,
                r.start == start && r.end == end,
                n == string.spec_bytes().len(),
                i <= s.len(),
                kept@ == kept_shapes(s.take(i as int), r),
                forall|k: int| 0 <= k < kept@.len() ==> !range_inside((#[trigger] kept@[k]).byte_range, r) && shift_fits(kept@[k], r, n as nat),
                forall|i: int|
                    0 <= i < s.len() && !range_inside((#[trigger] s[i]).byte_range, r) ==> shift_fits(s[i], r, n as nat),
            decreases s.len() - i,
        {
            assert(s.take(i + 1).drop_last() =~= s.take(i as int));
            let x = &self.shape_spans[i];
            if !(x.byte_range.start >= start && x.byte_range.end <= end) {
                kept.push(span_over(x, x.byte_range.start, x.byte_range.end));
            }
            i = i + 1;
        }
        assert(s.take(i as int) =~= s);
        let ghost st = self.style_spans@;
        let mut kept_style: Vec<StyleSpan> = Vec::new();
        let mut i: usize = 0;
        while i < self.style_spans.len()
            invariant
                st == self.style_spans@,
                r.start == start && r.end == end,
                i <= st.len(),
                kept_style@ == kept_styles(st.take(i as int), r),
            decreases st.len() - i,
        {
            assert(st.take(i + 1).drop_last() =~= st.take(i as int));
            let x = &self.style_spans[i];
            if !(x.byte_range.start >= start && x.byte_range.end <= end) {
                kept_style.push(StyleSpan { byte_range: x.byte_range.start..x.byte_range.end, kind: x.kind });
            }
            i = i + 1;
        }
        assert(st.take(i as int) =~= st);
        // cut and shift the spans
        let mut mods: Vec<ShapeSpan> = Vec::new();
        let mut split: Option<ShapeSpan> = None;
        let mut insert_index: usize = 0;
        let mut i: usize = 0;
        while i < kept.len()
            invariant
                r.start == start && r.end == end,
                l == end - start,
                n == string.spec_bytes().len(),
                i <= kept@.len(),
                forall|k: int| 0 <= k < kept@.len() ==> !range_inside((#[trigger] kept@[k]).byte_range, r) && shift_fits(kept@[k], r, n as nat),
                mods@ == kept@.take(i as int).map_values(|x: ShapeSpan| replaced_span(x, r, n as nat)),
                split == last_split(kept@.take(i as int), r, n as nat),
                insert_index == insert_pos(mods@, r),
                insert_index <= mods@.len(),
            decreases kept@.len() - i,
        {
            let x = &kept[i];
            assert(kept@.take(i + 1).drop_last() =~= kept@.take(i as int));
            assert(shift_fits(kept@[i as int], r, n as nat));
            let s0 = x.byte_range.start;
            let e0 = x.byte_range.end;
            let m = if s0 < start && e0 > end {
                if n == 0 {
                    span_over(x, s0, e0 - l)
                } else {
                    split = Some(span_over(x, shift_pos(end, l, n), shift_pos(e0, l, n)));
                    span_over(x, s0, start)
                }
            } else if s0 < start && e0 > start {
                span_over(x, s0, start)
            } else if s0 < end && e0 > end {
                span_over(x, shift_pos(end, l, n), shift_pos(e0, l, n))
            } else if s0 >= end {
                span_over(x, shift_pos(s0, l, n), shift_pos(e0, l, n))
            } else {
                span_over(x, s0, e0)
            };
            if m.byte_range.end <= start {
                insert_index = i + 1;
            }
            mods.push(m);
            proof {
                assert(mods@ =~= kept@.take(i + 1).map_values(|x: ShapeSpan| replaced_span(x, r, n as nat)));
                assert(mods@.drop_last() =~= kept@.take(i as int).map_values(|x: ShapeSpan| replaced_span(x, r, n as nat)));
            }
            i = i + 1;
        }
        assert(kept@.take(i as int) =~= kept@);
        string_replace_range(&mut self.string, start, end, string);
        let spans = if n > 0 {
            let ghost ins = inserted_spans(r, self.default, split);
            let mut spans: Vec<ShapeSpan> = Vec::new();
            let mut k: usize = 0;
            while k < insert_index
                invariant
                    insert_index <= mods@.len(),
                    k <= insert_index,
                    spans@ == mods@.take(k as int),
                decreases insert_index - k,
            {
                spans.push(span_over(&mods[k], mods[k].byte_range.start, mods[k].byte_range.end));
                assert(spans@ =~= mods@.take(k + 1));
                k = k + 1;
            }
            spans.push(ShapeSpan { byte_range: start..end, font_size: self.default.font_size, font_id: self.default.font_id });
            match split {
                Some(sp) => spans.push(sp),
                None => {},
            }
            assert(spans@ =~= mods@.take(insert_index as int) + ins);
            let mut k: usize = insert_index;
            while k < mods.len()
                invariant
                    insert_index <= k <= mods@.len(),
                    spans@ == mods@.take(insert_index as int) + ins + mods@.subrange(insert_index as int, k as int),
                decreases mods@.len() - k,
            {
                spans.push(span_over(&mods[k], mods[k].byte_range.start, mods[k].byte_range.end));
                assert(spans@ =~= mods@.take(insert_index as int) + ins + mods@.subrange(insert_index as int, k + 1));
                k = k + 1;
            }
            assert(mods@.subrange(insert_index as int, k as int) =~= mods@.skip(insert_index as int));
            spans
        } else {
            mods
        };
        self.shape_spans = merge_runs_exec(spans);
        self.style_spans = kept_style;
    }
}

/// The font size and font of the span of `s` that holds the byte `b`, if one does.
pub open spec fn shape_at(s: Seq<ShapeSpan>, b: usize) -> Option<(u32, FontId)> {
    if exists|i: int| 0 <= i < s.len() && holds(#[trigger] s[i], b) {
        let x = s[choose|i: int| 0 <= i < s.len() && holds(#[trigger] s[i], b)];
        Some((x.font_size, x.font_id))
    } else {
        None
    }
}

/// In ordered spans, the span that holds a byte is the only one.
proof fn lemma_unique_holder(s: Seq<ShapeSpan>, b: usize, i: int)
    requires
        spans_ordered(s),
        0 <= i < s.len(),
        holds(s[i], b),
    ensures
        (choose|j: int| 0 <= j < s.len() && holds(#[trigger] s[j], b)) == i,
        shape_at(s, b) == Some((s[i].font_size, s[i].font_id)),
{
    let j = choose|j: int| 0 <= j < s.len() && holds(#[trigger] s[j], b);
    assert(holds(s[j], b));
    if j < i {
        assert(s[j].byte_range.end <= s[i].byte_range.start);
    } else if j > i {
        assert(s[i].byte_range.end <= s[j].byte_range.start);
    }
}

/// Splitting keeps the spans in order.
pub proof fn lemma_split_ordered(s: Seq<ShapeSpan>, index: usize)
    requires
        spans_ordered(s),
    ensures
        spans_ordered(split_at(s, index)),
{
    if exists|i: int| 0 <= i < s.len() && holds(#[trigger] s[i], index) {
        let i = choose|i: int| 0 <= i < s.len() && holds(#[trigger] s[i], index);
        let x = s[i];
        if x.byte_range.start != index {
            let r = split_result(s, i, index);
            assert forall|a: int| 0 <= a < r.len() implies (#[trigger] r[a]).byte_range.start
                <= r[a].byte_range.end by {
                if a < i {
                    assert(r[a] == s[a]);
                } else if a > i + 1 {
                    assert(r[a] == s[a - 1]);
                }
            }
            assert forall|a: int, c: int| 0 <= a < c < r.len() implies (#[trigger] r[a]).byte_range.end
                <= (#[trigger] r[c]).byte_range.start by {
                let oa = if a <= i { a } else { a - 1 };
                let oc = if c <= i { c } else { c - 1 };
                if oa < oc {
                    assert(s[oa].byte_range.end <= s[oc].byte_range.start);
                }
                if a < i {
                    assert(r[a] == s[a]);
                } else if a > i + 1 {
                    assert(r[a] == s[a - 1]);
                }
                if c < i {
                    assert(r[c] == s[c]);
                } else if c > i + 1 {
                    assert(r[c] == s[c - 1]);
                }
            }
        }
    }
}

/// Splitting a shape span at any byte changes the shape of no byte: each byte is held by a span
/// of the same font size and font before and after, or by none in both.
pub proof fn lemma_split_keeps_shapes(s: Seq<ShapeSpan>, index: usize, b: usize)
    requires
        spans_ordered(s),
    ensures
        shape_at(split_at(s, index), b) == shape_at(s, b),
{
    lemma_split_ordered(s, index);
    if exists|i: int| 0 <= i < s.len() && holds(#[trigger] s[i], index) {
        let i = choose|i: int| 0 <= i < s.len() && holds(#[trigger] s[i], index);
        let x = s[i];
        if x.byte_range.start != index {
            let r = split_result(s, i, index);
            assert(r == split_at(s, index));
            if exists|j: int| 0 <= j < s.len() && holds(#[trigger] s[j], b) {
                let j = choose|j: int| 0 <= j < s.len() && holds(#[trigger] s[j], b);
                lemma_unique_holder(s, b, j);
                let k = if j < i {
                    j
                } else if j > i {
                    j + 1
                } else if b < index {
                    i
                } else {
                    i + 1
                };
                if j < i {
                    assert(r[k] == s[j]);
                } else if j > i {
                    assert(r[k] == s[j]);
                }
                assert(holds(r[k], b));
                lemma_unique_holder(r, b, k);
            } else {
                if exists|k: int| 0 <= k < r.len() && holds(#[trigger] r[k], b) {
                    let k = choose|k: int| 0 <= k < r.len() && holds(#[trigger] r[k], b);
                    if k < i {
                        assert(r[k] == s[k]);
                        assert(holds(s[k], b));
                    } else if k > i + 1 {
                        assert(r[k] == s[k - 1]);
                        assert(holds(s[k - 1], b));
                    } else {
                        assert(holds(s[i], b));
                    }
                }
            }
        }
    }
}

/// Replacing the range `range` of the text by `with`, and then the inserted bytes by the removed
/// ones, gives the text back.
pub proof fn lemma_replace_undone(
    a: SpannedString,
    b: SpannedString,
    c: SpannedString,
    range: Range<usize>,
    with: Seq<u8>,
)
    requires
        range.start <= range.end <= a.text().len(),
        range.start + with.len() <= usize::MAX,
        a.replaced(range, with, b),
        b.replaced(
            range.start..(range.start + with.len()) as usize,
            a.text().subrange(range.start as int, range.end as int),
            c,
        ),
    ensures
        c.text() == a.text(),
{
    let t = a.text();
    let t1 = b.text();
    let start = range.start as int;
    let end = range.end as int;
    assert(t1 == t.take(start) + with + t.skip(end));
    assert(t1.take(start) =~= t.take(start));
    assert(t1.skip(start + with.len()) =~= t.skip(end));
    assert(t.take(start) + t.subrange(start, end) + t.skip(end) =~= t);
}

/// Every span holds at least one byte.
pub open spec fn all_nonempty(s: Seq<ShapeSpan>) -> bool {
    forall|i: int| 0 <= i < s.len() ==> (#[trigger] s[i]).byte_range.start < s[i].byte_range.end
}

/// The byte ranges of `a` and `c` do not overlap.
pub open spec fn apart(a: ShapeSpan, c: ShapeSpan) -> bool {
    a.byte_range.end <= c.byte_range.start || c.byte_range.end <= a.byte_range.start
}

/// No two spans of `s` overlap.
pub open spec fn all_apart(s: Seq<ShapeSpan>) -> bool {
    forall|i: int, j: int|
        0 <= i < s.len() && 0 <= j < s.len() && i != j ==> apart(#[trigger] s[i], #[trigger] s[j])
}

/// The range of `p` lies within the range of `x`.
pub open spec fn within(p: ShapeSpan, x: ShapeSpan) -> bool {
    x.byte_range.start <= p.byte_range.start && p.byte_range.end <= x.byte_range.end
}

/// The shape of the span `x`.
pub open spec fn shape_of(x: ShapeSpan) -> (u32, FontId) {
    (x.font_size, x.font_id)
}

/// The shape `sh` takes when the shape span `span` is applied to it.
pub open spec fn apply_to(sh: (u32, FontId), span: Span) -> (u32, FontId) {
    match span {
        Span::FontSize(size) => (size, sh.1),
        Span::FontId(id) => (sh.0, id),
        _ => sh,
    }
}

/// The shape that the byte `b` of the span `x` has after the shape `span` is applied to `r`.
pub open spec fn shape_after(x: ShapeSpan, r: Range<usize>, span: Span, b: usize) -> (u32, FontId) {
    if r.start <= b < r.end {
        apply_to(shape_of(x), span)
    } else {
        shape_of(x)
    }
}

/// The pieces that cutting one span gives lie within it, hold a byte each, do not overlap, and
/// hold each of its bytes with the shape it is meant to get.
proof fn lemma_cut_pieces(x: ShapeSpan, r: Range<usize>, span: Span)
    requires
        x.byte_range.start < x.byte_range.end,
        r.start < r.end,
    ensures
        ({
            let p = cut_in_place(x, r, span);
            let e = cut_extras(x, r, span);
            &&& within(p, x)
            &&& p.byte_range.start < p.byte_range.end
            &&& shape_of(p) == shape_of(x) || shape_of(p) == apply_to(shape_of(x), span)
            &&& e.len() <= 2
            &&& forall|m: int| 0 <= m < e.len() ==> within(#[trigger] e[m], x)
            &&& forall|m: int|
                0 <= m < e.len() ==> (#[trigger] e[m]).byte_range.start < e[m].byte_range.end
            &&& forall|m: int| 0 <= m < e.len() ==> apart(p, #[trigger] e[m])
            &&& e.len() == 2 ==> apart(e[0], e[1])
            &&& forall|b: usize|
                holds(x, b) ==> (holds(p, b) && shape_of(p) == shape_after(x, r, span, b)) || exists|
                    m: int,
                | 0 <= m < e.len() && holds(#[trigger] e[m], b) && shape_of(e[m]) == shape_after(
                    x,
                    r,
                    span,
                    b,
                )
        }),
{
    let p = cut_in_place(x, r, span);
    let e = cut_extras(x, r, span);
    assert forall|b: usize| holds(x, b) implies (holds(p, b) && shape_of(p) == shape_after(x, r, span, b))
        || exists|m: int| 0 <= m < e.len() && holds(#[trigger] e[m], b) && shape_of(e[m]) == shape_after(
        x,
        r,
        span,
        b,
    ) by {
        if !(holds(p, b) && shape_of(p) == shape_after(x, r, span, b)) {
            if e.len() > 0 && holds(e[0], b) {
                assert(shape_of(e[0]) == shape_after(x, r, span, b));
            } else {
                assert(e.len() == 2 && holds(e[1], b));
                assert(shape_of(e[1]) == shape_after(x, r, span, b));
            }
        }
    }
}

/// Which span of `s`, and which of its extra pieces, the position `j` of `all_extras(s, ..)`
/// comes from.
spec fn extras_origin(s: Seq<ShapeSpan>, r: Range<usize>, span: Span, j: int) -> (int, int)
    decreases s.len(),
{
    if s.len() == 0 {
        (0, 0)
    } else {
        let pre = all_extras(s.drop_last(), r, span);
        if j < pre.len() {
            extras_origin(s.drop_last(), r, span, j)
        } else {
            ((s.len() - 1) as int, j - pre.len())
        }
    }
}

/// Each extra piece comes from a span of `s`, and the pieces keep the order of the spans they
/// come from.
proof fn lemma_extras_origin(s: Seq<ShapeSpan>, r: Range<usize>, span: Span, j1: int, j2: int)
    requires
        0 <= j1 <= j2 < all_extras(s, r, span).len(),
    ensures
        ({
            let (i1, m1) = extras_origin(s, r, span, j1);
            let (i2, m2) = extras_origin(s, r, span, j2);
            &&& 0 <= i1 < s.len()
            &&& 0 <= m1 < cut_extras(s[i1], r, span).len()
            &&& all_extras(s, r, span)[j1] == cut_extras(s[i1], r, span)[m1]
            &&& 0 <= i2 < s.len()
            &&& 0 <= m2 < cut_extras(s[i2], r, span).len()
            &&& all_extras(s, r, span)[j2] == cut_extras(s[i2], r, span)[m2]
            &&& j1 < j2 ==> (i1 < i2 || (i1 == i2 && m1 < m2))
        }),
    decreases s.len(),
{
    let pre = all_extras(s.drop_last(), r, span);
    if j2 < pre.len() {
        lemma_extras_origin(s.drop_last(), r, span, j1, j2);
    } else if j1 < pre.len() {
        lemma_extras_origin(s.drop_last(), r, span, j1, j1);
    }
}

/// A piece that cutting the span `s[i]` adds is somewhere in `all_extras(s, ..)`.
proof fn lemma_extras_found(s: Seq<ShapeSpan>, r: Range<usize>, span: Span, i: int, m: int)
    requires
        0 <= i < s.len(),
        0 <= m < cut_extras(s[i], r, span).len(),
    ensures
        exists|j: int|
            0 <= j < all_extras(s, r, span).len() && #[trigger] all_extras(s, r, span)[j] == cut_extras(
                s[i],
                r,
                span,
            )[m],
    decreases s.len(),
{
    let pre = all_extras(s.drop_last(), r, span);
    let e = all_extras(s, r, span);
    if i < s.len() - 1 {
        lemma_extras_found(s.drop_last(), r, span, i, m);
        let j = choose|j: int|
            0 <= j < pre.len() && #[trigger] pre[j] == cut_extras(s.drop_last()[i], r, span)[m];
        assert(e[j] == pre[j]);
    } else {
        let j = pre.len() + m;
        assert(e[j] == cut_extras(s.last(), r, span)[m]);
    }
}

/// Which span of `s`, and which of its pieces (-1 for the piece in place), the position `j` of
/// `shape_pieces(s, ..)` comes from.
spec fn piece_origin(s: Seq<ShapeSpan>, r: Range<usize>, span: Span, j: int) -> (int, int) {
    if j < s.len() {
        (j, -1)
    } else {
        extras_origin(s, r, span, j - s.len())
    }
}

proof fn lemma_piece_origin(s: Seq<ShapeSpan>, r: Range<usize>, span: Span, j1: int, j2: int)
    requires
        0 <= j1 < j2 < shape_pieces(s, r, span).len(),
    ensures
        ({
            let ps = shape_pieces(s, r, span);
            let (i1, m1) = piece_origin(s, r, span, j1);
            let (i2, m2) = piece_origin(s, r, span, j2);
            &&& 0 <= i1 < s.len()
            &&& 0 <= i2 < s.len()
            &&& (m1 == -1 ==> ps[j1] == cut_in_place(s[i1], r, span))
            &&& (m1 >= 0 ==> m1 < cut_extras(s[i1], r, span).len() && ps[j1] == cut_extras(s[i1], r, span)[m1])
            &&& (m2 == -1 ==> ps[j2] == cut_in_place(s[i2], r, span))
            &&& (m2 >= 0 ==> m2 < cut_extras(s[i2], r, span).len() && ps[j2] == cut_extras(s[i2], r, span)[m2])
            &&& m1 >= -1 && m2 >= -1
            &&& (i1 == i2 ==> m1 < m2)
        }),
{
    let n = s.len() as int;
    let ps = shape_pieces(s, r, span);
    if j2 >= n {
        if j1 >= n {
            lemma_extras_origin(s, r, span, j1 - n, j2 - n);
        } else {
            lemma_extras_origin(s, r, span, j2 - n, j2 - n);
        }
        assert(ps[j2] == all_extras(s, r, span)[j2 - n]);
        if j1 >= n {
            assert(ps[j1] == all_extras(s, r, span)[j1 - n]);
        }
    }
}

/// The pieces of ordered spans hold a byte each, do not overlap, and hold each byte of the spans
/// with the shape it is meant to get.
proof fn lemma_pieces(s: Seq<ShapeSpan>, r: Range<usize>, span: Span)
    requires
        spans_ordered(s),
        all_nonempty(s),
        r.start < r.end,
    ensures
        all_nonempty(shape_pieces(s, r, span)),
        all_apart(shape_pieces(s, r, span)),
        forall|i: int, b: usize|
            0 <= i < s.len() && #[trigger] holds(s[i], b) ==> exists|j: int|
                0 <= j < shape_pieces(s, r, span).len() && holds(
                    #[trigger] shape_pieces(s, r, span)[j],
                    b,
                ) && shape_of(shape_pieces(s, r, span)[j]) == shape_after(s[i], r, span, b),
{
    let ps = shape_pieces(s, r, span);
    let n = s.len() as int;
    assert forall|j: int| 0 <= j < ps.len() implies (#[trigger] ps[j]).byte_range.start
        < ps[j].byte_range.end && within(ps[j], s[piece_origin(s, r, span, j).0]) by {
        if j < n {
            lemma_cut_pieces(s[j], r, span);
        } else {
            lemma_extras_origin(s, r, span, j - n, j - n);
            let (i, m) = extras_origin(s, r, span, j - n);
            lemma_cut_pieces(s[i], r, span);
            assert(ps[j] == all_extras(s, r, span)[j - n]);
        }
    }
    assert forall|a: int, c: int|
        0 <= a < ps.len() && 0 <= c < ps.len() && a != c implies apart(#[trigger] ps[a], #[trigger] ps[c]) by {
        let (lo, hi) = if a < c { (a, c) } else { (c, a) };
        lemma_piece_origin(s, r, span, lo, hi);
        let (i1, m1) = piece_origin(s, r, span, lo);
        let (i2, m2) = piece_origin(s, r, span, hi);
        assert(within(ps[lo], s[i1]));
        assert(within(ps[hi], s[i2]));
        if i1 < i2 {
            assert(s[i1].byte_range.end <= s[i2].byte_range.start);
        } else if i2 < i1 {
            assert(s[i2].byte_range.end <= s[i1].byte_range.start);
        } else {
            lemma_cut_pieces(s[i1], r, span);
        }
    }
    assert forall|i: int, b: usize| 0 <= i < s.len() && #[trigger] holds(s[i], b) implies exists|j: int|
        0 <= j < ps.len() && holds(#[trigger] ps[j], b) && shape_of(ps[j]) == shape_after(
        s[i],
        r,
        span,
        b,
    ) by {
        lemma_cut_pieces(s[i], r, span);
        let p = cut_in_place(s[i], r, span);
        if holds(p, b) && shape_of(p) == shape_after(s[i], r, span, b) {
            assert(ps[i] == p);
        } else {
            let e = cut_extras(s[i], r, span);
            let m = choose|m: int| 0 <= m < e.len() && holds(#[trigger] e[m], b) && shape_of(e[m])
                == shape_after(s[i], r, span, b);
            lemma_extras_found(s, r, span, i, m);
            let j = choose|j: int|
                0 <= j < all_extras(s, r, span).len() && #[trigger] all_extras(s, r, span)[j]
                    == cut_extras(s[i], r, span)[m];
            assert(ps[n + j] == e[m]);
        }
    }
}

/// Sorting pieces that do not overlap by their start puts them in order, and keeps them all.
proof fn lemma_sorted_pieces(p: Seq<ShapeSpan>)
    requires
        all_nonempty(p),
        all_apart(p),
    ensures
        spans_ordered(sorted_by_start(p)),
        all_nonempty(sorted_by_start(p)),
        forall|x: ShapeSpan| #[trigger] sorted_by_start(p).contains(x) <==> p.contains(x),
    decreases p.len(),
{
    if p.len() > 0 {
        let p1 = p.drop_last();
        let x = p.last();
        assert forall|a: int, c: int|
            0 <= a < p1.len() && 0 <= c < p1.len() && a != c implies apart(#[trigger] p1[a], #[trigger] p1[c]) by {
            assert(p1[a] == p[a] && p1[c] == p[c]);
        }
        lemma_sorted_pieces(p1);
        let t1 = sorted_by_start(p1);
        let k = first_after(t1, x.byte_range.start);
        lemma_first_after(t1, x.byte_range.start);
        let t = t1.insert(k, x);
        t1.insert_ensures(k, x);
        assert(t == sorted_by_start(p));
        assert forall|i: int| 0 <= i < t1.len() implies apart(#[trigger] t1[i], x) by {
            assert(t1.contains(t1[i]));
            assert(p1.contains(t1[i]));
            let j = choose|j: int| 0 <= j < p1.len() && p1[j] == t1[i];
            assert(p[j] == t1[i]);
            assert(apart(p[j], p[p.len() - 1]));
        }
        assert forall|i: int| 0 <= i < t.len() implies (#[trigger] t[i]).byte_range.start
            < t[i].byte_range.end by {
            if i < k {
                assert(t[i] == t1[i]);
            } else if i > k {
                assert(t[i] == t1[i - 1]);
            }
        }
        assert forall|a: int, c: int| 0 <= a < c < t.len() implies (#[trigger] t[a]).byte_range.end
            <= (#[trigger] t[c]).byte_range.start by {
            if c < k {
                assert(t[a] == t1[a] && t[c] == t1[c]);
            } else if a > k {
                assert(t[a] == t1[a - 1] && t[c] == t1[c - 1]);
            } else if a < k && c > k {
                assert(t[a] == t1[a] && t[c] == t1[c - 1]);
            } else if a == k {
                assert(t[c] == t1[c - 1]);
                assert(apart(t1[c - 1], x));
            } else {
                assert(c == k);
                assert(t[a] == t1[a]);
                assert(apart(t1[a], x));
            }
        }
        assert forall|y: ShapeSpan| #[trigger] t.contains(y) <==> p.contains(y) by {
            if t.contains(y) {
                let i = choose|i: int| 0 <= i < t.len() && t[i] == y;
                if i < k {
                    assert(t1.contains(t1[i]));
                } else if i > k {
                    assert(t1.contains(t1[i - 1]));
                }
                if y != x {
                    assert(p1.contains(y));
                    let j = choose|j: int| 0 <= j < p1.len() && p1[j] == y;
                    assert(p[j] == y);
                } else {
                    assert(p[p.len() - 1] == y);
                }
            }
            if p.contains(y) {
                let j = choose|j: int| 0 <= j < p.len() && p[j] == y;
                if j < p.len() - 1 {
                    assert(p1[j] == y);
                    assert(p1.contains(y));
                    assert(t1.contains(y));
                    let i = choose|i: int| 0 <= i < t1.len() && t1[i] == y;
                    if i < k {
                        assert(t[i] == y);
                    } else {
                        assert(t[i + 1] == y);
                    }
                } else {
                    assert(t[k] == y);
                }
            }
        }
    }
}

/// Merging runs of ordered spans keeps them in order, keeps the end of the last one, and holds
/// each byte they held with the same shape.
proof fn lemma_merge_keeps_shapes(t: Seq<ShapeSpan>)
    requires
        spans_ordered(t),
        all_nonempty(t),
    ensures
        spans_ordered(merge_runs(t)),
        all_nonempty(merge_runs(t)),
        t.len() > 0 ==> merge_runs(t).len() > 0 && merge_runs(t).last().byte_range.end == t.last().byte_range.end,
        forall|i: int, b: usize|
            0 <= i < t.len() && #[trigger] holds(t[i], b) ==> exists|k: int|
                0 <= k < merge_runs(t).len() && holds(#[trigger] merge_runs(t)[k], b) && shape_of(
                    merge_runs(t)[k],
                ) == shape_of(t[i]),
    decreases t.len(),
{
    if t.len() > 0 {
        let t1 = t.drop_last();
        let a = t.last();
        assert(spans_ordered(t1)) by {
            assert forall|x: int, y: int| 0 <= x < y < t1.len() implies (#[trigger] t1[x]).byte_range.end
                <= (#[trigger] t1[y]).byte_range.start by {
                assert(t1[x] == t[x] && t1[y] == t[y]);
            }
        }
        lemma_merge_keeps_shapes(t1);
        let m1 = merge_runs(t1);
        let m = merge_runs(t);
        if t1.len() > 0 {
            assert(t1.last() == t[t.len() - 2]);
            assert(t[t.len() - 2].byte_range.end <= a.byte_range.start);
        }
        if m1.len() > 0 && same_shape(m1.last(), a) {
            let l = m1.last();
            let n = spanning(l, l.byte_range.start, a.byte_range.end);
            assert(m == m1.drop_last().push(n));
            assert forall|x: int, y: int| 0 <= x < y < m.len() implies (#[trigger] m[x]).byte_range.end
                <= (#[trigger] m[y]).byte_range.start by {
                assert(m[x] == m1[x]);
                if y < m.len() - 1 {
                    assert(m[y] == m1[y]);
                } else {
                    assert(m1[x].byte_range.end <= m1[m1.len() - 1].byte_range.start);
                }
            }
            assert forall|x: int| 0 <= x < m.len() implies (#[trigger] m[x]).byte_range.start
                < m[x].byte_range.end by {
                if x < m.len() - 1 {
                    assert(m[x] == m1[x]);
                } else {
                    assert(m1[m1.len() - 1].byte_range.start < m1[m1.len() - 1].byte_range.end);
                }
            }
            assert forall|i: int, b: usize| 0 <= i < t.len() && #[trigger] holds(t[i], b) implies exists|k: int|
                0 <= k < m.len() && holds(#[trigger] m[k], b) && shape_of(m[k]) == shape_of(t[i]) by {
                if i < t.len() - 1 {
                    assert(t1[i] == t[i]);
                    assert(holds(t1[i], b));
                    let k = choose|k: int|
                        0 <= k < m1.len() && holds(#[trigger] m1[k], b) && shape_of(m1[k]) == shape_of(t1[i]);
                    if k < m1.len() - 1 {
                        assert(m[k] == m1[k]);
                    } else {
                        assert(holds(m[m.len() - 1], b));
                    }
                } else {
                    assert(l.byte_range.start < l.byte_range.end);
                    assert(holds(m[m.len() - 1], b));
                }
            }
        } else {
            assert(m == m1.push(a));
            assert forall|x: int, y: int| 0 <= x < y < m.len() implies (#[trigger] m[x]).byte_range.end
                <= (#[trigger] m[y]).byte_range.start by {
                assert(m[x] == m1[x]);
                if y < m.len() - 1 {
                    assert(m[y] == m1[y]);
                } else if x < m1.len() - 1 {
                    assert(m1[x].byte_range.end <= m1[m1.len() - 1].byte_range.start);
                    assert(m1[m1.len() - 1].byte_range.start < m1[m1.len() - 1].byte_range.end);
                }
            }
            assert forall|x: int| 0 <= x < m.len() implies (#[trigger] m[x]).byte_range.start
                < m[x].byte_range.end by {
                if x < m.len() - 1 {
                    assert(m[x] == m1[x]);
                }
            }
            assert forall|i: int, b: usize| 0 <= i < t.len() && #[trigger] holds(t[i], b) implies exists|k: int|
                0 <= k < m.len() && holds(#[trigger] m[k], b) && shape_of(m[k]) == shape_of(t[i]) by {
                if i < t.len() - 1 {
                    assert(t1[i] == t[i]);
                    assert(holds(t1[i], b));
                    let k = choose|k: int|
                        0 <= k < m1.len() && holds(#[trigger] m1[k], b) && shape_of(m1[k]) == shape_of(t1[i]);
                    assert(m[k] == m1[k]);
                } else {
                    assert(m[m.len() - 1] == a);
                }
            }
        }
    }
}

/// Merging runs of ordered spans, some of which may be empty, keeps them in order and holds
/// each byte they held with the same shape.
proof fn lemma_merge_keeps_held(t: Seq<ShapeSpan>)
    requires
        spans_ordered(t),
    ensures
        spans_ordered(merge_runs(t)),
        t.len() > 0 ==> merge_runs(t).len() > 0 && merge_runs(t).last().byte_range.end == t.last().byte_range.end,
        forall|i: int, b: usize|
            0 <= i < t.len() && #[trigger] holds(t[i], b) ==> exists|k: int|
                0 <= k < merge_runs(t).len() && holds(#[trigger] merge_runs(t)[k], b) && shape_of(
                    merge_runs(t)[k],
                ) == shape_of(t[i]),
    decreases t.len(),
{
    if t.len() > 0 {
        let t1 = t.drop_last();
        let a = t.last();
        assert(spans_ordered(t1)) by {
            assert forall|x: int, y: int| 0 <= x < y < t1.len() implies (#[trigger] t1[x]).byte_range.end
                <= (#[trigger] t1[y]).byte_range.start by {
                assert(t1[x] == t[x] && t1[y] == t[y]);
            }
        }
        lemma_merge_keeps_held(t1);
        let m1 = merge_runs(t1);
        let m = merge_runs(t);
        if t1.len() > 0 {
            assert(t1.last() == t[t.len() - 2]);
            assert(t[t.len() - 2].byte_range.end <= a.byte_range.start);
        }
        if m1.len() > 0 && same_shape(m1.last(), a) {
            let l = m1.last();
            let n = spanning(l, l.byte_range.start, a.byte_range.end);
            assert(m == m1.drop_last().push(n));
            assert forall|x: int, y: int| 0 <= x < y < m.len() implies (#[trigger] m[x]).byte_range.end
                <= (#[trigger] m[y]).byte_range.start by {
                assert(m[x] == m1[x]);
                if y < m.len() - 1 {
                    assert(m[y] == m1[y]);
                } else {
                    assert(m1[x].byte_range.end <= m1[m1.len() - 1].byte_range.start);
                }
            }
            assert forall|x: int| 0 <= x < m.len() implies (#[trigger] m[x]).byte_range.start
                <= m[x].byte_range.end by {
                if x < m.len() - 1 {
                    assert(m[x] == m1[x]);
                } else {
                    assert(m1[m1.len() - 1].byte_range.start <= m1[m1.len() - 1].byte_range.end);
                }
            }
            assert forall|i: int, b: usize| 0 <= i < t.len() && #[trigger] holds(t[i], b) implies exists|k: int|
                0 <= k < m.len() && holds(#[trigger] m[k], b) && shape_of(m[k]) == shape_of(t[i]) by {
                if i < t.len() - 1 {
                    assert(t1[i] == t[i]);
                    assert(holds(t1[i], b));
                    let k = choose|k: int|
                        0 <= k < m1.len() && holds(#[trigger] m1[k], b) && shape_of(m1[k]) == shape_of(t1[i]);
                    if k < m1.len() - 1 {
                        assert(m[k] == m1[k]);
                    } else {
                        assert(holds(m[m.len() - 1], b));
                    }
                } else {
                    assert(l.byte_range.start <= l.byte_range.end);
                    assert(holds(m[m.len() - 1], b));
                }
            }
        } else {
            assert(m == m1.push(a));
            assert forall|x: int, y: int| 0 <= x < y < m.len() implies (#[trigger] m[x]).byte_range.end
                <= (#[trigger] m[y]).byte_range.start by {
                assert(m[x] == m1[x]);
                if y < m.len() - 1 {
                    assert(m[y] == m1[y]);
                } else if x < m1.len() - 1 {
                    assert(m1[x].byte_range.end <= m1[m1.len() - 1].byte_range.start);
                    assert(m1[m1.len() - 1].byte_range.start <= m1[m1.len() - 1].byte_range.end);
                }
            }
            assert forall|x: int| 0 <= x < m.len() implies (#[trigger] m[x]).byte_range.start
                <= m[x].byte_range.end by {
                if x < m.len() - 1 {
                    assert(m[x] == m1[x]);
                }
            }
            assert forall|i: int, b: usize| 0 <= i < t.len() && #[trigger] holds(t[i], b) implies exists|k: int|
                0 <= k < m.len() && holds(#[trigger] m[k], b) && shape_of(m[k]) == shape_of(t[i]) by {
                if i < t.len() - 1 {
                    assert(t1[i] == t[i]);
                    assert(holds(t1[i], b));
                    let k = choose|k: int|
                        0 <= k < m1.len() && holds(#[trigger] m1[k], b) && shape_of(m1[k]) == shape_of(t1[i]);
                    assert(m[k] == m1[k]);
                } else {
                    assert(m[m.len() - 1] == a);
                }
            }
        }
    }
}

/// Applying a font or a font size to a range of text: the spans stay in order and non-empty,
/// every byte of the range that a span held gets the new font or size, and every other byte that
/// a span held keeps its shape. (For spans that hold a byte each and a range that goes forward.)
pub proof fn lemma_add_span_shapes(s: Seq<ShapeSpan>, r: Range<usize>, span: Span, b: usize)
    requires
        spans_ordered(s),
        all_nonempty(s),
        r.start < r.end,
    ensures
        spans_ordered(add_shape_result(s, r, span)),
        all_nonempty(add_shape_result(s, r, span)),
        shape_at(s, b) is Some ==> shape_at(add_shape_result(s, r, span), b) == Some(
            if r.start <= b < r.end {
                apply_to(shape_at(s, b)->0, span)
            } else {
                shape_at(s, b)->0
            },
        ),
{
    let ps = shape_pieces(s, r, span);
    lemma_pieces(s, r, span);
    let t = sorted_by_start(ps);
    lemma_sorted_pieces(ps);
    let m = merge_runs(t);
    lemma_merge_keeps_shapes(t);
    assert(m == add_shape_result(s, r, span));
    if shape_at(s, b) is Some {
        let i = choose|i: int| 0 <= i < s.len() && holds(#[trigger] s[i], b);
        lemma_unique_holder(s, b, i);
        assert(holds(s[i], b));
        let j = choose|j: int|
            0 <= j < ps.len() && holds(#[trigger] ps[j], b) && shape_of(ps[j]) == shape_after(s[i], r, span, b);
        assert(ps.contains(ps[j]));
        assert(t.contains(ps[j]));
        let k = choose|k: int| 0 <= k < t.len() && t[k] == ps[j];
        assert(holds(t[k], b));
        let q = choose|q: int| 0 <= q < m.len() && holds(#[trigger] m[q], b) && shape_of(m[q]) == shape_of(t[k]);
        lemma_unique_holder(m, b, q);
    }
}

/// The spans that a replacement keeps are those of `s` not within the range, in their order.
proof fn lemma_kept_shapes(s: Seq<ShapeSpan>, r: Range<usize>)
    requires
        spans_ordered(s),
    ensures
        spans_ordered(kept_shapes(s, r)),
        forall|k: int|
            0 <= k < kept_shapes(s, r).len() ==> !range_inside((#[trigger] kept_shapes(s, r)[k]).byte_range, r)
                && s.contains(kept_shapes(s, r)[k]),
        forall|i: int|
            0 <= i < s.len() && !range_inside((#[trigger] s[i]).byte_range, r) ==> kept_shapes(s, r).contains(s[i]),
    decreases s.len(),
{
    if s.len() > 0 {
        let s1 = s.drop_last();
        assert(spans_ordered(s1)) by {
            assert forall|x: int, y: int| 0 <= x < y < s1.len() implies (#[trigger] s1[x]).byte_range.end
                <= (#[trigger] s1[y]).byte_range.start by {
                assert(s1[x] == s[x] && s1[y] == s[y]);
            }
        }
        lemma_kept_shapes(s1, r);
        let k1 = kept_shapes(s1, r);
        let k = kept_shapes(s, r);
        assert forall|j: int| 0 <= j < k1.len() implies s.contains(#[trigger] k1[j]) by {
            let i = choose|i: int| 0 <= i < s1.len() && s1[i] == k1[j];
            assert(s[i] == k1[j]);
        }
        if !range_inside(s.last().byte_range, r) {
            assert(k == k1.push(s.last()));
            assert forall|x: int, y: int| 0 <= x < y < k.len() implies (#[trigger] k[x]).byte_range.end
                <= (#[trigger] k[y]).byte_range.start by {
                assert(k[x] == k1[x]);
                if y < k.len() - 1 {
                    assert(k[y] == k1[y]);
                } else {
                    let i = choose|i: int| 0 <= i < s1.len() && s1[i] == k1[x];
                    assert(s[i] == k1[x]);
                    assert(s[s.len() - 1] == s.last());
                }
            }
            assert forall|j: int| 0 <= j < k.len() implies !range_inside((#[trigger] k[j]).byte_range, r)
                && s.contains(k[j]) by {
                if j < k.len() - 1 {
                    assert(k[j] == k1[j]);
                } else {
                    assert(s[s.len() - 1] == s.last());
                }
            }
            assert forall|i: int| 0 <= i < s.len() && !range_inside((#[trigger] s[i]).byte_range, r)
                implies k.contains(s[i]) by {
                if i < s.len() - 1 {
                    assert(s1[i] == s[i]);
                    let j = choose|j: int| 0 <= j < k1.len() && k1[j] == s1[i];
                    assert(k[j] == k1[j]);
                } else {
                    assert(k[k.len() - 1] == s.last());
                }
            }
        } else {
            assert(k == k1);
            assert forall|i: int| 0 <= i < s.len() && !range_inside((#[trigger] s[i]).byte_range, r)
                implies k.contains(s[i]) by {
                if i < s.len() - 1 {
                    assert(s1[i] == s[i]);
                }
            }
        }
    }
}

/// What a replacement makes of one kept span: a span of the same shape, that holds the bytes of
/// the span before the range, and (but for the part after the range of a span the range cuts in
/// three, which a separate piece holds when bytes are inserted) the moved bytes after it. When
/// bytes are inserted, it ends before the range or starts after the inserted bytes.
proof fn lemma_replaced_span(x: ShapeSpan, r: Range<usize>, n: nat)
    requires
        r.start <= r.end,
        x.byte_range.start <= x.byte_range.end,
        !range_inside(x.byte_range, r),
        shift_fits(x, r, n),
    ensures
        ({
            let y = replaced_span(x, r, n);
            &&& shape_of(y) == shape_of(x)
            &&& y.byte_range.start <= y.byte_range.end
            &&& n > 0 ==> y.byte_range.end <= r.start || y.byte_range.start >= r.start + n
            &&& forall|b: usize| holds(x, b) && b < r.start ==> #[trigger] holds(y, b)
            &&& forall|b: usize|
                holds(x, b) && b >= r.end && !(cuts_in_three(x, r) && n > 0) ==> #[trigger] holds(
                    y,
                    shifted(b, r, n),
                )
        }),
{
}

/// Two kept spans in order stay in order once replaced.
proof fn lemma_replaced_pair(x: ShapeSpan, z: ShapeSpan, r: Range<usize>, n: nat)
    requires
        r.start <= r.end,
        x.byte_range.start <= x.byte_range.end,
        z.byte_range.start <= z.byte_range.end,
        x.byte_range.end <= z.byte_range.start,
        !range_inside(x.byte_range, r),
        !range_inside(z.byte_range, r),
        shift_fits(x, r, n),
        shift_fits(z, r, n),
    ensures
        replaced_span(x, r, n).byte_range.end <= replaced_span(z, r, n).byte_range.start,
        cuts_in_three(x, r) ==> !cuts_in_three(z, r) && z.byte_range.start >= r.end
            && replaced_span(z, r, n).byte_range.start == shifted(z.byte_range.start, r, n),
{
}

/// The position that `insert_pos` finds splits ordered spans into those that end before the
/// start of `r` and those that end after it.
proof fn lemma_insert_pos(m: Seq<ShapeSpan>, r: Range<usize>)
    requires
        spans_ordered(m),
    ensures
        0 <= insert_pos(m, r) <= m.len(),
        forall|j: int| 0 <= j < insert_pos(m, r) ==> (#[trigger] m[j]).byte_range.end <= r.start,
        forall|j: int| insert_pos(m, r) <= j < m.len() ==> (#[trigger] m[j]).byte_range.end > r.start,
    decreases m.len(),
{
    if m.len() > 0 {
        let m1 = m.drop_last();
        assert(spans_ordered(m1)) by {
            assert forall|x: int, y: int| 0 <= x < y < m1.len() implies (#[trigger] m1[x]).byte_range.end
                <= (#[trigger] m1[y]).byte_range.start by {
                assert(m1[x] == m[x] && m1[y] == m[y]);
            }
        }
        lemma_insert_pos(m1, r);
        if m.last().byte_range.end <= r.start {
            assert forall|j: int| 0 <= j < insert_pos(m, r) implies (#[trigger] m[j]).byte_range.end <= r.start by {
                if j < m.len() - 1 {
                    assert(m[j].byte_range.end <= m[m.len() - 1].byte_range.start);
                }
            }
        } else {
            assert forall|j: int| 0 <= j < insert_pos(m, r) implies (#[trigger] m[j]).byte_range.end <= r.start by {
                assert(m[j] == m1[j]);
            }
            assert forall|j: int| insert_pos(m, r) <= j < m.len() implies (#[trigger] m[j]).byte_range.end > r.start by {
                if j < m.len() - 1 {
                    assert(m[j] == m1[j]);
                }
            }
        }
    }
}

/// The piece that `last_split` gives is the part after the range, moved, of a kept span that the
/// range cuts in three; there is none when no kept span is cut in three.
proof fn lemma_last_split(kept: Seq<ShapeSpan>, r: Range<usize>, n: nat)
    requires
        n > 0,
    ensures
        match last_split(kept, r, n) {
            Some(sp) => exists|k: int|
                0 <= k < kept.len() && cuts_in_three(#[trigger] kept[k], r) && sp == spanning(
                    kept[k],
                    shifted(r.end, r, n),
                    shifted(kept[k].byte_range.end, r, n),
                ),
            None => forall|k: int| 0 <= k < kept.len() ==> !cuts_in_three(#[trigger] kept[k], r),
        },
    decreases kept.len(),
{
    if kept.len() > 0 {
        let k1 = kept.drop_last();
        lemma_last_split(k1, r, n);
        if cuts_in_three(kept.last(), r) {
            assert(kept[kept.len() - 1] == kept.last());
        } else {
            match last_split(k1, r, n) {
                Some(sp) => {
                    let k = choose|k: int|
                        0 <= k < k1.len() && cuts_in_three(#[trigger] k1[k], r) && sp == spanning(
                            k1[k],
                            shifted(r.end, r, n),
                            shifted(k1[k].byte_range.end, r, n),
                        );
                    assert(kept[k] == k1[k]);
                },
                None => {
                    assert forall|k: int| 0 <= k < kept.len() implies !cuts_in_three(#[trigger] kept[k], r) by {
                        if k < kept.len() - 1 {
                            assert(kept[k] == k1[k]);
                        }
                    }
                },
            }
        }
    }
}

/// Replacing keeps ordered kept spans in order.
proof fn lemma_mods_ordered(kept: Seq<ShapeSpan>, r: Range<usize>, n: nat)
    requires
        r.start <= r.end,
        spans_ordered(kept),
        forall|k: int| 0 <= k < kept.len() ==> !range_inside((#[trigger] kept[k]).byte_range, r),
        forall|k: int| 0 <= k < kept.len() ==> shift_fits(#[trigger] kept[k], r, n),
    ensures
        spans_ordered(kept.map_values(|x: ShapeSpan| replaced_span(x, r, n))),
{
    let mods = kept.map_values(|x: ShapeSpan| replaced_span(x, r, n));
    assert forall|i: int| 0 <= i < mods.len() implies (#[trigger] mods[i]).byte_range.start
        <= mods[i].byte_range.end by {
        assert(kept[i].byte_range.start <= kept[i].byte_range.end);
        lemma_replaced_span(kept[i], r, n);
    }
    assert forall|i: int, j: int| 0 <= i < j < mods.len() implies (#[trigger] mods[i]).byte_range.end
        <= (#[trigger] mods[j]).byte_range.start by {
        assert(kept[i].byte_range.start <= kept[i].byte_range.end);
        assert(kept[j].byte_range.start <= kept[j].byte_range.end);
        assert(kept[i].byte_range.end <= kept[j].byte_range.start);
        lemma_replaced_pair(kept[i], kept[j], r, n);
    }
}

/// Two runs of ordered spans, the first ending before the second starts, are in order together.
proof fn lemma_ordered_concat(a: Seq<ShapeSpan>, c: Seq<ShapeSpan>)
    requires
        spans_ordered(a),
        spans_ordered(c),
        forall|i: int, j: int| 0 <= i < a.len() && 0 <= j < c.len() ==> (#[trigger] a[i]).byte_range.end
            <= (#[trigger] c[j]).byte_range.start,
    ensures
        spans_ordered(a + c),
{
    let t = a + c;
    assert forall|i: int| 0 <= i < t.len() implies (#[trigger] t[i]).byte_range.start <= t[i].byte_range.end by {
        if i < a.len() {
            assert(t[i] == a[i]);
        } else {
            assert(t[i] == c[i - a.len()]);
        }
    }
    assert forall|i: int, j: int| 0 <= i < j < t.len() implies (#[trigger] t[i]).byte_range.end
        <= (#[trigger] t[j]).byte_range.start by {
        if j < a.len() {
            assert(t[i] == a[i] && t[j] == a[j]);
        } else if i >= a.len() {
            assert(t[i] == c[i - a.len()] && t[j] == c[j - a.len()]);
        } else {
            assert(t[i] == a[i] && t[j] == c[j - a.len()]);
        }
    }
}

/// The spans that a replacement merges into the new shape spans.
spec fn replace_pieces(s: Seq<ShapeSpan>, r: Range<usize>, n: nat, default: TextStyle) -> Seq<ShapeSpan> {
    let kept = kept_shapes(s, r);
    let mods = kept.map_values(|x: ShapeSpan| replaced_span(x, r, n));
    if n > 0 {
        let ii = insert_pos(mods, r);
        mods.take(ii) + inserted_spans(r, default, last_split(kept, r, n)) + mods.skip(ii)
    } else {
        mods
    }
}

/// The facts on the kept spans that the replacement lemmas share.
proof fn lemma_replace_setup(s: Seq<ShapeSpan>, r: Range<usize>, n: nat)
    requires
        spans_ordered(s),
        r.start <= r.end,
        forall|i: int|
            0 <= i < s.len() && !range_inside((#[trigger] s[i]).byte_range, r) ==> shift_fits(s[i], r, n),
    ensures
        spans_ordered(kept_shapes(s, r)),
        forall|k: int| 0 <= k < kept_shapes(s, r).len() ==> shift_fits(#[trigger] kept_shapes(s, r)[k], r, n),
        forall|k: int|
            0 <= k < kept_shapes(s, r).len() ==> !range_inside((#[trigger] kept_shapes(s, r)[k]).byte_range, r),
        forall|i: int|
            0 <= i < s.len() && !range_inside((#[trigger] s[i]).byte_range, r) ==> kept_shapes(s, r).contains(s[i]),
        spans_ordered(kept_shapes(s, r).map_values(|x: ShapeSpan| replaced_span(x, r, n))),
        forall|j: int|
            0 <= j < kept_shapes(s, r).len() && n > 0 ==> (#[trigger] replaced_span(kept_shapes(s, r)[j], r, n)).byte_range.end
                <= r.start || replaced_span(kept_shapes(s, r)[j], r, n).byte_range.start >= r.start + n,
{
    let kept = kept_shapes(s, r);
    lemma_kept_shapes(s, r);
    assert forall|k: int| 0 <= k < kept.len() implies shift_fits(#[trigger] kept[k], r, n) by {
        let i = choose|i: int| 0 <= i < s.len() && s[i] == kept[k];
        assert(!range_inside(s[i].byte_range, r));
    }
    lemma_mods_ordered(kept, r, n);
    assert forall|j: int| 0 <= j < kept.len() && n > 0 implies (#[trigger] replaced_span(kept[j], r, n)).byte_range.end
        <= r.start || replaced_span(kept[j], r, n).byte_range.start >= r.start + n by {
        assert(kept[j].byte_range.start <= kept[j].byte_range.end);
        lemma_replaced_span(kept[j], r, n);
    }
}

/// The spans that a replacement merges are in order (when it removes bytes only, or inserts at
/// least as many as it removes).
proof fn lemma_replace_pieces_ordered(s: Seq<ShapeSpan>, r: Range<usize>, n: nat, default: TextStyle)
    requires
        spans_ordered(s),
        r.start <= r.end,
        n == 0 || n >= r.end - r.start,
        forall|i: int|
            0 <= i < s.len() && !range_inside((#[trigger] s[i]).byte_range, r) ==> shift_fits(s[i], r, n),
    ensures
        spans_ordered(replace_pieces(s, r, n, default)),
{
    lemma_replace_setup(s, r, n);
    let kept = kept_shapes(s, r);
    let mods = kept.map_values(|x: ShapeSpan| replaced_span(x, r, n));
    if n > 0 {
        let ii = insert_pos(mods, r);
        let sp = last_split(kept, r, n);
        let ins = inserted_spans(r, default, sp);
        lemma_insert_pos(mods, r);
        lemma_last_split(kept, r, n);
        let a = mods.take(ii);
        let c = mods.skip(ii);
        assert(spans_ordered(a)) by {
            assert forall|x: int| 0 <= x < a.len() implies (#[trigger] a[x]).byte_range.start
                <= a[x].byte_range.end by {
                assert(a[x] == mods[x]);
            }
            assert forall|x: int, y: int| 0 <= x < y < a.len() implies (#[trigger] a[x]).byte_range.end
                <= (#[trigger] a[y]).byte_range.start by {
                assert(a[x] == mods[x] && a[y] == mods[y]);
            }
        }
        assert(spans_ordered(c)) by {
            assert forall|x: int| 0 <= x < c.len() implies (#[trigger] c[x]).byte_range.start
                <= c[x].byte_range.end by {
                assert(c[x] == mods[x + ii]);
            }
            assert forall|x: int, y: int| 0 <= x < y < c.len() implies (#[trigger] c[x]).byte_range.end
                <= (#[trigger] c[y]).byte_range.start by {
                assert(c[x] == mods[x + ii] && c[y] == mods[y + ii]);
            }
        }
        assert(spans_ordered(ins));
        lemma_ordered_concat(a, ins);
        assert forall|x: int, y: int| 0 <= x < (a + ins).len() && 0 <= y < c.len() implies
            (#[trigger] (a + ins)[x]).byte_range.end <= (#[trigger] c[y]).byte_range.start by {
            let j = y + ii;
            assert(c[y] == mods[j]);
            assert(mods[j] == replaced_span(kept[j], r, n));
            assert(mods[j].byte_range.end > r.start);
            if x < a.len() {
                assert((a + ins)[x] == mods[x]);
                assert(mods[x].byte_range.end <= mods[j].byte_range.start);
            } else if x == a.len() {
                assert((a + ins)[x] == ins[0]);
            } else {
                assert((a + ins)[x] == ins[1]);
                let kx = choose|k: int|
                    0 <= k < kept.len() && cuts_in_three(#[trigger] kept[k], r) && sp == Some(
                        spanning(kept[k], shifted(r.end, r, n), shifted(kept[k].byte_range.end, r, n)),
                    );
                assert(kept[kx].byte_range.start <= kept[kx].byte_range.end);
                assert(kept[j].byte_range.start <= kept[j].byte_range.end);
                if j < kx {
                    assert(kept[j].byte_range.end <= kept[kx].byte_range.start);
                    lemma_replaced_pair(kept[j], kept[kx], r, n);
                    assert(false);
                } else if j == kx {
                    assert(mods[j].byte_range.end == r.start);
                } else {
                    assert(kept[kx].byte_range.end <= kept[j].byte_range.start);
                    lemma_replaced_pair(kept[kx], kept[j], r, n);
                }
            }
        }
        lemma_ordered_concat(a + ins, c);
        assert(replace_pieces(s, r, n, default) == (a + ins) + c);
    }
}

/// A byte outside the range that a span held is held, where the replacement moves it, by one of
/// the spans that the replacement merges, with the same shape.
proof fn lemma_replace_pieces_hold(s: Seq<ShapeSpan>, r: Range<usize>, n: nat, default: TextStyle, b: usize)
    requires
        spans_ordered(s),
        r.start <= r.end,
        n == 0 || n >= r.end - r.start,
        forall|i: int|
            0 <= i < s.len() && !range_inside((#[trigger] s[i]).byte_range, r) ==> shift_fits(s[i], r, n),
        shape_at(s, b) is Some,
        b < r.start || b >= r.end,
    ensures
        exists|p: int|
            0 <= p < replace_pieces(s, r, n, default).len() && holds(
                #[trigger] replace_pieces(s, r, n, default)[p],
                if b < r.start {
                    b
                } else {
                    shifted(b, r, n)
                },
            ) && shape_at(s, b) == Some(shape_of(replace_pieces(s, r, n, default)[p])),
{
    lemma_replace_setup(s, r, n);
    let kept = kept_shapes(s, r);
    let mods = kept.map_values(|x: ShapeSpan| replaced_span(x, r, n));
    let t = replace_pieces(s, r, n, default);
    let i0 = choose|i: int| 0 <= i < s.len() && holds(#[trigger] s[i], b);
    lemma_unique_holder(s, b, i0);
    let x = s[i0];
    assert(!range_inside(x.byte_range, r));
    let k = choose|k: int| 0 <= k < kept.len() && kept[k] == x;
    assert(mods[k] == replaced_span(x, r, n));
    lemma_replaced_span(x, r, n);
    let target = if b < r.start {
        b
    } else {
        shifted(b, r, n)
    };
    if n == 0 {
        assert(t == mods);
        assert(holds(t[k], target) && shape_of(t[k]) == shape_of(x));
    } else {
        let ii = insert_pos(mods, r);
        let sp = last_split(kept, r, n);
        let ins = inserted_spans(r, default, sp);
        lemma_insert_pos(mods, r);
        lemma_last_split(kept, r, n);
        assert(t == mods.take(ii) + ins + mods.skip(ii));
        if b >= r.end && cuts_in_three(x, r) {
            let kx = choose|kk: int|
                0 <= kk < kept.len() && cuts_in_three(#[trigger] kept[kk], r) && sp == Some(
                    spanning(kept[kk], shifted(r.end, r, n), shifted(kept[kk].byte_range.end, r, n)),
                );
            assert(kept[kx].byte_range.start <= kept[kx].byte_range.end);
            assert(kept[k].byte_range.start <= kept[k].byte_range.end);
            if kx < k {
                assert(kept[kx].byte_range.end <= kept[k].byte_range.start);
                lemma_replaced_pair(kept[kx], kept[k], r, n);
            } else if kx > k {
                assert(kept[k].byte_range.end <= kept[kx].byte_range.start);
                lemma_replaced_pair(kept[k], kept[kx], r, n);
            }
            assert(kx == k);
            assert(t[ii + 1] == ins[1]);
            assert(holds(t[ii + 1], target) && shape_of(t[ii + 1]) == shape_of(x));
        } else if b < r.start {
            assert(holds(mods[k], b));
            assert(mods[k].byte_range.end <= r.start || mods[k].byte_range.start >= r.start + n);
            if k >= ii {
                assert(mods[k].byte_range.end > r.start);
            }
            assert(t[k] == mods[k]);
            assert(holds(t[k], target) && shape_of(t[k]) == shape_of(x));
        } else {
            assert(holds(mods[k], target));
            if k < ii {
                assert(mods[k].byte_range.end <= r.start);
            }
            assert(t[k + ins.len()] == mods[k]);
            assert(holds(t[k + ins.len()], target) && shape_of(t[k + ins.len()]) == shape_of(x));
        }
    }
}

/// Replacing the range `r` of a text by `n` bytes keeps the shape spans in order, and every
/// byte outside the range keeps its shape: a byte before the range stays where it is, a byte
/// after it moves by the change of length. (For a replacement that removes bytes only, or
/// inserts at least as many bytes as it removes: the span given to the inserted text covers
/// the range itself, so when fewer bytes come in than go out it overlaps the moved spans.)
proof fn lemma_replaced_shapes(s: Seq<ShapeSpan>, r: Range<usize>, n: nat, default: TextStyle, b: usize)
    requires
        spans_ordered(s),
        r.start <= r.end,
        n == 0 || n >= r.end - r.start,
        forall|i: int|
            0 <= i < s.len() && !range_inside((#[trigger] s[i]).byte_range, r) ==> shift_fits(s[i], r, n),
    ensures
        spans_ordered(replaced_shapes(s, r, n, default)),
        b < r.start && shape_at(s, b) is Some ==> shape_at(replaced_shapes(s, r, n, default), b)
            == shape_at(s, b),
        b >= r.end && shape_at(s, b) is Some ==> shape_at(
            replaced_shapes(s, r, n, default),
            shifted(b, r, n),
        ) == shape_at(s, b),
{
    let t = replace_pieces(s, r, n, default);
    let res = replaced_shapes(s, r, n, default);
    assert(res == merge_runs(t));
    lemma_replace_pieces_ordered(s, r, n, default);
    lemma_merge_keeps_held(t);
    if shape_at(s, b) is Some && (b < r.start || b >= r.end) {
        lemma_replace_pieces_hold(s, r, n, default, b);
        let target = if b < r.start {
            b
        } else {
            shifted(b, r, n)
        };
        let p = choose|p: int| 0 <= p < t.len() && holds(#[trigger] t[p], target) && shape_at(s, b) == Some(
            shape_of(t[p]),
        );
        let q = choose|q: int| 0 <= q < res.len() && holds(#[trigger] res[q], target) && shape_of(res[q])
            == shape_of(t[p]);
        lemma_unique_holder(res, target, q);
    }
}

/// Replacing a range of a rich text by some bytes keeps its shape spans in order, and every byte
/// outside the range keeps the font and size it had: a byte before the range where it was, a
/// byte after it at its place moved by the change of length (`b - removed + inserted`). This
/// holds for a replacement that inserts nothing, or at least as many bytes as it removes; when
/// it inserts fewer (but some), the span it gives the inserted text covers the whole replaced
/// range and so overlaps the spans moved after it.
pub proof fn lemma_replace_keeps_shapes(
    before: SpannedString,
    after: SpannedString,
    range: Range<usize>,
    with: Seq<u8>,
    b: usize,
)
    requires
        before.can_replace(range, with),
        before.replaced(range, with, after),
        spans_ordered(before.shapes()),
        with.len() == 0 || with.len() >= normalized(range).end - normalized(range).start,
    ensures
        spans_ordered(after.shapes()),
        b < normalized(range).start && shape_at(before.shapes(), b) is Some ==> shape_at(after.shapes(), b)
            == shape_at(before.shapes(), b),
        b >= normalized(range).end && shape_at(before.shapes(), b) is Some ==> shape_at(
            after.shapes(),
            (b - (normalized(range).end - normalized(range).start) + with.len()) as usize,
        ) == shape_at(before.shapes(), b),
{
    let r = normalized(range);
    lemma_replaced_shapes(before.shapes(), r, with.len(), before.default_style(), b);
}

} // verus!
