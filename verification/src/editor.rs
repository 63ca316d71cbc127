use vstd::prelude::*;

use crate::text::SpannedString;
use crate::util::cmp_range;
use core::cmp::Ordering;
use core::ops::Range;
use unicode_segmentation::UnicodeSegmentation;
use vstd::string::StringSliceAdditionalSpecFns;
use vstd::utf8::is_char_boundary;

verus! {

/// Represents a position in a text.
#[derive(Clone, Copy, PartialEq, Eq, Structural, PartialOrd, Ord, Debug)]
pub struct Position {
    /// The line in the text. The first line has value 0.
    pub line: usize,
    /// The EGC indice in the line of the text.
    pub collumn: usize,
}

/// A byte offset in a text.
#[derive(Clone, Copy, PartialEq, Eq, Structural, PartialOrd, Ord, Debug, Default)]
pub struct ByteIndex(pub usize);

/// A selection of text. This can also represent a cursor.
#[derive(Clone, Copy, PartialEq, Eq, Structural, Debug)]
pub struct Selection {
    /// The position of the cursor. Can also be the selection ends. Can be before or after the
    /// anchor.
    pub cursor: ByteIndex,
    /// The position where the selection starts. Can be before or after the cursor.
    pub anchor: ByteIndex,
}

/// The byte offsets, relative to `start`, at which the extended grapheme clusters of the bytes
/// `start..end` of `text` begin.
pub uninterp spec fn grapheme_starts(text: Seq<char>, start: usize, end: usize) -> Seq<usize>;

/// `g` lists where the grapheme clusters of a piece of text of `len` bytes begin: there is one
/// at least when the piece is not empty, the first begins at 0, and they go strictly forward
/// within the piece.
pub open spec fn cluster_offsets(g: Seq<usize>, len: int) -> bool {
    &&& (g.len() == 0 <==> len == 0)
    &&& g.len() > 0 ==> g[0] == 0
    &&& forall|i: int, j: int| 0 <= i < j < g.len() ==> g[i] < g[j]
    &&& forall|i: int| 0 <= i < g.len() ==> g[i] < len
}

/// The offsets of `UnicodeSegmentation::grapheme_indices(&text[start..end], true)`. The clusters
/// split the slice into consecutive non-empty pieces, so their offsets start at 0 and go strictly
/// forward; which clusters the Unicode segmentation rules form is not stated.
#[verifier::external_body]
fn grapheme_offsets(text: &str, start: usize, end: usize) -> (offsets: Vec<usize>)
    requires
        start <= end <= text.spec_bytes().len(),
        is_char_boundary(text.spec_bytes(), start as int),
        is_char_boundary(text.spec_bytes(), end as int),
    ensures
        offsets@ == grapheme_starts(text@, start, end),
        cluster_offsets(offsets@, end - start),
{
    text[start..end].grapheme_indices(true).map(|(i, _)| i).collect()
}

/// The lines are in order and disjoint: each ends before the next starts.
pub open spec fn lines_ordered(lines: Seq<Range<usize>>) -> bool {
    &&& forall|i: int| 0 <= i < lines.len() ==> (#[trigger] lines[i]).start <= lines[i].end
    &&& forall|i: int, j: int|
        0 <= i < j < lines.len() ==> (#[trigger] lines[i]).end <= (#[trigger] lines[j]).start
}

/// The range `r` holds the byte `b`.
pub open spec fn range_holds(r: Range<usize>, b: usize) -> bool {
    r.start <= b < r.end
}

/// Some line holds the byte `b`.
pub open spec fn some_line_holds(lines: Seq<Range<usize>>, b: usize) -> bool {
    exists|i: int| 0 <= i < lines.len() && range_holds(#[trigger] lines[i], b)
}

/// The index of the line that holds the byte `b`, or the number of lines if none does.
pub open spec fn line_of(lines: Seq<Range<usize>>, b: usize) -> int {
    if some_line_holds(lines, b) {
        choose|i: int| 0 <= i < lines.len() && range_holds(#[trigger] lines[i], b)
    } else {
        lines.len() as int
    }
}

/// The line at position `i`.
pub open spec fn line_at(lines: Seq<Range<usize>>, i: usize) -> Range<usize> {
    lines[i as int]
}

/// The position of the line that holds the byte `index`, found by binary search with
/// `cmp_range`.
fn find_line(lines: &[Range<usize>], index: usize) -> (res: Option<usize>)
    requires
        lines_ordered(lines@),
    ensures
        match res {
            Some(i) => i < lines@.len() && range_holds(line_at(lines@, i), index),
            None => !some_line_holds(lines@, index),
        },
{
    let mut lo: usize = 0;
    let mut hi: usize = lines.len();
    while lo < hi
        invariant
            lines_ordered(lines@),
            lo <= hi <= lines@.len(),
            forall|i: int| 0 <= i < lo ==> !range_holds(#[trigger] lines@[i], index),
            forall|i: int| hi <= i < lines@.len() ==> !range_holds(#[trigger] lines@[i], index),
        decreases hi - lo,
    {
        let mid = lo + (hi - lo) / 2;
        let range = lines[mid].start..lines[mid].end;
        match cmp_range(index, range) {
            Ordering::Equal => {
                return Some(mid);
            },
            Ordering::Greater => {
                assert forall|i: int| mid <= i < lines@.len() implies !range_holds(
                    #[trigger] lines@[i],
                    index,
                ) by {
                    if i > mid {
                        assert(line_at(lines@, mid).end <= lines@[i].start);
                    }
                }
                hi = mid;
            },
            Ordering::Less => {
                assert forall|i: int| 0 <= i <= mid implies !range_holds(#[trigger] lines@[i], index) by {
                    if i < mid {
                        assert(lines@[i].end <= line_at(lines@, mid).start);
                    }
                }
                lo = mid + 1;
            },
        }
    }
    None
}

/// The line that holds the byte `byte_index`, or the number of lines when none does.
pub(crate) fn get_line_from_byte_index(byte_index: usize, lines: &[Range<usize>]) -> (line: usize)
    requires
        lines_ordered(lines@),
    ensures
        line == line_of(lines@, byte_index),
{
    match find_line(lines, byte_index) {
        Some(i) => {
            proof {
                let k = choose|k: int| 0 <= k < lines@.len() && range_holds(#[trigger] lines@[k], byte_index);
                if k < i {
                    assert(lines@[k].end <= lines@[i as int].start);
                } else if k > i {
                    assert(lines@[i as int].end <= lines@[k].start);
                }
            }
            i
        },
        None => lines.len(),
    }
}

/// The byte range `start..end` of `text` can be sliced.
pub open spec fn sliceable(text: Seq<u8>, start: int, end: int) -> bool {
    &&& 0 <= start <= end <= text.len()
    &&& is_char_boundary(text, start)
    &&& is_char_boundary(text, end)
}

/// Every line can be sliced out of `text`.
pub open spec fn lines_in(lines: Seq<Range<usize>>, text: Seq<u8>) -> bool {
    forall|i: int| 0 <= i < lines.len() ==> sliceable(text, (#[trigger] lines[i]).start as int, lines[i].end as int)
}

/// `c` is the index of the last cluster of `g` that begins at or before `offset`.
pub open spec fn last_cluster_at(g: Seq<usize>, offset: int, c: int) -> bool {
    &&& 0 <= c < g.len()
    &&& g[c] <= offset
    &&& c + 1 < g.len() ==> g[c + 1] > offset
}

/// Where moving `delta` grapheme clusters from the byte `p` of `text` lands: forward, the start of
/// the `delta`-th cluster after the one at `p`, or of the last cluster of the text; backward, the
/// start of the `-delta`-th cluster before `p`, or of the first one.
pub open spec fn offset_target(text: Seq<char>, p: usize, delta: i32) -> usize {
    if delta == 0 {
        p
    } else if delta > 0 {
        let g = grapheme_starts(text, p, vstd::utf8::encode_utf8(text).len() as usize);
        let k = if delta < g.len() { delta as int } else { g.len() - 1 };
        (p + g[k]) as usize
    } else {
        let g = grapheme_starts(text, 0, p);
        let n = -delta;
        if g.len() == 0 {
            p
        } else {
            g[if n >= g.len() { 0 } else { g.len() - n }]
        }
    }
}

/// `offset_byte_index(p, delta, text)` can run: slicing the text at `p` is allowed, moving
/// forward needs a cluster after `p`, and `-delta` fits in an `i32` (the text's length always
/// fits in a `usize`).
pub open spec fn can_offset(text: Seq<u8>, p: usize, delta: i32) -> bool {
    &&& text.len() <= usize::MAX
    &&& delta != i32::MIN
    &&& delta != 0 ==> p <= text.len() && is_char_boundary(text, p as int)
    &&& delta > 0 ==> p < text.len()
}

/// The selection after a horizontal move of the cursor to `moved`: with `expand` the anchor
/// stays; otherwise an empty selection follows the cursor, and a non-empty one collapses to its
/// end (moving right) or its start (moving left).
pub open spec fn hor_moved(sel: Selection, moved: ByteIndex, delta: i32, expand: bool) -> Selection {
    if expand {
        Selection { cursor: moved, anchor: sel.anchor }
    } else if sel.cursor == sel.anchor {
        Selection { cursor: moved, anchor: moved }
    } else {
        let c = if delta > 0 {
            ByteIndex(sel.range().end)
        } else {
            ByteIndex(sel.range().start)
        };
        Selection { cursor: c, anchor: c }
    }
}

/// The selection `sel` with its cursor moved to `to`: the anchor stays with `expand`,
/// and follows otherwise.
pub open spec fn cursor_set(sel: Selection, to: ByteIndex, expand: bool) -> Selection {
    Selection { cursor: to, anchor: if expand { sel.anchor } else { to } }
}

/// The line the cursor goes to when moving `delta` lines from the line `curr`, before it is
/// clamped to the text.
pub open spec fn target_line(curr: int, delta: i32) -> int {
    curr + delta
}

/// The selection that `delete_hor` deletes: the current one, or, when it is empty, the clusters
/// between the cursor and `delta` clusters away from it.
pub open spec fn deletion(sel: Selection, text: Seq<char>, delta: i32) -> Selection {
    if sel.cursor == sel.anchor {
        Selection { cursor: sel.cursor, anchor: ByteIndex(offset_target(text, sel.anchor.0, delta)) }
    } else {
        sel
    }
}

/// Both ends of the selection at `b`.
pub open spec fn caret_at(b: int) -> Selection {
    Selection { cursor: ByteIndex(b as usize), anchor: ByteIndex(b as usize) }
}

impl Selection {
    /// The selected byte range: from the smaller to the larger of cursor and anchor.
    pub open spec fn range(self) -> Range<usize> {
        if self.cursor.0 <= self.anchor.0 {
            self.cursor.0..self.anchor.0
        } else {
            self.anchor.0..self.cursor.0
        }
    }

    /// Set cursor and anchor to the same value.
    pub fn set_pos(&mut self, pos: ByteIndex)
        ensures
            final(self).cursor == pos,
            final(self).anchor == pos,
    {
        self.cursor = pos;
        self.anchor = pos;
    }

    /// Check if the selection is empty, i.e., cursor == anchor
    pub fn is_empty(&self) -> (r: bool)
        ensures
            r == (self.cursor == self.anchor),
    {
        self.cursor.0 == self.anchor.0
    }

    /// Return the position of the start of the selection. This is the min(cursor, anchor).
    pub fn start(&self) -> (s: ByteIndex)
        ensures
            s.0 == self.range().start,
    {
        if self.cursor.0 < self.anchor.0 {
            self.cursor
        } else {
            self.anchor
        }
    }

    /// Return the position of the end of the selection. This is the max(cursor, anchor).
    pub fn end(&self) -> (e: ByteIndex)
        ensures
            e.0 == self.range().end,
    {
        if self.cursor.0 > self.anchor.0 {
            self.cursor
        } else {
            self.anchor
        }
    }
}

/// Where a vertical move of the cursor goes.
#[derive(Clone, Copy, PartialEq, Eq, Structural, Debug)]
pub enum VerticalMove {
    /// To this byte: the start of the text when moving above the first line, the last byte of the
    /// last line when moving below it.
    To(ByteIndex),
    /// To this line, at the byte under the cursor's horizontal position.
    Line(usize),
}

/// A very simple text editor. The text and its lines are handed to each call: the lines are the
/// byte ranges of the laid out text, in order.
pub struct TextEditor {
    /// The current selection. Also represent the cursor.
    selection: Selection,
}

impl TextEditor {
    /// The current selection.
    pub closed spec fn spec_selection(&self) -> Selection {
        self.selection
    }

    /// Create a new TextEditor, with the cursor in line 0, collum 0.
    pub fn new() -> (e: TextEditor)
        ensures
            e.spec_selection() == (Selection { cursor: ByteIndex(0), anchor: ByteIndex(0) }),
    {
        TextEditor { selection: Selection { cursor: ByteIndex(0), anchor: ByteIndex(0) } }
    }

    /// The current selection.
    pub fn selection(&self) -> (s: Selection)
        ensures
            s == self.spec_selection(),
    {
        self.selection
    }

    /// Get the byte range of the currently selected text. This range can be used to slice the
    /// text string
    pub fn selection_range(&self) -> (r: Range<usize>)
        ensures
            r == self.spec_selection().range(),
    {
        if self.selection.is_empty() {
            let byte = self.selection.cursor.0;
            byte..byte
        } else {
            let mut start = self.selection.cursor.0;
            let mut end = self.selection.anchor.0;
            if start > end {
                let t = start;
                start = end;
                end = t;
            }
            start..end
        }
    }

    /// Move the cursor to `cursor`. If expand_selection is true, the anchor of the selection is
    /// preserved. Otherwise, the selection is cleared.
    pub fn set_cursor(&mut self, cursor: ByteIndex, expand_selection: bool)
        ensures
            final(self).spec_selection().cursor == cursor,
            final(self).spec_selection().anchor == (if expand_selection {
                old(self).spec_selection().anchor
            } else {
                cursor
            }),
    {
        if expand_selection {
            self.selection.cursor = cursor;
        } else {
            self.selection.set_pos(cursor);
        }
    }

    /// Get the position, given the byte index in the text string.
    pub fn get_position_from_byte_index(
        &self,
        byte_index: usize,
        text: &str,
        lines: &[Range<usize>],
    ) -> (p: Position)
        requires
            lines_ordered(lines@),
            lines_in(lines@, text.spec_bytes()),
            some_line_holds(lines@, byte_index),
        ensures
            p.line == line_of(lines@, byte_index),
            last_cluster_at(
                grapheme_starts(text@, lines@[p.line as int].start, lines@[p.line as int].end),
                byte_index - lines@[p.line as int].start,
                p.collumn as int,
            ),
    {
        let line = get_line_from_byte_index(byte_index, lines);
        let start = lines[line].start;
        let end = lines[line].end;
        assert(sliceable(text.spec_bytes(), lines@[line as int].start as int, lines@[line as int].end as int));
        let offset = byte_index - start;
        let g = grapheme_offsets(text, start, end);
        let mut k: usize = 0;
        while k < g.len() && g[k] <= offset
            invariant
                k <= g@.len(),
                cluster_offsets(g@, end - start),
                offset < end - start,
                forall|j: int| 0 <= j < k ==> g@[j] <= offset,
            decreases g@.len() - k,
        {
            k = k + 1;
        }
        Position { line, collumn: k - 1 }
    }

    /// Get the byte index in the text string, given a Position: the start of the cluster
    /// `position.collumn` of the line, or the start of the line when there is no such cluster.
    pub fn get_byte_index(&self, position: Position, text: &str, lines: &[Range<usize>]) -> (b: usize)
        requires
            position.line < lines@.len(),
            lines_in(lines@, text.spec_bytes()),
        ensures
            ({
                let r = lines@[position.line as int];
                let g = grapheme_starts(text@, r.start, r.end);
                b == r.start + if position.collumn < g.len() { g[position.collumn as int] as int } else { 0 }
            }),
    {
        let start = lines[position.line].start;
        let end = lines[position.line].end;
        assert(sliceable(text.spec_bytes(), start as int, end as int));
        let g = grapheme_offsets(text, start, end);
        let offset = if position.collumn < g.len() {
            g[position.collumn]
        } else {
            0
        };
        start + offset
    }

    /// Offset a position by a give amount of graphene clusters. Offset to the right if
    /// delta_x is positive, and left if it is negative.
    pub fn offset_byte_index(&self, position: ByteIndex, delta_x: i32, text: &str) -> (b: ByteIndex)
        requires
            can_offset(text.spec_bytes(), position.0, delta_x),
        ensures
            b.0 == offset_target(text@, position.0, delta_x),
    {
        if delta_x == 0 {
            return position;
        }
        let byte_index = position.0;
        proof {
            vstd::utf8::encode_utf8_valid_utf8(text@);
            vstd::utf8::is_char_boundary_start_end_of_seq(text.spec_bytes());
        }
        if delta_x > 0 {
            let n = delta_x as usize;
            let g = grapheme_offsets(text, byte_index, text.len());
            let k = if n < g.len() {
                n
            } else {
                g.len() - 1
            };
            ByteIndex(byte_index + g[k])
        } else {
            let n = (-delta_x) as usize;
            let g = grapheme_offsets(text, 0, byte_index);
            if g.len() == 0 {
                position
            } else {
                let k = if n >= g.len() {
                    0
                } else {
                    g.len() - n
                };
                ByteIndex(g[k])
            }
        }
    }

    /// Move the cursor horizontaly, by the given number of graphene clusters. Move to the right if
    /// delta_x is positive, and left if it is negative. If expand_selection is true, the anchor of
    /// the selection will be preseved. Otherwise, the selection is clear. Returns where the moved
    /// cursor landed, which is where the caret is drawn.
    pub fn move_cursor_hor(&mut self, delta_x: i32, expand_selection: bool, text: &str) -> (moved:
        ByteIndex)
        requires
            can_offset(text.spec_bytes(), old(self).spec_selection().cursor.0, delta_x),
        ensures
            moved.0 == offset_target(text@, old(self).spec_selection().cursor.0, delta_x),
            final(self).spec_selection() == hor_moved(
                old(self).spec_selection(),
                moved,
                delta_x,
                expand_selection,
            ),
    {
        let cursor = self.offset_byte_index(self.selection.cursor, delta_x, text);
        if expand_selection {
            self.selection.cursor = cursor;
        } else {
            if self.selection.is_empty() {
                self.selection.set_pos(cursor);
            } else {
                let c = if delta_x > 0 {
                    self.selection.end()
                } else {
                    self.selection.start()
                };
                self.selection.set_pos(c);
            }
        }
        cursor
    }

    /// Move the cursor to the start of the currently line. If expand_selection is true, the anchor
    /// of the selection will be preserved. Otherwise, the selection is clear.
    pub fn move_cursor_line_start(&mut self, expand_selection: bool, lines: &[Range<usize>])
        requires
            lines_ordered(lines@),
            some_line_holds(lines@, old(self).spec_selection().cursor.0),
        ensures
            final(self).spec_selection() == cursor_set(
                old(self).spec_selection(),
                ByteIndex(lines@[line_of(lines@, old(self).spec_selection().cursor.0)].start),
                expand_selection,
            ),
    {
        let line = get_line_from_byte_index(self.selection.cursor.0, lines);
        let cursor = ByteIndex(lines[line].start);
        self.set_cursor(cursor, expand_selection);
    }

    /// Move the cursor to the end of the currently line. If expand_selection is true, the anchor
    /// of the selection will be preserved. Otherwise, the selection is clear.
    pub fn move_cursor_line_end(&mut self, expand_selection: bool, lines: &[Range<usize>])
        requires
            lines_ordered(lines@),
            some_line_holds(lines@, old(self).spec_selection().cursor.0),
        ensures
            final(self).spec_selection() == cursor_set(
                old(self).spec_selection(),
                ByteIndex((lines@[line_of(lines@, old(self).spec_selection().cursor.0)].end - 1) as usize),
                expand_selection,
            ),
    {
        let line = get_line_from_byte_index(self.selection.cursor.0, lines);
        let cursor = ByteIndex(lines[line].end - 1);
        self.set_cursor(cursor, expand_selection);
    }

    /// Where moving the cursor verticaly by the given number of lines goes: up if lines is
    /// negative, down if positive. Above the first line is the start of the text, below the last
    /// line is the last byte of the text; otherwise it is a line, where the byte under the
    /// cursor's horizontal position is then picked.
    pub fn vertical_move(&self, lines: i32, line_ranges: &[Range<usize>]) -> (m: VerticalMove)
        requires
            lines_ordered(line_ranges@),
            target_line(line_of(line_ranges@, self.spec_selection().cursor.0), lines) >= line_ranges@.len()
                ==> line_ranges@.len() > 0 && line_ranges@.last().end > 0,
        ensures
            ({
                let t = target_line(line_of(line_ranges@, self.spec_selection().cursor.0), lines);
                m == if t < 0 {
                    VerticalMove::To(ByteIndex(0))
                } else if t >= line_ranges@.len() {
                    VerticalMove::To(ByteIndex((line_ranges@.last().end - 1) as usize))
                } else {
                    VerticalMove::Line(t as usize)
                }
            }),
    {
        let curr_line = get_line_from_byte_index(self.selection.cursor.0, line_ranges);
        let target: i128 = curr_line as i128 + lines as i128;
        if target < 0 {
            VerticalMove::To(ByteIndex(0))
        } else if target >= line_ranges.len() as i128 {
            let last = line_ranges.len() - 1;
            VerticalMove::To(ByteIndex(line_ranges[last].end - 1))
        } else {
            VerticalMove::Line(target as usize)
        }
    }

    /// Replace the currently selected text by the given one. The currently selection can be empty,
    /// so this only inserts the text at the caret position. At the end, the cursor is moved to the
    /// end of the inserted text.
    ///
    /// If the given text is empty, this acts as a selection deletion.
    pub fn insert_text(&mut self, text: &str, string: &mut SpannedString)
        requires
            old(string).can_replace(old(self).spec_selection().range(), text.spec_bytes()),
        ensures
            old(string).replaced(old(self).spec_selection().range(), text.spec_bytes(), *final(string)),
            final(self).spec_selection() == caret_at(
                old(self).spec_selection().range().start + text.spec_bytes().len(),
            ),
    {
        let range = self.selection_range();
        let start = range.start;
        string.replace_range(range, text);
        let byte_index = start + text.len();
        self.selection.set_pos(ByteIndex(byte_index));
    }

    /// If the selection is empty, delete horizontaly, by the given amount of graphene clusters.
    /// Deletes right if delta_x is positive, and deletes left if delta_x is negative. If there is
    /// selection, the selected text is deleted, and delta_x is ignored.
    pub fn delete_hor(&mut self, delta_x: i32, text: &str, string: &mut SpannedString)
        requires
            old(self).spec_selection().cursor == old(self).spec_selection().anchor ==> can_offset(
                text.spec_bytes(),
                old(self).spec_selection().anchor.0,
                delta_x,
            ),
            old(string).can_replace(
                deletion(old(self).spec_selection(), text@, delta_x).range(),
                Seq::empty(),
            ),
        ensures
            old(string).replaced(
                deletion(old(self).spec_selection(), text@, delta_x).range(),
                Seq::empty(),
                *final(string),
            ),
            final(self).spec_selection() == caret_at(
                deletion(old(self).spec_selection(), text@, delta_x).range().start as int,
            ),
    {
        if self.selection.is_empty() {
            let anchor = self.selection.anchor;
            let anchor = self.offset_byte_index(anchor, delta_x, text);
            self.selection.anchor = anchor;
        }
        let empty = "";
        proof {
            reveal_strlit("");
        }
        self.insert_text(empty, string);
    }
}

/// A horizontal move of the cursor: when it expands the selection, the anchor stays and the
/// cursor goes where it moved; otherwise the selection ends up empty. An empty selection goes
/// where the cursor moved; a selection that was not empty collapses to its right end (the larger
/// of cursor and anchor) when moving right, and to its left end (the smaller) otherwise, whichever
/// of the two ends the cursor was at.
pub proof fn lemma_hor_move_collapses(sel: Selection, moved: ByteIndex, delta: i32, expand: bool)
    ensures
        ({
            let r = hor_moved(sel, moved, delta, expand);
            let hi = if sel.cursor.0 >= sel.anchor.0 {
                sel.cursor.0
            } else {
                sel.anchor.0
            };
            let lo = if sel.cursor.0 <= sel.anchor.0 {
                sel.cursor.0
            } else {
                sel.anchor.0
            };
            &&& expand ==> r.anchor == sel.anchor && r.cursor == moved
            &&& !expand ==> r.cursor == r.anchor
            &&& !expand && sel.cursor == sel.anchor ==> r.cursor == moved
            &&& !expand && sel.cursor != sel.anchor && delta > 0 ==> r.cursor.0 == hi
            &&& !expand && sel.cursor != sel.anchor && delta <= 0 ==> r.cursor.0 == lo
        }),
{
}

} // verus!
