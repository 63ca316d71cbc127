use vstd::prelude::*;

verus! {

/// How a rect takes the area its parent's layout designs for it, along one axis.
#[derive(Clone, Copy, PartialEq, Eq, Structural, Debug)]
pub enum RectFill {
    /// Take the whole designed area.
    Fill,
    /// Take the minimum size, at the start of the area.
    ShrinkStart,
    /// Take the minimum size, at the center of the area.
    ShrinkCenter,
    /// Take the minimum size, at the end of the area.
    ShrinkEnd,
}

impl Default for RectFill {
    fn default() -> (f: RectFill)
        ensures
            f == RectFill::Fill,
    {
        RectFill::Fill
    }
}

/// Where a line of text, or a block of lines, is placed inside the area it is laid out in.
#[derive(Clone, Copy, PartialEq, Eq, Structural, Debug)]
pub enum Alignment {
    /// If the alignment is horizontal, align to the left. If is vertical, to the top.
    Start,
    /// Align to the center.
    Center,
    /// If the alignment is horizontal, align to the right. If is vertical, to the bottom.
    End,
}

impl Default for Alignment {
    fn default() -> (a: Alignment)
        ensures
            a == Alignment::Start,
    {
        Alignment::Start
    }
}

/// Horizontal alignment options for text when a max_width is provided.
#[derive(Clone, Copy, PartialEq, Eq, Structural, Debug)]
pub enum HorizontalAlign {
    /// Aligns text to the left of the region defined by the max_width.
    Left,
    /// Aligns text to the center of the region defined by the max_width.
    Center,
    /// Aligns text to the right of the region defined by the max_width.
    Right,
}

/// Vertical alignment options for text when a max_height is provided.
#[derive(Clone, Copy, PartialEq, Eq, Structural, Debug)]
pub enum VerticalAlign {
    /// Aligns text to the top of the region defined by the max_height.
    Top,
    /// Aligns text to the middle of the region defined by the max_height.
    Middle,
    /// Aligns text to the bottom of the region defined by the max_height.
    Bottom,
}

/// Wrap style is a hint for how strings of text should be wrapped to the next line. Line wrapping
/// can happen when the max width/height is reached.
#[derive(Clone, Copy, PartialEq, Eq, Structural, Debug)]
pub enum WrapStyle {
    /// Word will break lines by the Unicode line breaking algorithm (Standard Annex #14). This will
    /// generally break lines where you expect them to be broken at and will preserve words.
    Word,
    /// Letter will not preserve words, breaking into a new line after the nearest letter.
    Letter,
}

/// A layout whose minimum size is that of the text its control shows.
#[derive(Clone, Copy, PartialEq, Eq, Structural, Debug, Default)]
pub struct FitText;

} // verus!
