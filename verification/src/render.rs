use vstd::prelude::*;

use crate::control::Id;

verus! {

/// What the renderer of a GUI must do with the font texture, whose glyph cache the GUI keeps:
/// the program that draws the GUI implements it.
pub trait GuiRenderer {
    /// Write `data` (one byte per pixel) in the rectangle `rect` (`[x, y, width, height]`) of the
    /// font texture.
    fn update_font_texture(&mut self, font_texture: u32, rect: [u32; 4], data: &[u8]);

    /// Resize the font texture.
    fn resize_font_texture(&mut self, font_texture: u32, new_size: [u32; 2]);
}

/// The sprites of the first entry of `map` that belongs to `id`, as `(start, end)`.
pub open spec fn first_range_of(map: Seq<(Id, usize, usize)>, id: Id) -> Option<(usize, usize)>
    decreases map.len(),
{
    if map.len() == 0 {
        None
    } else if map[0].0 == id {
        Some((map[0].1, map[0].2))
    } else {
        first_range_of(map.drop_first(), id)
    }
}

/// Where the sprites of `id` stand among those of the last frame: the entry at `position`, where
/// the control stands when the tree did not change, if it belongs to `id`; else the first entry
/// that does.
pub open spec fn spec_cached_sprite_range(map: Seq<(Id, usize, usize)>, position: int, id: Id) -> Option<
    (usize, usize),
> {
    if 0 <= position < map.len() && map[position].0 == id {
        Some((map[position].1, map[position].2))
    } else {
        first_range_of(map, id)
    }
}

/// The range of the sprites that the control `id` was drawn with in the last frame, so they can
/// be drawn again when nothing changed. `map` lists, in drawing order, each control that got
/// sprites with the range of its sprites; `position` is the number of controls that got sprites
/// so far in this frame.
pub fn cached_sprite_range(map: &[(Id, usize, usize)], position: usize, id: Id) -> (range: Option<
    (usize, usize),
>)
    ensures
        range == spec_cached_sprite_range(map@, position as int, id),
{
    if position < map.len() && map[position].0 == id {
        return Some((map[position].1, map[position].2));
    }
    let mut i: usize = 0;
    assert(map@.skip(0) =~= map@);
    while i < map.len()
        invariant
            i <= map@.len(),
            !(position < map@.len() && map@[position as int].0 == id),
            first_range_of(map@, id) == first_range_of(map@.skip(i as int), id),
        decreases map@.len() - i,
    {
        assert(map@.skip(i as int).drop_first() =~= map@.skip(i + 1));
        assert(map@.skip(i as int)[0] == map@[i as int]);
        if map[i].0 == id {
            return Some((map[i].1, map[i].2));
        }
        i = i + 1;
    }
    None
}

} // verus!
