use vstd::prelude::*;

use ab_glyph::FontVec;
use vstd::slice::slice_to_vec;

verus! {

/// The handle of a font added to `Fonts`.
#[derive(Clone, Copy, Debug, PartialEq, Eq, Structural, Hash)]
pub struct FontId {
    pub index: u32,
}

impl Default for FontId {
    fn default() -> (id: FontId)
        ensures
            id.index == 0,
    {
        FontId { index: 0 }
    }
}

impl FontId {
    /// Create a new FontId from a index. This is discouraged, use the FontId returned by
    /// `Fonts::add` instead.
    pub fn new(index: u32) -> (id: FontId)
        ensures
            id.index == index,
    {
        FontId { index }
    }

    /// Get the index of the font in the Fonts inner storage.
    pub fn index(&self) -> (i: usize)
        ensures
            i == self.index,
    {
        self.index as usize
    }
}

#[verifier::external_type_specification]
#[verifier::external_body]
pub struct ExFontVec(FontVec);

/// `data` is a font file that `ab_glyph` can read.
pub uninterp spec fn is_valid_font(data: Seq<u8>) -> bool;

/// Parses `data` with `ab_glyph::FontVec::try_from_vec`, which succeeds exactly on the font
/// files that it can read (the first font of a collection).
#[verifier::external_body]
fn parse_font(data: Vec<u8>) -> (res: Option<FontVec>)
    ensures
        res is Some <==> is_valid_font(data@),
{
    FontVec::try_from_vec(data).ok()
}

/// A font, with the bytes it was read from.
pub struct Font {
    pub data: Vec<u8>,
    id: FontId,
    inner: FontVec,
    pub fallback: Option<FontId>,
}

impl Font {
    /// The Id this font was given when added to `Fonts` (`u32::MAX` before that).
    pub closed spec fn spec_id(&self) -> FontId {
        self.id
    }

    /// The bytes of the font file.
    pub closed spec fn spec_data(&self) -> Seq<u8> {
        self.data@
    }

    /// The font that `ab_glyph` parsed from the bytes.
    pub closed spec fn spec_inner(&self) -> FontVec {
        self.inner
    }

    /// The font to fall back to.
    pub closed spec fn spec_fallback(&self) -> Option<FontId> {
        self.fallback
    }

    /// Read a font from its file. The data must be a font that `ab_glyph` can read.
    pub fn new(data: &[u8]) -> (font: Font)
        requires
            is_valid_font(data@),
        ensures
            font.spec_data() == data@,
            font.spec_id().index == u32::MAX,
            font.spec_fallback() is None,
    {
        Font::try_new(data).unwrap()
    }

    /// Read a font from its file, or `None` when `ab_glyph` cannot read it.
    pub fn try_new(data: &[u8]) -> (font: Option<Font>)
        ensures
            font is Some <==> is_valid_font(data@),
            font matches Some(f) ==> f.spec_data() == data@ && f.spec_id().index == u32::MAX
                && f.spec_fallback() is None,
    {
        match parse_font(slice_to_vec(data)) {
            Some(inner) => Some(
                Font {
                    data: slice_to_vec(data),
                    id: FontId { index: u32::MAX },
                    inner,
                    fallback: None,
                },
            ),
            None => None,
        }
    }

    /// Set the font to fall back to for the glyphs this one lacks.
    pub fn with_fallback(self, fallback: FontId) -> (font: Font)
        ensures
            font.spec_fallback() == Some(fallback),
            font.spec_data() == self.spec_data(),
            font.spec_id() == self.spec_id(),
            font.spec_inner() == self.spec_inner(),
    {
        let mut font = self;
        font.fallback = Some(fallback);
        font
    }

    /// The Id this font was given when added to `Fonts`.
    pub fn id(&self) -> (id: FontId)
        ensures
            id == self.spec_id(),
    {
        self.id
    }

    /// The parsed font.
    pub fn inner(&self) -> (inner: &FontVec)
        ensures
            *inner == self.spec_inner(),
    {
        &self.inner
    }
}

/// The fonts of a GUI, addressed by `FontId`.
pub struct Fonts {
    fonts: Vec<Font>,
}

impl Default for Fonts {
    fn default() -> (fonts: Fonts)
        ensures
            fonts@.len() == 0,
    {
        Fonts::new()
    }
}

impl View for Fonts {
    type V = Seq<Font>;

    closed spec fn view(&self) -> Seq<Font> {
        self.fonts@
    }
}

impl Fonts {
    /// No fonts.
    pub fn new() -> (fonts: Fonts)
        ensures
            fonts@.len() == 0,
    {
        Fonts { fonts: Vec::new() }
    }

    /// Add a font, and return the Id it gets: its position among the fonts.
    pub fn add(&mut self, font: Font) -> (id: FontId)
        ensures
            id.index == old(self)@.len() as u32,
            final(self)@.len() == old(self)@.len() + 1,
            final(self)@.take(old(self)@.len() as int) == old(self)@,
            final(self)@.last().spec_id() == id,
            final(self)@.last().spec_data() == font.spec_data(),
            final(self)@.last().spec_fallback() == font.spec_fallback(),
            final(self)@.last().spec_inner() == font.spec_inner(),
    {
        let id = FontId { index: self.fonts.len() as u32 };
        let mut font = font;
        font.id = id;
        self.fonts.push(font);
        assert(self.fonts@.take(old(self).fonts@.len() as int) =~= old(self).fonts@);
        id
    }

    /// The font with the given Id, if there is one.
    pub fn get(&self, id: FontId) -> (font: Option<&Font>)
        ensures
            match font {
                Some(f) => id.index < self@.len() && *f == self@[id.index as int],
                None => id.index >= self@.len(),
            },
    {
        if (id.index as usize) < self.fonts.len() {
            Some(&self.fonts[id.index as usize])
        } else {
            None
        }
    }

    /// All the fonts, in the order they were added.
    pub fn as_slice(&self) -> (fonts: &[Font])
        ensures
            fonts@ == self@,
    {
        self.fonts.as_slice()
    }
}

/// The font that `Fonts::add` gave an Id is what `get` finds with that Id.
pub proof fn lemma_add_then_get(before: Fonts, after: Fonts, id: FontId)
    requires
        after@.len() == before@.len() + 1,
        after@.take(before@.len() as int) == before@,
        id.index == before@.len(),
    ensures
        id.index < after@.len(),
        after@[id.index as int] == after@.last(),
        forall|i: int| 0 <= i < before@.len() ==> after@[i] == before@[i],
{
    assert forall|i: int| 0 <= i < before@.len() implies after@[i] == before@[i] by {
        assert(after@.take(before@.len() as int)[i] == after@[i]);
    }
}

} // verus!
