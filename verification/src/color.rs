use vstd::prelude::*;

verus! {

/// An RGBA color, one byte per channel.
#[derive(Clone, Copy, PartialEq, Eq, Structural, PartialOrd, Ord, Debug)]
pub struct Color {
    pub r: u8,
    pub g: u8,
    pub b: u8,
    pub a: u8,
}

/// The color whose channels are the four bytes of `value`, most significant first.
pub open spec fn color_of_u32(value: u32) -> Color {
    Color {
        r: (value / 0x1000000) as u8,
        g: ((value / 0x10000) % 0x100) as u8,
        b: ((value / 0x100) % 0x100) as u8,
        a: (value % 0x100) as u8,
    }
}

/// The color whose channels are `value[0]`, `value[1]`, `value[2]` and `value[3]`.
pub open spec fn color_of_array(value: [u8; 4]) -> Color {
    Color { r: value[0], g: value[1], b: value[2], a: value[3] }
}

/// The number that packs the four channels of `c`, red in the most significant byte.
pub open spec fn packed(c: Color) -> int {
    c.r * 0x1000000 + c.g * 0x10000 + c.b * 0x100 + c.a
}

impl Color {
    /// Opaque white.
    pub fn white() -> (c: Color)
        ensures
            c == (Color { r: 255, g: 255, b: 255, a: 255 }),
    {
        Color { r: 255, g: 255, b: 255, a: 255 }
    }

    /// Opaque black.
    pub fn black() -> (c: Color)
        ensures
            c == (Color { r: 0, g: 0, b: 0, a: 255 }),
    {
        Color { r: 0, g: 0, b: 0, a: 255 }
    }

    /// Build a color from a `0xRRGGBBAA` number.
    pub fn from_u32(value: u32) -> (c: Color)
        ensures
            c == color_of_u32(value),
    {
        let r = (value >> 24) as u8;
        let g = ((value >> 16) & 0xff) as u8;
        let b = ((value >> 8) & 0xff) as u8;
        let a = (value & 0xff) as u8;
        assert(r == value / 0x1000000) by (bit_vector)
            requires r == (value >> 24) as u8;
        assert(g == (value / 0x10000) % 0x100) by (bit_vector)
            requires g == ((value >> 16) & 0xff) as u8;
        assert(b == (value / 0x100) % 0x100) by (bit_vector)
            requires b == ((value >> 8) & 0xff) as u8;
        assert(a == value % 0x100) by (bit_vector)
            requires a == (value & 0xff) as u8;
        Color::from_array([r, g, b, a])
    }

    /// Build a color from its `[r, g, b, a]` channels.
    pub fn from_array(value: [u8; 4]) -> (c: Color)
        ensures
            c == color_of_array(value),
    {
        Color { r: value[0], g: value[1], b: value[2], a: value[3] }
    }

    /// The `[r, g, b, a]` channels of this color.
    pub fn to_array(self) -> (value: [u8; 4])
        ensures
            color_of_array(value) == self,
            value@ == seq![self.r, self.g, self.b, self.a],
    {
        let value = [self.r, self.g, self.b, self.a];
        assert(value@ =~= seq![self.r, self.g, self.b, self.a]);
        value
    }
}

impl Default for Color {
    fn default() -> (c: Color)
        ensures
            c == (Color { r: 255, g: 255, b: 255, a: 255 }),
    {
        Color::white()
    }
}

/// `to_array` gives back the channels that `from_array` was built from, and the other way round.
pub proof fn lemma_array_round_trip(value: [u8; 4], c: Color)
    ensures
        color_of_array([c.r, c.g, c.b, c.a]) == c,
        ({
            let d = color_of_array(value);
            [d.r, d.g, d.b, d.a]@ == value@
        }),
{
    let d = color_of_array(value);
    assert([d.r, d.g, d.b, d.a]@ =~= value@);
}

/// `from_u32` reads the number big-endian: packing the channels again gives the number back, so
/// distinct numbers give distinct colors.
pub proof fn lemma_from_u32_packs(value: u32)
    ensures
        packed(color_of_u32(value)) == value,
{
    let c = color_of_u32(value);
    assert(packed(c) == value) by (nonlinear_arith)
        requires
            c.r == value / 0x1000000,
            c.g == (value / 0x10000) % 0x100,
            c.b == (value / 0x100) % 0x100,
            c.a == value % 0x100,
            packed(c) == c.r * 0x1000000 + c.g * 0x10000 + c.b * 0x100 + c.a,
            0 <= value < 0x100000000,
    ;
}

/// Reading the number that packs the channels of `c` gives `c` back.
pub proof fn lemma_packed_reads_back(c: Color)
    ensures
        0 <= packed(c) <= u32::MAX,
        color_of_u32(packed(c) as u32) == c,
{
    let v = packed(c);
    assert(0 <= v <= u32::MAX) by (nonlinear_arith)
        requires
            v == c.r * 0x1000000 + c.g * 0x10000 + c.b * 0x100 + c.a,
            0 <= c.r < 256,
            0 <= c.g < 256,
            0 <= c.b < 256,
            0 <= c.a < 256,
    ;
    let r: u32 = c.r as u32;
    let g: u32 = c.g as u32;
    let b: u32 = c.b as u32;
    let a: u32 = c.a as u32;
    let w: u32 = v as u32;
    assert(w == r * 0x1000000 + g * 0x10000 + b * 0x100 + a);
    assert(w / 0x1000000 == r && (w / 0x10000) % 0x100 == g && (w / 0x100) % 0x100 == b && w % 0x100 == a)
        by (nonlinear_arith)
        requires
            w == r * 0x1000000 + g * 0x10000 + b * 0x100 + a,
            r < 256,
            g < 256,
            b < 256,
            a < 256,
    ;
}

} // verus!
