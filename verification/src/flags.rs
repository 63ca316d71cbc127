use vstd::prelude::*;

verus! {

/// Which parts of a rect changed since the renderer last looked: a set of the bits `WIDTH`
/// (0x1), `HEIGHT` (0x2) and `RECT` (0x4).
#[derive(Clone, Copy, PartialEq, Eq, Structural, Debug, Hash)]
pub struct RenderDirtyFlags {
    pub bits: u8,
}

impl RenderDirtyFlags {
    /// The width of the rect has changed.
    pub const WIDTH: u8 = 0x1;
    /// The height of the rect has changed.
    pub const HEIGHT: u8 = 0x2;
    /// The rect of the rect has changed.
    pub const RECT: u8 = 0x4;

    /// No flag.
    pub fn empty() -> (f: RenderDirtyFlags)
        ensures
            f.bits == 0,
    {
        RenderDirtyFlags { bits: 0 }
    }

    /// Every flag.
    pub fn all() -> (f: RenderDirtyFlags)
        ensures
            f.bits == 0x7,
    {
        RenderDirtyFlags { bits: 0x7 }
    }

    /// The flags set in `bits`, ignoring bits that are no flag.
    pub fn from_bits_truncate(bits: u8) -> (f: RenderDirtyFlags)
        ensures
            f.bits == bits & 0x7,
    {
        RenderDirtyFlags { bits: bits & 0x7 }
    }

    /// The bits of the set flags.
    pub fn bits(&self) -> (b: u8)
        ensures
            b == self.bits,
    {
        self.bits
    }

    /// No flag is set.
    pub fn is_empty(&self) -> (r: bool)
        ensures
            r == (self.bits == 0),
    {
        self.bits == 0
    }

    /// Every flag of `other` is set.
    pub fn contains(&self, other: RenderDirtyFlags) -> (r: bool)
        ensures
            r == (self.bits & other.bits == other.bits),
    {
        self.bits & other.bits == other.bits
    }

    /// Some flag of `other` is set.
    pub fn intersects(&self, other: RenderDirtyFlags) -> (r: bool)
        ensures
            r == (self.bits & other.bits != 0),
    {
        self.bits & other.bits != 0
    }

    /// Set the flags of `other`.
    pub fn insert(&mut self, other: RenderDirtyFlags)
        ensures
            final(self).bits == old(self).bits | other.bits,
    {
        self.bits = self.bits | other.bits;
    }

    /// Clear the flags of `other`.
    pub fn remove(&mut self, other: RenderDirtyFlags)
        ensures
            final(self).bits == old(self).bits & !other.bits,
    {
        self.bits = self.bits & !other.bits;
    }
}

impl Default for RenderDirtyFlags {
    /// Every flag: a new rect must be drawn.
    fn default() -> (f: RenderDirtyFlags)
        ensures
            f.bits == 0x7,
    {
        RenderDirtyFlags::all()
    }
}

/// Which parts of a rect changed since its layout was last computed: a set of the bits
/// `WIDTH` (0x01), `HEIGHT` (0x02), `RECT` (0x04), `MIN_WIDTH` (0x08), `MIN_HEIGHT` (0x10) and
/// `DIRTY` (0x20).
#[derive(Clone, Copy, PartialEq, Eq, Structural, Debug, Hash)]
pub struct LayoutDirtyFlags {
    pub bits: u16,
}

impl LayoutDirtyFlags {
    /// The width of the rect has changed.
    pub const WIDTH: u16 = 0x01;
    /// The height of the rect has changed.
    pub const HEIGHT: u16 = 0x02;
    /// The rect of the rect has changed.
    pub const RECT: u16 = 0x04;
    pub const MIN_WIDTH: u16 = 0x08;
    pub const MIN_HEIGHT: u16 = 0x10;
    pub const DIRTY: u16 = 0x20;

    /// No flag.
    pub fn empty() -> (f: LayoutDirtyFlags)
        ensures
            f.bits == 0,
    {
        LayoutDirtyFlags { bits: 0 }
    }

    /// Every flag.
    pub fn all() -> (f: LayoutDirtyFlags)
        ensures
            f.bits == 0x3f,
    {
        LayoutDirtyFlags { bits: 0x3f }
    }

    /// The flags set in `bits`, ignoring bits that are no flag.
    pub fn from_bits_truncate(bits: u16) -> (f: LayoutDirtyFlags)
        ensures
            f.bits == bits & 0x3f,
    {
        LayoutDirtyFlags { bits: bits & 0x3f }
    }

    /// The bits of the set flags.
    pub fn bits(&self) -> (b: u16)
        ensures
            b == self.bits,
    {
        self.bits
    }

    /// No flag is set.
    pub fn is_empty(&self) -> (r: bool)
        ensures
            r == (self.bits == 0),
    {
        self.bits == 0
    }

    /// Every flag of `other` is set.
    pub fn contains(&self, other: LayoutDirtyFlags) -> (r: bool)
        ensures
            r == (self.bits & other.bits == other.bits),
    {
        self.bits & other.bits == other.bits
    }

    /// Some flag of `other` is set.
    pub fn intersects(&self, other: LayoutDirtyFlags) -> (r: bool)
        ensures
            r == (self.bits & other.bits != 0),
    {
        self.bits & other.bits != 0
    }

    /// Set the flags of `other`.
    pub fn insert(&mut self, other: LayoutDirtyFlags)
        ensures
            final(self).bits == old(self).bits | other.bits,
    {
        self.bits = self.bits | other.bits;
    }

    /// Clear the flags of `other`.
    pub fn remove(&mut self, other: LayoutDirtyFlags)
        ensures
            final(self).bits == old(self).bits & !other.bits,
    {
        self.bits = self.bits & !other.bits;
    }
}

impl Default for LayoutDirtyFlags {
    /// Every flag: a new rect must be laid out.
    fn default() -> (f: LayoutDirtyFlags)
        ensures
            f.bits == 0x3f,
    {
        LayoutDirtyFlags::all()
    }
}

/// The input a behaviour wants: a set of the bits `MOUSE` (0x1), `SCROLL` (0x2) and `FOCUS`
/// (0x4).
#[derive(Clone, Copy, PartialEq, Eq, Structural, Debug, Hash)]
pub struct InputFlags {
    pub bits: u8,
}

impl InputFlags {
    pub const MOUSE: u8 = 0x1;
    pub const SCROLL: u8 = 0x2;
    pub const FOCUS: u8 = 0x4;

    /// No flag.
    pub fn empty() -> (f: InputFlags)
        ensures
            f.bits == 0,
    {
        InputFlags { bits: 0 }
    }

    /// The flags set in `bits`, ignoring bits that are no flag.
    pub fn from_bits_truncate(bits: u8) -> (f: InputFlags)
        ensures
            f.bits == bits & 0x7,
    {
        InputFlags { bits: bits & 0x7 }
    }

    /// Every flag of `other` is set.
    pub fn contains(&self, other: InputFlags) -> (r: bool)
        ensures
            r == (self.bits & other.bits == other.bits),
    {
        self.bits & other.bits == other.bits
    }

    /// Set the flags of `other`.
    pub fn insert(&mut self, other: InputFlags)
        ensures
            final(self).bits == old(self).bits | other.bits,
    {
        self.bits = self.bits | other.bits;
    }
}

/// A flag set by `insert` is then contained, and the flags set before stay set; a flag cleared
/// by `remove` is no longer contained, and the others keep their state.
pub proof fn lemma_insert_remove(a: u16, b: u16)
    ensures
        (a | b) & b == b,
        (a | b) & a == a,
        (a & !b) & b == 0,
        forall|c: u16| c & b == 0 ==> ((a & !b) & c == a & c),
{
    assert((a | b) & b == b) by (bit_vector);
    assert((a | b) & a == a) by (bit_vector);
    assert((a & !b) & b == 0) by (bit_vector);
    assert forall|c: u16| c & b == 0 implies ((a & !b) & c == a & c) by {
        assert(c & b == 0 ==> (a & !b) & c == a & c) by (bit_vector);
    }
}

/// The same for the eight-bit sets.
pub proof fn lemma_insert_remove_u8(a: u8, b: u8)
    ensures
        (a | b) & b == b,
        (a | b) & a == a,
        (a & !b) & b == 0,
        forall|c: u8| c & b == 0 ==> ((a & !b) & c == a & c),
{
    assert((a | b) & b == b) by (bit_vector);
    assert((a | b) & a == a) by (bit_vector);
    assert((a & !b) & b == 0) by (bit_vector);
    assert forall|c: u8| c & b == 0 implies ((a & !b) & c == a & c) by {
        assert(c & b == 0 ==> (a & !b) & c == a & c) by (bit_vector);
    }
}

} // verus!
