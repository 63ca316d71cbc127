use vstd::prelude::*;

use crate::color::{color_of_u32, lemma_packed_reads_back, packed, Color};
use crate::font::FontId;
use vstd::string::StringSliceAdditionalSpecFns;

verus! {

/// Why a color string was refused.
#[derive(Clone, Copy, PartialEq, Eq, Structural, Debug)]
pub enum ColorParseError {
    /// The string does not start with `#`.
    MissingHash,
    /// What follows the `#`s is not a hexadecimal number that fits in 32 bits.
    InvalidHex,
    /// The hexadecimal number has neither 6 (RGB) nor 8 (RGBA) characters.
    WrongLength,
}

/// The value of an ASCII hexadecimal digit, or `None` for any other byte.
pub open spec fn hex_digit_value(b: u8) -> Option<int> {
    if 0x30 <= b <= 0x39 {
        Some(b - 0x30)
    } else if 0x61 <= b <= 0x66 {
        Some(b - 0x61 + 10)
    } else if 0x41 <= b <= 0x46 {
        Some(b - 0x41 + 10)
    } else {
        None
    }
}

/// Every byte of `s` is a hexadecimal digit.
pub open spec fn all_hex_digits(s: Seq<u8>) -> bool {
    forall|i: int| 0 <= i < s.len() ==> (#[trigger] hex_digit_value(s[i])) is Some
}

/// The number that the hexadecimal digits `s` spell, most significant first.
pub open spec fn hex_value(s: Seq<u8>) -> int
    decreases s.len(),
{
    if s.len() == 0 {
        0
    } else {
        hex_value(s.drop_last()) * 16 + hex_digit_value(s.last()).unwrap_or(0)
    }
}

/// The digits of a hexadecimal number as `u32::from_str_radix(_, 16)` reads them: an optional
/// leading `+`, then at least one digit.
pub open spec fn hex_digits_of(s: Seq<u8>) -> Seq<u8> {
    if s.len() > 0 && s[0] == 0x2b {
        s.drop_first()
    } else {
        s
    }
}

/// `s` is accepted by `u32::from_str_radix(_, 16)`.
pub open spec fn is_u32_hex(s: Seq<u8>) -> bool {
    let d = hex_digits_of(s);
    &&& d.len() > 0
    &&& all_hex_digits(d)
    &&& hex_value(d) <= u32::MAX
}

/// The number of `#` bytes at the start of `s`.
pub open spec fn leading_hashes(s: Seq<u8>) -> nat
    decreases s.len(),
{
    if s.len() > 0 && s[0] == 0x23 {
        1 + leading_hashes(s.drop_first())
    } else {
        0
    }
}

/// What a color string in a style file stands for: `#RRGGBB` (opaque) or `#RRGGBBAA`.
pub open spec fn spec_parse_hex_color(s: Seq<u8>) -> Result<Color, ColorParseError> {
    if s.len() == 0 || s[0] != 0x23 {
        Err(ColorParseError::MissingHash)
    } else {
        let digits = s.skip(leading_hashes(s) as int);
        if !is_u32_hex(digits) {
            Err(ColorParseError::InvalidHex)
        } else if digits.len() == 6 {
            Ok(color_of_u32((hex_value(hex_digits_of(digits)) * 256 + 255) as u32))
        } else if digits.len() == 8 {
            Ok(color_of_u32(hex_value(hex_digits_of(digits)) as u32))
        } else {
            Err(ColorParseError::WrongLength)
        }
    }
}

proof fn lemma_hex_value_bound(s: Seq<u8>)
    requires
        all_hex_digits(s),
    ensures
        0 <= hex_value(s) < pow16(s.len()),
    decreases s.len(),
{
    if s.len() > 0 {
        lemma_hex_value_bound(s.drop_last());
        assert(hex_digit_value(s[s.len() - 1]) is Some);
    }
}

spec fn pow16(n: nat) -> int
    decreases n,
{
    if n == 0 {
        1
    } else {
        16 * pow16((n - 1) as nat)
    }
}

proof fn lemma_pow16_monotone(a: nat, b: nat)
    requires
        a <= b,
    ensures
        pow16(a) <= pow16(b),
    decreases b,
{
    if a < b {
        lemma_pow16_monotone(a, (b - 1) as nat);
        lemma_pow16_positive((b - 1) as nat);
    }
}

proof fn lemma_pow16_positive(a: nat)
    ensures
        pow16(a) >= 1,
    decreases a,
{
    if a > 0 {
        lemma_pow16_positive((a - 1) as nat);
    }
}

proof fn lemma_hex_value_grows(s: Seq<u8>, i: int)
    requires
        0 <= i <= s.len(),
        all_hex_digits(s),
    ensures
        hex_value(s.take(i)) <= hex_value(s),
    decreases s.len() - i,
{
    if i < s.len() {
        lemma_hex_value_grows(s, i + 1);
        assert(s.take(i + 1).drop_last() =~= s.take(i));
        assert(hex_digit_value(s[i]) is Some);
        lemma_hex_value_bound(s.take(i));
    } else {
        assert(s.take(i) =~= s);
    }
}

proof fn lemma_leading_hashes_bound(s: Seq<u8>)
    ensures
        leading_hashes(s) <= s.len(),
        forall|i: int| 0 <= i < leading_hashes(s) ==> s[i] == 0x23,
        leading_hashes(s) < s.len() ==> s[leading_hashes(s) as int] != 0x23,
    decreases s.len(),
{
    if s.len() > 0 && s[0] == 0x23 {
        lemma_leading_hashes_bound(s.drop_first());
        assert forall|i: int| 0 <= i < leading_hashes(s) implies s[i] == 0x23 by {
            if i > 0 {
                assert(s[i] == s.drop_first()[i - 1]);
            }
        }
    }
}

/// Read a color written as `#RRGGBB` or `#RRGGBBAA` in hexadecimal. Any number of `#` may lead;
/// the six-digit form is opaque.
pub fn parse_hex_color(v: &str) -> (res: Result<Color, ColorParseError>)
    ensures
        res == spec_parse_hex_color(v.spec_bytes()),
{
    let bytes = v.as_bytes();
    let ghost s = bytes@;
    if bytes.len() == 0 || bytes[0] != 0x23 {
        return Err(ColorParseError::MissingHash);
    }
    proof {
        lemma_leading_hashes_bound(s);
    }
    let mut start: usize = 0;
    while start < bytes.len() && bytes[start] == 0x23
        invariant
            s == bytes@,
            start <= leading_hashes(s) <= s.len(),
            leading_hashes(s) < s.len() ==> s[leading_hashes(s) as int] != 0x23,
            forall|i: int| 0 <= i < leading_hashes(s) ==> s[i] == 0x23,
        decreases bytes.len() - start,
    {
        start = start + 1;
    }
    let ghost digits = s.skip(start as int);
    assert(start == leading_hashes(s));
    let total = bytes.len() - start;
    let mut i: usize = start;
    if i < bytes.len() && bytes[i] == 0x2b {
        i = i + 1;
    }
    let first = i;
    let ghost d = s.subrange(first as int, s.len() as int);
    assert(d =~= hex_digits_of(digits));
    if first == bytes.len() {
        return Err(ColorParseError::InvalidHex);
    }
    let mut acc: u32 = 0;
    while i < bytes.len()
        invariant
            s == bytes@,
            first <= i <= s.len(),
            first < s.len(),
            d == s.subrange(first as int, s.len() as int),
            d == hex_digits_of(digits),
            s == v.spec_bytes(),
            s.len() > 0 && s[0] == 0x23,
            digits == s.skip(leading_hashes(s) as int),
            all_hex_digits(d.take(i - first)),
            acc == hex_value(d.take(i - first)),
        decreases bytes.len() - i,
    {
        let b = bytes[i];
        let digit: u32 = if 0x30 <= b && b <= 0x39 {
            (b - 0x30) as u32
        } else if 0x61 <= b && b <= 0x66 {
            (b - 0x61 + 10) as u32
        } else if 0x41 <= b && b <= 0x46 {
            (b - 0x41 + 10) as u32
        } else {
            proof {
                assert(d[i - first] == b);
                assert(hex_digit_value(d[i - first]) is None);
                assert(!all_hex_digits(d));
            }
            return Err(ColorParseError::InvalidHex);
        };
        let ghost k = (i - first) as int;
        assert(d.take(k + 1).drop_last() =~= d.take(k));
        assert(d.take(k + 1).last() == b);
        assert forall|j: int| 0 <= j < d.take(k + 1).len() implies (#[trigger] hex_digit_value(
            d.take(k + 1)[j],
        )) is Some by {
            if j < k {
                assert(d.take(k + 1)[j] == d.take(k)[j]);
            }
        }
        if acc > (u32::MAX - digit) / 16 {
            proof {
                assert(hex_value(d.take(k + 1)) > u32::MAX) by (nonlinear_arith)
                    requires
                        hex_value(d.take(k + 1)) == acc * 16 + digit,
                        acc > (u32::MAX - digit) / 16,
                        0 <= digit < 16,
                ;
                if all_hex_digits(d) {
                    lemma_hex_value_grows(d, k + 1);
                }
            }
            return Err(ColorParseError::InvalidHex);
        }
        assert(acc * 16 + digit <= u32::MAX) by (nonlinear_arith)
            requires
                acc <= (u32::MAX - digit) / 16,
                0 <= digit < 16,
        ;
        acc = acc * 16 + digit;
        i = i + 1;
    }
    assert(d.take(i - first) =~= d);
    if total == 6 {
        proof {
            lemma_hex_value_bound(d);
            assert(pow16(6) == 0x1000000) by {
                reveal_with_fuel(pow16, 7);
            }
            lemma_pow16_monotone(d.len(), 6);
        }
        Ok(Color::from_u32(acc * 256 + 255))
    } else if total == 8 {
        Ok(Color::from_u32(acc))
    } else {
        Err(ColorParseError::WrongLength)
    }
}

/// What the style loader asks of the program that uses it: the textures and fonts named in a
/// style file.
pub trait StyleLoaderCallback: Sized {
    /// Loading the texture `name` from the state `self` gives `texture` (its id, width and
    /// height) and leaves the callback in the state `after`. An implementation that does not
    /// define it says nothing of what it loads.
    closed spec fn texture_loaded(&self, name: Seq<char>, after: Self, texture: (u32, u32, u32)) -> bool {
        true
    }

    /// Loading the font `name` from the state `self` gives `font` and leaves the callback in the
    /// state `after`. An implementation that does not define it says nothing of what it loads.
    closed spec fn font_loaded(&self, name: Seq<char>, after: Self, font: FontId) -> bool {
        true
    }

    /// Load the texture with the given name, returning its id, width and height.
    fn load_texture(&mut self, name: String) -> (texture: (u32, u32, u32))
        ensures
            old(self).texture_loaded(name@, *final(self), texture),
    ;

    /// Load the font with the given name, returning its id.
    fn load_font(&mut self, name: String) -> (font: FontId)
        ensures
            old(self).font_loaded(name@, *final(self), font),
    ;
}

/// Loads the resources a style file names, through the callback given to it.
pub struct StyleLoader<C: StyleLoaderCallback> {
    callback: C,
}

impl<C: StyleLoaderCallback> StyleLoader<C> {
    /// The callback the loader asks.
    pub closed spec fn spec_callback(&self) -> C {
        self.callback
    }

    pub fn new(callback: C) -> (l: StyleLoader<C>)
        ensures
            l.spec_callback() == callback,
    {
        StyleLoader { callback }
    }

    /// Load the texture with the given name: its id, width and height, as the callback gives
    /// them for that name.
    pub fn load_texture(&mut self, name: String) -> (texture: (u32, u32, u32))
        ensures
            old(self).spec_callback().texture_loaded(name@, final(self).spec_callback(), texture),
    {
        self.callback.load_texture(name)
    }

    /// Load the font with the given name, as the callback gives it for that name.
    pub fn load_font(&mut self, name: String) -> (font: FontId)
        ensures
            old(self).spec_callback().font_loaded(name@, final(self).spec_callback(), font),
    {
        self.callback.load_font(name)
    }
}

/// `a / b` rounded toward zero, as Rust divides integers.
pub open spec fn div_toward_zero(a: int, b: int) -> int {
    let q = abs(a) / abs(b);
    if (a >= 0) == (b > 0) {
        q
    } else {
        -q
    }
}

/// The absolute value of `a`.
pub open spec fn abs(a: int) -> int {
    if a < 0 {
        -a
    } else {
        a
    }
}

/// The frame `k` of a grid of `cols` columns: the cells go left to right, then top to bottom,
/// from the corner `(x0, y0)`, each `w` by `h` pixels.
pub open spec fn grid_cell(x0: int, y0: int, w: int, h: int, cols: int, k: int) -> [i32; 4] {
    [(x0 + w * (k % cols)) as i32, (y0 + h * (k / cols)) as i32, w as i32, h as i32]
}

/// How many frames a grid of `rows` by `cols` cells gives when `len` is asked for: all the cells
/// when `len` is 0 or more than there are, else `len`.
pub open spec fn grid_len(rows: int, cols: int, len: int) -> int {
    if rows <= 0 || cols <= 0 {
        0
    } else if len == 0 || len > rows * cols {
        rows * cols
    } else {
        len
    }
}

/// The frames of an animated icon laid out as a grid in the texture rectangle
/// `[x0, y0, x1, y1]`, `rows` by `cols` cells of equal size; `len` (all the cells by default)
/// limits their number.
pub open spec fn spec_grid_frames(rect: [i32; 4], rows: u32, cols: u32, len: Option<u32>) -> Seq<[i32; 4]> {
    let c = cols as i32;
    let r = rows as i32;
    let w = div_toward_zero(rect[2] - rect[0], c as int);
    let h = div_toward_zero(rect[3] - rect[1], r as int);
    let n = grid_len(r as int, c as int, len.unwrap_or((rows * cols) as u32) as int);
    Seq::new(n as nat, |k: int| grid_cell(rect[0] as int, rect[1] as int, w, h, c as int, k))
}

/// Cut a texture rectangle into the frames of an animated icon: `rows` by `cols` cells of
/// equal size, taken row by row, at most `len` of them (all of them when `len` is `None`).
pub fn grid_frames(rect: [i32; 4], rows: u32, cols: u32, len: Option<u32>) -> (frames: Vec<[i32; 4]>)
    requires
        rows > 0,
        cols > 0,
        rows * cols <= u32::MAX,
        i32::MIN <= rect[2] - rect[0] <= i32::MAX,
        i32::MIN <= rect[3] - rect[1] <= i32::MAX,
        !(rect[2] - rect[0] == i32::MIN && cols == u32::MAX),
        !(rect[3] - rect[1] == i32::MIN && rows == u32::MAX),
    ensures
        frames@ == spec_grid_frames(rect, rows, cols, len),
{
    let total = rows * cols;
    let len = match len {
        Some(l) => l,
        None => total,
    };
    proof {
        assert(cols > 0 ==> cols as i32 != 0) by (bit_vector);
        assert(rows > 0 ==> rows as i32 != 0) by (bit_vector);
        assert(cols as i32 == -1 ==> cols == u32::MAX) by (bit_vector);
        assert(rows as i32 == -1 ==> rows == u32::MAX) by (bit_vector);
        assert(cols as i32 > 0 ==> cols as i32 == cols) by (bit_vector);
        assert(rows as i32 > 0 ==> rows as i32 == rows) by (bit_vector);
    }
    let c = cols as i32;
    let r = rows as i32;
    let w = (rect[2] - rect[0]) / c;
    let h = (rect[3] - rect[1]) / r;
    let n: u32 = if c <= 0 || r <= 0 {
        0
    } else if len == 0 || len > total {
        total
    } else {
        len
    };
    let ghost d = rect[2] - rect[0];
    let ghost e = rect[3] - rect[1];
    proof {
        if c > 0 {
            lemma_div_toward_zero(d, c as int);
        }
        if r > 0 {
            lemma_div_toward_zero(e, r as int);
        }
    }
    let mut frames: Vec<[i32; 4]> = Vec::new();
    let mut k: u32 = 0;
    while k < n
        invariant
            k <= n,
            n as int == grid_len(r as int, c as int, len as int),
            n > 0 ==> c > 0 && r > 0 && c == cols && r == rows,
            n <= rows * cols,
            c > 0 ==> w == div_toward_zero(d, c as int),
            r > 0 ==> h == div_toward_zero(e, r as int),
            d == rect[2] - rect[0],
            e == rect[3] - rect[1],
            i32::MIN <= d <= i32::MAX,
            i32::MIN <= e <= i32::MAX,
            frames@ == Seq::new(k as nat, |i: int| grid_cell(rect[0] as int, rect[1] as int, w as int, h as int, c as int, i)),
        decreases n - k,
    {
        let x = k % cols;
        let y = k / cols;
        proof {
            assert(y < rows) by (nonlinear_arith)
                requires
                    k < rows * cols,
                    y == k / cols,
                    cols > 0,
            ;
            lemma_step_within(d, c as int, x as int);
            lemma_step_within(e, r as int, y as int);
        }
        let xi = x as i32;
        let yi = y as i32;
        frames.push([rect[0] + w * xi, rect[1] + h * yi, w, h]);
        proof {
            assert(frames@ =~= Seq::new((k + 1) as nat, |i: int| grid_cell(rect[0] as int, rect[1] as int, w as int, h as int, c as int, i)));
        }
        k = k + 1;
    }
    frames
}

/// Rust's division of `d` by a positive `c`, as vstd states it, rounds toward zero.
proof fn lemma_div_toward_zero(d: int, c: int)
    requires
        c > 0,
    ensures
        (if d >= 0 { d / c } else { -((-d) / c) }) == div_toward_zero(d, c),
        abs(div_toward_zero(d, c)) <= abs(d),
{
    assert(abs(d) / c <= abs(d)) by (nonlinear_arith)
        requires
            c > 0,
            abs(d) >= 0,
    ;
}

/// Moving `x` of `c` equal steps over a distance `d` stays between 0 and `d`.
proof fn lemma_step_within(d: int, c: int, x: int)
    requires
        c > 0,
        0 <= x < c,
    ensures
        d >= 0 ==> 0 <= div_toward_zero(d, c) * x <= d,
        d < 0 ==> d <= div_toward_zero(d, c) * x <= 0,
{
    let q = abs(d) / c;
    assert(q * c <= abs(d)) by (nonlinear_arith)
        requires
            c > 0,
            q == abs(d) / c,
            abs(d) >= 0,
    ;
    assert(0 <= q * x <= q * c) by (nonlinear_arith)
        requires
            q >= 0,
            0 <= x < c,
    ;
    if d < 0 {
        assert((-q) * x == -(q * x)) by (nonlinear_arith);
    }
}

/// The nine pieces of a panel's texture rectangle `uv_rect` (`[x, y, width, height]`) cut by the
/// widths of its `border` (`[left, top, right, bottom]`): piece `i` is in column `i % 3` and row
/// `i / 3`. The columns start at `x`, `x + left` and `x + width - right`, the rows at `y`,
/// `y + top` and `y + height - bottom`.
pub open spec fn spec_nine_slice(uv_rect: [i32; 4], border: [i32; 4]) -> Seq<[i32; 4]> {
    let xs = seq![uv_rect[0] as int, uv_rect[0] + border[0], uv_rect[0] + uv_rect[2] - border[2]];
    let ys = seq![uv_rect[1] as int, uv_rect[1] + border[1], uv_rect[1] + uv_rect[3] - border[3]];
    let ws = seq![border[0] as int, uv_rect[2] - border[0] - border[2], border[2] as int];
    let hs = seq![border[1] as int, uv_rect[3] - border[1] - border[3], border[3] as int];
    Seq::new(9, |i: int| [xs[i % 3] as i32, ys[i / 3] as i32, ws[i % 3] as i32, hs[i / 3] as i32])
}

/// Every coordinate of the nine pieces fits in an `i32`.
pub open spec fn nine_slice_fits(uv_rect: [i32; 4], border: [i32; 4]) -> bool {
    &&& i32::MIN <= uv_rect[0] + border[0] <= i32::MAX
    &&& i32::MIN <= uv_rect[0] + uv_rect[2] <= i32::MAX
    &&& i32::MIN <= uv_rect[0] + uv_rect[2] - border[2] <= i32::MAX
    &&& i32::MIN <= uv_rect[1] + border[1] <= i32::MAX
    &&& i32::MIN <= uv_rect[1] + uv_rect[3] <= i32::MAX
    &&& i32::MIN <= uv_rect[1] + uv_rect[3] - border[3] <= i32::MAX
    &&& i32::MIN <= uv_rect[2] - border[0] <= i32::MAX
    &&& i32::MIN <= uv_rect[2] - border[0] - border[2] <= i32::MAX
    &&& i32::MIN <= uv_rect[3] - border[1] <= i32::MAX
    &&& i32::MIN <= uv_rect[3] - border[1] - border[3] <= i32::MAX
}

/// Cut a panel's texture rectangle `uv_rect` into nine pieces by the widths of its border, in
/// pixels: the corners, the edges and the center, row by row.
pub fn nine_slice(uv_rect: [i32; 4], border: [i32; 4]) -> (pieces: [[i32; 4]; 9])
    requires
        nine_slice_fits(uv_rect, border),
    ensures
        pieces@ == spec_nine_slice(uv_rect, border),
{
    let w = uv_rect[2];
    let h = uv_rect[3];
    let x = [uv_rect[0], uv_rect[0] + border[0], uv_rect[0] + w - border[2]];
    let y = [uv_rect[1], uv_rect[1] + border[1], uv_rect[1] + h - border[3]];
    let w = [border[0], w - border[0] - border[2], border[2]];
    let h = [border[1], h - border[1] - border[3], border[3]];
    let pieces = [
        [x[0], y[0], w[0], h[0]],
        [x[1], y[0], w[1], h[0]],
        [x[2], y[0], w[2], h[0]],
        [x[0], y[1], w[0], h[1]],
        [x[1], y[1], w[1], h[1]],
        [x[2], y[1], w[2], h[1]],
        [x[0], y[2], w[0], h[2]],
        [x[1], y[2], w[1], h[2]],
        [x[2], y[2], w[2], h[2]],
    ];
    assert(pieces@ =~= spec_nine_slice(uv_rect, border));
    pieces
}

/// A color written with six hexadecimal digits is opaque.
pub proof fn lemma_six_digits_opaque(s: Seq<u8>)
    requires
        spec_parse_hex_color(s) is Ok,
        s.skip(leading_hashes(s) as int).len() == 6,
    ensures
        spec_parse_hex_color(s)->Ok_0.a == 255,
{
    let digits = s.skip(leading_hashes(s) as int);
    let d = hex_digits_of(digits);
    lemma_hex_value_bound(d);
    assert(pow16(6) == 0x1000000) by {
        reveal_with_fuel(pow16, 7);
    }
    lemma_pow16_monotone(d.len(), 6);
    let v = hex_value(d) * 256 + 255;
    assert(v % 0x100 == 255);
}

/// `b` is one of the ASCII characters `0`-`9`, `a`-`f` and `A`-`F`.
pub open spec fn is_hex_char(b: u8) -> bool {
    (0x30 <= b <= 0x39) || (0x61 <= b <= 0x66) || (0x41 <= b <= 0x46)
}

/// The value of the hexadecimal character `b`, in either case: `0`-`9` are 0 to 9, and `a`-`f`
/// as well as `A`-`F` are 10 to 15.
pub open spec fn hex_char_value(b: u8) -> int {
    if b <= 0x39 {
        b - 0x30
    } else if b >= 0x61 {
        b - 0x61 + 10
    } else {
        b - 0x41 + 10
    }
}

/// The byte of a color spelled by two hexadecimal characters, the high one first.
pub open spec fn hex_byte(hi: u8, lo: u8) -> u8 {
    (hex_char_value(hi) * 16 + hex_char_value(lo)) as u8
}

/// A color written `#RRGGBB`, with digits in either case, is the opaque color whose channels the
/// three pairs of digits spell.
pub proof fn lemma_six_digit_color(s: Seq<u8>)
    requires
        s.len() == 7,
        s[0] == 0x23,
        forall|i: int| 1 <= i < 7 ==> #[trigger] is_hex_char(s[i]),
    ensures
        spec_parse_hex_color(s) == Ok::<Color, ColorParseError>(
            Color {
                r: hex_byte(s[1], s[2]),
                g: hex_byte(s[3], s[4]),
                b: hex_byte(s[5], s[6]),
                a: 255,
            },
        ),
{
    let digits = s.skip(1);
    assert(is_hex_char(s[1]));
    assert(s.drop_first()[0] == s[1]);
    assert(leading_hashes(s.drop_first()) == 0);
    assert(leading_hashes(s) == 1);
    assert(digits[0] == s[1]);
    assert(hex_digits_of(digits) == digits);
    assert forall|i: int| 0 <= i < digits.len() implies #[trigger] hex_digit_value(digits[i])
        == Some(hex_char_value(digits[i])) by {
        assert(digits[i] == s[i + 1]);
        assert(is_hex_char(s[i + 1]));
    }
    assert forall|i: int| 1 <= i < 7 implies 0 <= #[trigger] hex_char_value(s[i]) < 16 by {
        assert(is_hex_char(s[i]));
    }
    let v1 = hex_char_value(s[1]);
    let v2 = hex_char_value(s[2]);
    let v3 = hex_char_value(s[3]);
    let v4 = hex_char_value(s[4]);
    let v5 = hex_char_value(s[5]);
    let v6 = hex_char_value(s[6]);
    assert(0 <= v1 < 16 && 0 <= v2 < 16 && 0 <= v3 < 16 && 0 <= v4 < 16 && 0 <= v5 < 16 && 0 <= v6 < 16);
    assert(hex_digit_value(digits[0]) == Some(v1));
    assert(hex_digit_value(digits[1]) == Some(v2));
    assert(hex_digit_value(digits[2]) == Some(v3));
    assert(hex_digit_value(digits[3]) == Some(v4));
    assert(hex_digit_value(digits[4]) == Some(v5));
    assert(hex_digit_value(digits[5]) == Some(v6));
    let e6 = digits;
    let e5 = e6.drop_last();
    let e4 = e5.drop_last();
    let e3 = e4.drop_last();
    let e2 = e3.drop_last();
    let e1 = e2.drop_last();
    assert(e1.drop_last().len() == 0);
    assert(e1.last() == digits[0]);
    assert(e2.last() == digits[1]);
    assert(e3.last() == digits[2]);
    assert(e4.last() == digits[3]);
    assert(e5.last() == digits[4]);
    assert(e6.last() == digits[5]);
    assert(hex_value(e1.drop_last()) == 0);
    assert(hex_value(e1) == v1);
    assert(hex_value(e2) == v1 * 16 + v2);
    assert(hex_value(e3) == (v1 * 16 + v2) * 16 + v3);
    assert(hex_value(e4) == ((v1 * 16 + v2) * 16 + v3) * 16 + v4);
    assert(hex_value(e5) == (((v1 * 16 + v2) * 16 + v3) * 16 + v4) * 16 + v5);
    let value = hex_value(digits);
    assert(value == ((((v1 * 16 + v2) * 16 + v3) * 16 + v4) * 16 + v5) * 16 + v6);
    let c = Color { r: hex_byte(s[1], s[2]), g: hex_byte(s[3], s[4]), b: hex_byte(s[5], s[6]), a: 255 };
    assert(c.r == v1 * 16 + v2);
    assert(c.g == v3 * 16 + v4);
    assert(c.b == v5 * 16 + v6);
    assert(value * 256 + 255 == packed(c));
    lemma_packed_reads_back(c);
    assert(all_hex_digits(digits));
    assert(value <= u32::MAX);
}

/// Every frame of a grid lies inside the rectangle it was cut from, and has the size of a cell.
pub proof fn lemma_grid_frames_inside(rect: [i32; 4], rows: u32, cols: u32, len: Option<u32>, k: int)
    requires
        rows > 0,
        cols > 0,
        rows * cols <= u32::MAX,
        rect[0] <= rect[2],
        rect[1] <= rect[3],
        rect[2] - rect[0] <= i32::MAX,
        rect[3] - rect[1] <= i32::MAX,
        0 <= k < spec_grid_frames(rect, rows, cols, len).len(),
    ensures
        ({
            let f = spec_grid_frames(rect, rows, cols, len)[k];
            &&& rect[0] <= f[0]
            &&& f[0] + f[2] <= rect[2]
            &&& rect[1] <= f[1]
            &&& f[1] + f[3] <= rect[3]
            &&& f[2] == (rect[2] - rect[0]) / (cols as int)
            &&& f[3] == (rect[3] - rect[1]) / (rows as int)
        }),
{
    let c = cols as i32;
    let r = rows as i32;
    assert(cols as i32 > 0 ==> cols as i32 == cols) by (bit_vector);
    assert(rows as i32 > 0 ==> rows as i32 == rows) by (bit_vector);
    let n = spec_grid_frames(rect, rows, cols, len).len();
    assert(c > 0 && r > 0);
    let d = rect[2] - rect[0];
    let e = rect[3] - rect[1];
    let w = div_toward_zero(d, c as int);
    let h = div_toward_zero(e, r as int);
    assert(w == d / (c as int));
    assert(h == e / (r as int));
    let x = k % (c as int);
    let y = k / (c as int);
    assert(0 <= x < c) by (nonlinear_arith)
        requires
            c > 0,
            k >= 0,
            x == k % (c as int),
    ;
    assert(0 <= y < r) by (nonlinear_arith)
        requires
            c > 0,
            r > 0,
            0 <= k < r * c,
            y == k / (c as int),
    ;
    assert(0 <= w * x && w * x + w <= d) by (nonlinear_arith)
        requires
            c > 0,
            d >= 0,
            w == d / (c as int),
            0 <= x < c,
    {
        assert(w * c <= d);
        assert(w * x + w == w * (x + 1));
        assert(w * (x + 1) <= w * c);
    }
    assert(0 <= h * y && h * y + h <= e) by (nonlinear_arith)
        requires
            r > 0,
            e >= 0,
            h == e / (r as int),
            0 <= y < r,
    {
        assert(h * r <= e);
        assert(h * y + h == h * (y + 1));
        assert(h * (y + 1) <= h * r);
    }
    let f = spec_grid_frames(rect, rows, cols, len)[k];
    assert(f == grid_cell(rect[0] as int, rect[1] as int, w, h, c as int, k));
    assert(f[0] == rect[0] + w * x);
    assert(f[1] == rect[1] + h * y);
}

/// The widths of the three columns of a panel's pieces add up to the width of its rectangle,
/// the heights of the three rows to its height; each column starts where the one before it ends,
/// and each row where the one above ends.
pub proof fn lemma_nine_slice_tiles(uv_rect: [i32; 4], border: [i32; 4])
    requires
        nine_slice_fits(uv_rect, border),
    ensures
        ({
            let p = spec_nine_slice(uv_rect, border);
            &&& p[0][2] + p[1][2] + p[2][2] == uv_rect[2]
            &&& p[0][3] + p[3][3] + p[6][3] == uv_rect[3]
            &&& p[1][0] == p[0][0] + p[0][2]
            &&& p[3][1] == p[0][1] + p[0][3]
            &&& p[6][1] == p[3][1] + p[3][3]
            &&& p[2][0] == p[1][0] + p[1][2]
        }),
{
}

/// The nine pieces of a panel form a grid: all the pieces of a row share the top and height of
/// its first piece, all those of a column the left and width of its top piece. The top left
/// piece is at the rectangle's corner with the left and top borders as its size, the right
/// column is as wide as the right border and the bottom row as high as the bottom border; with
/// the tiling of the first row and column, this fixes every piece.
pub proof fn lemma_nine_slice_grid(uv_rect: [i32; 4], border: [i32; 4], i: int)
    requires
        nine_slice_fits(uv_rect, border),
        0 <= i < 9,
    ensures
        ({
            let p = spec_nine_slice(uv_rect, border);
            &&& p.len() == 9
            &&& p[i][0] == p[i % 3][0]
            &&& p[i][2] == p[i % 3][2]
            &&& p[i][1] == p[3 * (i / 3)][1]
            &&& p[i][3] == p[3 * (i / 3)][3]
            &&& p[0][0] == uv_rect[0]
            &&& p[0][1] == uv_rect[1]
            &&& p[0][2] == border[0]
            &&& p[0][3] == border[1]
            &&& p[2][2] == border[2]
            &&& p[6][3] == border[3]
        }),
{
    let p = spec_nine_slice(uv_rect, border);
    assert((3 * (i / 3)) / 3 == i / 3 && (3 * (i / 3)) % 3 == 0 && (i % 3) / 3 == 0 && (i % 3) % 3 == i % 3)
        by (nonlinear_arith)
        requires
            0 <= i < 9,
    ;
}

} // verus!
