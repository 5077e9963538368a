use vstd::prelude::*;

verus! {

/// An RGBA color, 8 bits per channel.
#[derive(Clone, Copy, Debug, PartialEq, Eq, Structural, Hash)]
pub struct Color {
    pub r: u8,
    pub g: u8,
    pub b: u8,
    pub a: u8,
}

/// One channel of `src` laid with opacity `a` over the channel `dst`.
pub open spec fn blend_channel(src: u8, dst: u8, a: u8) -> int {
    (src as int * a as int + dst as int * (255 - a as int)) / 255
}

/// `src` laid over `dst` by the opacity of `src`.
pub open spec fn blend_spec(src: Color, dst: Color) -> Color {
    Color {
        r: blend_channel(src.r, dst.r, src.a) as u8,
        g: blend_channel(src.g, dst.g, src.a) as u8,
        b: blend_channel(src.b, dst.b, src.a) as u8,
        a: blend_channel(255, dst.a, src.a) as u8,
    }
}

impl Color {
    pub fn rgba(r: u8, g: u8, b: u8, a: u8) -> (c: Color)
        ensures
            c == (Color { r, g, b, a }),
    {
        Color { r, g, b, a }
    }

    pub fn as_rgba(&self) -> (t: (u8, u8, u8, u8))
        ensures
            t == (self.r, self.g, self.b, self.a),
    {
        (self.r, self.g, self.b, self.a)
    }

    pub open spec fn invert_spec(&self) -> Color {
        Color { r: (255 - self.r) as u8, g: (255 - self.g) as u8, b: (255 - self.b) as u8, a: self.a }
    }

    /// The color with each of its three color channels inverted; alpha is kept.
    pub fn invert(&self) -> (c: Color)
        ensures
            c == self.invert_spec(),
    {
        Color { r: 255 - self.r, g: 255 - self.g, b: 255 - self.b, a: self.a }
    }
}

fn blend_u8(src: u8, dst: u8, a: u8) -> (r: u8)
    ensures
        r as int == blend_channel(src, dst, a),
{
    let s = src as u32;
    let d = dst as u32;
    let al = a as u32;
    assert(s * al + d * (255 - al) <= 255 * 255) by (nonlinear_arith)
        requires s <= 255, al <= 255, d <= 255;
    ((s * al + d * (255 - al)) / 255) as u8
}

/// Alpha compositing of `src` over `dst`: each color channel is weighted by the
/// opacity of `src`; the result is as opaque as `dst` made more opaque by `src`.
pub fn blend_colors(src: Color, dst: Color) -> (c: Color)
    ensures
        c == blend_spec(src, dst),
        c.r as int == blend_channel(src.r, dst.r, src.a),
        c.g as int == blend_channel(src.g, dst.g, src.a),
        c.b as int == blend_channel(src.b, dst.b, src.a),
        c.a as int == blend_channel(255, dst.a, src.a),
{
    Color {
        r: blend_u8(src.r, dst.r, src.a),
        g: blend_u8(src.g, dst.g, src.a),
        b: blend_u8(src.b, dst.b, src.a),
        a: blend_u8(255, dst.a, src.a),
    }
}

} // verus!
