use vstd::prelude::*;

use crate::color::{blend_colors, blend_spec, Color};
use crate::font::Font;
use crate::framebuffer::{in_bounds, Framebuffer};
use crate::geometry::Rect;
use crate::layout::TextJustification;
use crate::rich_text::RichChar;

verus! {

/// The color a glyph pixel of coverage `v` in `color` gives over `cur`.
pub open spec fn shade(cur: Color, color: Color, v: u8, blend: bool) -> Color {
    let txt = Color { r: color.r, g: color.g, b: color.b, a: v };
    if blend {
        blend_spec(txt, cur)
    } else {
        txt
    }
}

/// The color of a pixel lying at (dx, dy) from the top-left corner of the cell
/// of glyph `c`, over `cur`: pixels of the glyph with a coverage above zero are
/// painted, every other pixel keeps its color.
pub open spec fn glyph_pixel(cur: Color, font: &Font, c: char, dx: int, dy: int, color: Color, blend: bool) -> Color {
    if 0 <= dx < font.char_w && 0 <= dy < font.char_h && font.coverage_spec(c, dx as nat, dy as nat) > 0 {
        shade(cur, color, font.coverage_spec(c, dx as nat, dy as nat), blend)
    } else {
        cur
    }
}

/// The color of pixel (px, py) over `cur` once the characters of `s` are drawn
/// side by side from (x0, y0), one cell each, blended.
pub open spec fn str_pixel(cur: Color, font: &Font, s: Seq<char>, x0: int, y0: int, color: Color, px: int, py: int) -> Color
    decreases s.len(),
{
    if s.len() == 0 {
        cur
    } else {
        let n = s.len() - 1;
        glyph_pixel(
            str_pixel(cur, font, s.drop_last(), x0, y0, color, px, py),
            font,
            s.last(),
            px - (x0 + n * font.char_w),
            py - y0,
            color,
            true,
        )
    }
}

/// Sum of the cell widths of the characters' fonts.
pub open spec fn cells_width(s: Seq<RichChar>) -> int
    decreases s.len(),
{
    if s.len() == 0 {
        0
    } else {
        cells_width(s.drop_last()) + s.last().font.char_w
    }
}

/// Largest baseline offset among the characters' fonts; zero for none.
pub open spec fn max_base(s: Seq<RichChar>) -> int
    decreases s.len(),
{
    if s.len() == 0 {
        0
    } else if s.last().font.base_y > max_base(s.drop_last()) {
        s.last().font.base_y as int
    } else {
        max_base(s.drop_last())
    }
}

/// The color of pixel (px, py) over `cur` once the styled characters `s` are
/// drawn side by side from (x0, y0), each lowered so that the baselines align
/// at `base` below `y0`.
pub open spec fn rich_pixel(cur: Color, s: Seq<RichChar>, x0: int, y0: int, base: int, px: int, py: int) -> Color
    decreases s.len(),
{
    if s.len() == 0 {
        cur
    } else {
        let rc = s.last();
        glyph_pixel(
            rich_pixel(cur, s.drop_last(), x0, y0, base, px, py),
            rc.font,
            rc.c,
            px - (x0 + cells_width(s.drop_last())),
            py - (y0 + base - rc.font.base_y),
            rc.color,
            true,
        )
    }
}

/// The color of a pixel over `cur` once `rect` is filled with `color`.
pub open spec fn rect_pixel(cur: Color, rect: Rect, color: Color, blend: bool, px: int, py: int) -> Color {
    if rect.contains_spec(px, py) {
        if blend {
            blend_spec(color, cur)
        } else {
            color
        }
    } else {
        cur
    }
}

/// Fills `rect` with `color`, laid over the pixels when `blend` is set; the
/// part of `rect` outside the buffer is ignored.
pub fn draw_rect(fb: &mut Framebuffer, rect: &Rect, color: Color, blend: bool)
    requires
        old(fb).wf(),
    ensures
        final(fb).wf(),
        final(fb).w == old(fb).w && final(fb).h == old(fb).h,
        forall|px: int, py: int| in_bounds(final(fb).w, final(fb).h, px, py) ==> #[trigger] final(fb).pixel(px, py)
            == rect_pixel(old(fb).pixel(px, py), *rect, color, blend, px, py),
{
    let ghost old_fb = *fb;
    let mut dy: u32 = 0;
    while dy < rect.h
        invariant
            fb.wf(),
            fb.w == old_fb.w && fb.h == old_fb.h,
            dy <= rect.h,
            forall|px: int, py: int| in_bounds(fb.w, fb.h, px, py) ==> #[trigger] fb.pixel(px, py) == if py < rect.y0 + dy {
                rect_pixel(old_fb.pixel(px, py), *rect, color, blend, px, py)
            } else {
                old_fb.pixel(px, py)
            },
        decreases rect.h - dy,
    {
        let py = rect.y0 as i128 + dy as i128;
        let mut dx: u32 = 0;
        while dx < rect.w
            invariant
                fb.wf(),
                fb.w == old_fb.w && fb.h == old_fb.h,
                dx <= rect.w,
                dy < rect.h,
                py == rect.y0 + dy,
                forall|px: int, qy: int| in_bounds(fb.w, fb.h, px, qy) ==> #[trigger] fb.pixel(px, qy) == if qy < py || (qy == py && px < rect.x0 + dx) {
                    rect_pixel(old_fb.pixel(px, qy), *rect, color, blend, px, qy)
                } else {
                    old_fb.pixel(px, qy)
                },
            decreases rect.w - dx,
        {
            let px = rect.x0 as i128 + dx as i128;
            if 0 <= px && px < fb.w as i128 && 0 <= py && py < fb.h as i128 {
                let cur = fb.get_pixel(px as i64, py as i64).unwrap();
                let new_color = if blend {
                    blend_colors(color, cur)
                } else {
                    color
                };
                fb.set_pixel(px as i64, py as i64, new_color);
            }
            dx = dx + 1;
        }
        dy = dy + 1;
    }
}

/// Draws the glyph of `c` with its cell's top-left corner at (x0, y0): every
/// glyph pixel with a coverage above zero takes `color` at that coverage as
/// opacity, laid over the pixel when `blend` is set. Characters outside
/// printable ASCII are drawn as a space; the part of the cell outside the
/// buffer is ignored.
pub fn draw_char(fb: &mut Framebuffer, c: char, x0: i64, y0: i64, font: &Font, color: Color, blend: bool)
    requires
        old(fb).wf(),
        font.wf(),
    ensures
        final(fb).wf(),
        final(fb).w == old(fb).w && final(fb).h == old(fb).h,
        forall|px: int, py: int| in_bounds(final(fb).w, final(fb).h, px, py) ==> #[trigger] final(fb).pixel(px, py)
            == glyph_pixel(old(fb).pixel(px, py), font, c, px - x0, py - y0, color, blend),
{
    let ghost old_fb = *fb;
    let (r, g, b, _a) = color.as_rgba();
    let mut dx: u32 = 0;
    while dx < font.char_w
        invariant
            fb.wf(),
            font.wf(),
            fb.w == old_fb.w && fb.h == old_fb.h,
            dx <= font.char_w,
            (r, g, b) == (color.r, color.g, color.b),
            forall|px: int, py: int| in_bounds(fb.w, fb.h, px, py) ==> #[trigger] fb.pixel(px, py) == if px - x0 < dx {
                glyph_pixel(old_fb.pixel(px, py), font, c, px - x0, py - y0, color, blend)
            } else {
                old_fb.pixel(px, py)
            },
        decreases font.char_w - dx,
    {
        let px = x0 as i128 + dx as i128;
        let mut dy: u32 = 0;
        while dy < font.char_h
            invariant
                fb.wf(),
                font.wf(),
                fb.w == old_fb.w && fb.h == old_fb.h,
                dx < font.char_w,
                dy <= font.char_h,
                px == x0 + dx,
                (r, g, b) == (color.r, color.g, color.b),
                forall|qx: int, py: int| in_bounds(fb.w, fb.h, qx, py) ==> #[trigger] fb.pixel(qx, py) == if qx < px || (qx == px && py - y0 < dy) {
                    glyph_pixel(old_fb.pixel(qx, py), font, c, qx - x0, py - y0, color, blend)
                } else {
                    old_fb.pixel(qx, py)
                },
            decreases font.char_h - dy,
        {
            let py = y0 as i128 + dy as i128;
            let v = font.coverage(c, dx, dy);
            if v > 0 && 0 <= px && px < fb.w as i128 && 0 <= py && py < fb.h as i128 {
                let cur = fb.get_pixel(px as i64, py as i64).unwrap();
                let txt_color = Color::rgba(r, g, b, v);
                let new_color = if blend {
                    blend_colors(txt_color, cur)
                } else {
                    txt_color
                };
                fb.set_pixel(px as i64, py as i64, new_color);
            }
            dy = dy + 1;
        }
        dx = dx + 1;
    }
}

/// Draws the characters of `s` side by side from (x0, y0), one cell each,
/// over a background rectangle of `bg_color` when one is given.
pub fn draw_str(fb: &mut Framebuffer, s: &str, x0: i64, y0: i64, font: &Font, color: Color, bg_color: Option<Color>)
    requires
        old(fb).wf(),
        font.wf(),
        x0 + s@.len() * font.char_w <= i64::MAX,
        s@.len() * font.char_w <= u32::MAX,
    ensures
        final(fb).wf(),
        final(fb).w == old(fb).w && final(fb).h == old(fb).h,
        forall|px: int, py: int| in_bounds(final(fb).w, final(fb).h, px, py) ==> #[trigger] final(fb).pixel(px, py)
            == str_pixel(
            match bg_color {
                Some(bg) => rect_pixel(
                    old(fb).pixel(px, py),
                    Rect { x0, y0, w: (s@.len() * font.char_w) as u32, h: font.char_h },
                    bg,
                    true,
                    px,
                    py,
                ),
                None => old(fb).pixel(px, py),
            },
            font,
            s@,
            x0 as int,
            y0 as int,
            color,
            px,
            py,
        ),
{
    let n = s.unicode_len();
    let ghost old_fb = *fb;
    if let Some(bg) = bg_color {
        let text_w = (n as u64 * font.char_w as u64) as u32;
        let rect = Rect { x0, y0, w: text_w, h: font.char_h };
        draw_rect(fb, &rect, bg, true);
    }
    let ghost base_fb = *fb;
    let mut x: i64 = x0;
    let mut i: usize = 0;
    while i < n
        invariant
            fb.wf(),
            font.wf(),
            n == s@.len(),
            i <= n,
            fb.w == base_fb.w && fb.h == base_fb.h,
            x == x0 + i * font.char_w,
            x0 + n * font.char_w <= i64::MAX,
            forall|px: int, py: int| in_bounds(fb.w, fb.h, px, py) ==> #[trigger] fb.pixel(px, py) == str_pixel(
                base_fb.pixel(px, py),
                font,
                s@.subrange(0, i as int),
                x0 as int,
                y0 as int,
                color,
                px,
                py,
            ),
        decreases n - i,
    {
        let c = s.get_char(i);
        let ghost before = *fb;
        draw_char(fb, c, x, y0, font, color, true);
        proof {
            assert(s@.subrange(0, i + 1).drop_last() =~= s@.subrange(0, i as int));
            assert((i + 1) * font.char_w <= n * font.char_w) by (nonlinear_arith)
                requires i + 1 <= n;
            assert((i + 1) * font.char_w == i * font.char_w + font.char_w) by (nonlinear_arith);
        }
        x = x + font.char_w as i64;
        i = i + 1;
    }
    assert(s@.subrange(0, n as int) =~= s@);
}

/// Draws the styled characters side by side from (x0, y0), each in its own
/// font and color, lowered so that all baselines align.
pub fn draw_rich_slice(fb: &mut Framebuffer, rich_slice: &[RichChar], x0: i64, y0: i64)
    requires
        old(fb).wf(),
        forall|i: int| 0 <= i < rich_slice@.len() ==> (#[trigger] rich_slice@[i]).font.wf(),
        x0 + cells_width(rich_slice@) <= i64::MAX,
        y0 + max_base(rich_slice@) <= i64::MAX,
    ensures
        final(fb).wf(),
        final(fb).w == old(fb).w && final(fb).h == old(fb).h,
        forall|px: int, py: int| in_bounds(final(fb).w, final(fb).h, px, py) ==> #[trigger] final(fb).pixel(px, py)
            == rich_pixel(old(fb).pixel(px, py), rich_slice@, x0 as int, y0 as int, max_base(rich_slice@), px, py),
{
    let ghost s = rich_slice@;
    let n = rich_slice.len();
    let mut base: u32 = 0;
    let mut i: usize = 0;
    while i < n
        invariant
            n == s.len(),
            s == rich_slice@,
            i <= n,
            base == max_base(s.subrange(0, i as int)),
        decreases n - i,
    {
        assert(s.subrange(0, i + 1).drop_last() =~= s.subrange(0, i as int));
        if rich_slice[i].font.base_y > base {
            base = rich_slice[i].font.base_y;
        }
        i = i + 1;
    }
    assert(s.subrange(0, n as int) =~= s);
    let ghost old_fb = *fb;
    proof {
        lemma_cells_prefix(s, 0);
    }
    let mut x: i64 = x0;
    let mut i: usize = 0;
    while i < n
        invariant
            fb.wf(),
            n == s.len(),
            s == rich_slice@,
            i <= n,
            forall|k: int| 0 <= k < s.len() ==> (#[trigger] s[k]).font.wf(),
            base == max_base(s),
            fb.w == old_fb.w && fb.h == old_fb.h,
            x == x0 + cells_width(s.subrange(0, i as int)),
            x0 + cells_width(s) <= i64::MAX,
            y0 + max_base(s) <= i64::MAX,
            forall|px: int, py: int| in_bounds(fb.w, fb.h, px, py) ==> #[trigger] fb.pixel(px, py) == rich_pixel(
                old_fb.pixel(px, py),
                s.subrange(0, i as int),
                x0 as int,
                y0 as int,
                base as int,
                px,
                py,
            ),
        decreases n - i,
    {
        let rc = rich_slice[i];
        proof {
            lemma_max_base(s, i as int);
            lemma_cells_prefix(s, i + 1);
            assert(s.subrange(0, i + 1).drop_last() =~= s.subrange(0, i as int));
        }
        let dy = (base - rc.font.base_y) as i64;
        draw_char(fb, rc.c, x, y0 + dy, rc.font, rc.color, true);
        x = x + rc.font.char_w as i64;
        i = i + 1;
    }
    assert(s.subrange(0, n as int) =~= s);
}

/// Sum of the cell widths and largest baseline offset of the characters.
pub(crate) fn line_extent(chars: &Vec<RichChar>) -> (r: (u128, u32))
    ensures
        r.0 == cells_width(chars@),
        r.1 == max_base(chars@),
        r.0 <= 0xffff_ffff_ffff_ffffu128 * 0xffff_ffffu128,
{
    let m = chars.len();
    let mut cells: u128 = 0;
    let mut base: u32 = 0;
    let mut i: usize = 0;
    while i < m
        invariant
            m == chars@.len(),
            i <= m,
            cells == cells_width(chars@.subrange(0, i as int)),
            base == max_base(chars@.subrange(0, i as int)),
            cells <= i * 0xffff_ffffu128,
        decreases m - i,
    {
        assert(chars@.subrange(0, i + 1).drop_last() =~= chars@.subrange(0, i as int));
        cells = cells + chars[i].font.char_w as u128;
        if chars[i].font.base_y > base {
            base = chars[i].font.base_y;
        }
        i = i + 1;
    }
    assert(chars@.subrange(0, m as int) =~= chars@);
    (cells, base)
}

proof fn lemma_cells_prefix(s: Seq<RichChar>, j: int)
    requires
        0 <= j <= s.len(),
    ensures
        0 <= cells_width(s.subrange(0, j)) <= cells_width(s),
    decreases s.len() - j,
{
    if j < s.len() {
        lemma_cells_prefix(s, j + 1);
        assert(s.subrange(0, j + 1).drop_last() =~= s.subrange(0, j));
    } else {
        assert(s.subrange(0, j) =~= s);
    }
    lemma_cells_nonneg(s.subrange(0, j));
}

pub(crate) proof fn lemma_cells_nonneg(s: Seq<RichChar>)
    ensures
        cells_width(s) >= 0,
    decreases s.len(),
{
    if s.len() > 0 {
        lemma_cells_nonneg(s.drop_last());
    }
}

proof fn lemma_max_base(s: Seq<RichChar>, j: int)
    requires
        0 <= j < s.len(),
    ensures
        0 <= s[j].font.base_y <= max_base(s),
    decreases s.len(),
{
    if j < s.len() - 1 {
        lemma_max_base(s.drop_last(), j);
    }
}

/// Vertical padding of a line of text in `rect`: half of the room left.
pub open spec fn line_pad_y(rect: Rect, font: &Font) -> int {
    if rect.h >= font.char_h {
        (rect.h - font.char_h) / 2
    } else {
        0
    }
}

/// Left edge of a line of `n` characters placed in `rect` by `justif`: the
/// left and right margins equal the vertical padding plus the room below the
/// baseline; a centered line is centered on the rectangle's center.
pub open spec fn line_x0(rect: Rect, font: &Font, n: nat, justif: TextJustification) -> int {
    let text_w = n * font.char_w;
    let pad_x = line_pad_y(rect, font) + (font.char_h - font.base_y);
    match justif {
        TextJustification::Left => rect.x0 + pad_x,
        TextJustification::Center => rect.x0 + rect.w / 2 - text_w / 2,
        TextJustification::Right => rect.x0 + rect.w - text_w - pad_x,
    }
}

/// Draws `s` on one line inside `rect`, vertically centered and placed
/// horizontally by `justif`; returns the left and right edges of the text.
pub fn draw_line_in_rect(
    fb: &mut Framebuffer,
    s: &str,
    rect: &Rect,
    font: &Font,
    color: Color,
    justif: TextJustification,
) -> (r: (i64, i64))
    requires
        old(fb).wf(),
        font.wf(),
        s@.len() * font.char_w <= u32::MAX,
        i64::MIN <= line_x0(*rect, font, s@.len(), justif),
        line_x0(*rect, font, s@.len(), justif) + s@.len() * font.char_w <= i64::MAX,
        rect.x0 + rect.w <= i64::MAX,
        rect.y0 + rect.h <= i64::MAX,
    ensures
        r.0 == line_x0(*rect, font, s@.len(), justif),
        r.1 == line_x0(*rect, font, s@.len(), justif) + s@.len() * font.char_w,
        final(fb).wf(),
        final(fb).w == old(fb).w && final(fb).h == old(fb).h,
        forall|px: int, py: int| in_bounds(final(fb).w, final(fb).h, px, py) ==> #[trigger] final(fb).pixel(px, py)
            == str_pixel(old(fb).pixel(px, py), font, s@, r.0 as int, rect.y0 + line_pad_y(*rect, font), color, px, py),
{
    let n = s.unicode_len();
    let text_h = font.char_h as i128;
    let text_w = n as i128 * font.char_w as i128;
    let (xc, _yc) = rect.center();
    let pad_y: i128 = if rect.h as i128 > text_h {
        (rect.h as i128 - text_h) / 2
    } else {
        0
    };
    let pad_x = pad_y + (font.char_h - font.base_y) as i128;
    let text_x0 = match justif {
        TextJustification::Left => rect.x0 as i128 + pad_x,
        TextJustification::Center => xc as i128 - text_w / 2,
        TextJustification::Right => rect.x0 as i128 + rect.w as i128 - text_w - pad_x,
    };
    let text_y0 = rect.y0 as i128 + pad_y;
    draw_str(fb, s, text_x0 as i64, text_y0 as i64, font, color, None);
    (text_x0 as i64, (text_x0 + text_w) as i64)
}

/// Size in pixels of `s` set in `font` on one line.
pub fn compute_text_bbox(s: &str, font: &Font) -> (r: (u32, u32))
    requires
        s@.len() * font.char_w <= u32::MAX,
    ensures
        r == ((s@.len() * font.char_w) as u32, font.char_h),
{
    let n = s.unicode_len();
    assert(n as u64 * font.char_w as u64 <= u32::MAX);
    let w = (n as u64 * font.char_w as u64) as u32;
    (w, font.char_h)
}

} // verus!
