use vstd::prelude::*;

use crate::canvas::{clamp_scroll, clamp_spec, dynamic_canvas};
use crate::color::Color;
use crate::draw::{cells_width, draw_rect, draw_rich_slice, line_extent, max_base, rect_pixel, rich_pixel};
use crate::framebuffer::{in_bounds, Framebuffer};
use crate::geometry::Rect;
use crate::hash::{compute_hash_words, hash_words};
use crate::layout::{
    bounds_height, format_rich_lines_checked, lemma_wrap_chars, line_bounds, lines_chars, lines_count,
    lines_height, lines_height_bound, FormattedRichLine, FormattedRichText, TextJustification,
};
use crate::rich_text::{RichChar, RichText};
use crate::tile_cache::TileCache;

verus! {

/// Seconds between two blinks of the cursor.
pub const CURSOR_BLINK_PERIOD: u64 = 1;

/// Width in pixels of the text cursor.
pub const CURSOR_W: u32 = 2;

/// Narrowest tile of a text box.
pub const MIN_TILE_W: u32 = 200;

/// Height of the tiles of a text box.
pub const TILE_H: u32 = 200;

/// What a text box keeps from one frame to the next.
pub struct TextBoxState {
    pub content_id: Option<u64>,
    pub scroll_offsets: (i64, i64),
    pub scroll_dragging: (bool, bool),
    pub cursor: usize,
    pub justif: TextJustification,
    pub cursor_visible: bool,
    pub last_blink_t: u64,
}

impl TextBoxState {
    pub fn new() -> (s: TextBoxState)
        ensures
            s.content_id is None,
            s.scroll_offsets == (0i64, 0i64),
            s.scroll_dragging == (false, false),
            s.cursor == 0,
            s.justif == TextJustification::Left,
            s.cursor_visible,
            s.last_blink_t == 0,
    {
        TextBoxState {
            content_id: None,
            scroll_offsets: (0, 0),
            scroll_dragging: (false, false),
            cursor: 0,
            justif: TextJustification::Left,
            cursor_visible: true,
            last_blink_t: 0,
        }
    }
}

/// Index under the pointer in the text shown in `dst_rect`, if the pointer is
/// over the box and over a character.
pub open spec fn pointed_index(formatted: &FormattedRichText, dst_rect: Rect, offsets: (i64, i64), pointer: (i64, i64)) -> Option<int> {
    if dst_rect.contains_spec(pointer.0 as int, pointer.1 as int) {
        formatted.xy_to_index_spec(
            pointer.0 - dst_rect.x0 + offsets.0,
            pointer.1 - dst_rect.y0 + offsets.1,
        )
    } else {
        None
    }
}

/// Cursor position, past the prelude, of a pointed index that is not in the prelude.
pub open spec fn click_target(hit: Option<int>, prelude_len: usize) -> Option<int> {
    match hit {
        Some(i) => if i >= prelude_len { Some(i - prelude_len) } else { None },
        None => None,
    }
}

/// The cursor's blink state after a frame at second `t`.
pub open spec fn blink_ok(old: TextBoxState, new: TextBoxState, enabled: bool, changed: bool, t: u64) -> bool {
    if !enabled {
        !new.cursor_visible && new.last_blink_t == old.last_blink_t
    } else if changed {
        new.cursor_visible && new.last_blink_t == t
    } else if t > old.last_blink_t + CURSOR_BLINK_PERIOD {
        new.cursor_visible == !old.cursor_visible && new.last_blink_t == t
    } else {
        new.cursor_visible == old.cursor_visible && new.last_blink_t == old.last_blink_t
    }
}

/// One frame of a text box's decisions.
///
/// A click on a character of the text (not of its prelude, the first
/// `prelude_len` characters) moves the cursor there; hovering one without
/// clicking returns it as the shadow cursor. A disabled cursor is hidden; a
/// moved cursor shows at once; otherwise the cursor blinks once the blink
/// period has passed. With `autoscroll`, a text that changed scrolls to its
/// end (its last `dst_rect.h` pixels in view, or its top when it fits) and its
/// identity is remembered.
pub fn text_box_update(
    state: &mut TextBoxState,
    formatted: &FormattedRichText,
    formatted_id: u64,
    dst_rect: &Rect,
    pointer: (i64, i64),
    left_click: bool,
    time_ms: u64,
    cursor_changed: bool,
    cursor_enabled: bool,
    autoscroll: bool,
    prelude_len: usize,
) -> (shadow: Option<usize>)
    requires
        formatted.wf(),
    ensures
        final(state).cursor == match click_target(pointed_index(formatted, *dst_rect, old(state).scroll_offsets, pointer), prelude_len) {
            Some(c) => if left_click { c as usize } else { old(state).cursor },
            None => old(state).cursor,
        },
        shadow == match click_target(pointed_index(formatted, *dst_rect, old(state).scroll_offsets, pointer), prelude_len) {
            Some(c) => if left_click { None } else { Some(c as usize) },
            None => None,
        },
        blink_ok(
            *old(state),
            *final(state),
            cursor_enabled,
            cursor_changed || (left_click && click_target(
                pointed_index(formatted, *dst_rect, old(state).scroll_offsets, pointer),
                prelude_len,
            ) is Some),
            time_ms / 1000,
        ),
        if autoscroll && old(state).content_id != Some(formatted_id) {
            final(state).scroll_offsets == (
                old(state).scroll_offsets.0,
                clamp_spec(formatted.h - dst_rect.h, formatted.h as int, dst_rect.h as int) as i64,
            )
                && final(state).content_id == Some(formatted_id)
        } else {
            final(state).scroll_offsets == old(state).scroll_offsets && final(state).content_id
                == old(state).content_id
        },
        final(state).scroll_dragging == old(state).scroll_dragging,
        final(state).justif == old(state).justif,
{
    let time_sec = time_ms / 1000;
    let mut changed = cursor_changed;
    let mut shadow: Option<usize> = None;
    if dst_rect.check_contains_point(pointer.0, pointer.1) {
        let (ox, oy) = state.scroll_offsets;
        let xt = pointer.0 as i128 - dst_rect.x0 as i128 + ox as i128;
        let yt = pointer.1 as i128 - dst_rect.y0 as i128 + oy as i128;
        // Points beyond the 64-bit range lie outside any layout.
        if i64::MIN as i128 <= xt && xt <= i64::MAX as i128 && i64::MIN as i128 <= yt && yt <= i64::MAX as i128 {
            match formatted.xy_to_index((xt as i64, yt as i64)) {
                Some(index) => {
                    if index >= prelude_len {
                        if left_click {
                            state.cursor = index - prelude_len;
                            changed = true;
                        } else {
                            shadow = Some(index - prelude_len);
                        }
                    }
                },
                None => {},
            }
        } else {
            assert(xt < 0 || xt >= formatted.w || yt < 0 || yt >= formatted.h);
        }
    }
    if !cursor_enabled {
        state.cursor_visible = false;
    } else if changed {
        state.last_blink_t = time_sec;
        state.cursor_visible = true;
    } else if time_sec as u128 > state.last_blink_t as u128 + CURSOR_BLINK_PERIOD as u128 {
        state.last_blink_t = time_sec;
        state.cursor_visible = !state.cursor_visible;
    }
    if autoscroll {
        let same = match state.content_id {
            Some(id) => id == formatted_id,
            None => false,
        };
        if !same {
            state.scroll_offsets.1 = clamp_scroll(formatted.h as i64 - dst_rect.h as i64, formatted.h, dst_rect.h);
            state.content_id = Some(formatted_id);
        }
    }
    shadow
}

/// A laid-out text seen as a scrollable content of tiles, with its cursors.
pub struct TextRenderer {
    pub formatted: FormattedRichText,
    pub formatted_id: u64,
    pub bg_color: Color,
    pub cursor: usize,
    pub shadow_cursor: Option<usize>,
    pub prelude_len: usize,
    pub cursor_visible: bool,
}

/// Line `l`, whose top is `y` pixels below the text's, is drawn into the tile:
/// it meets the tile and its glyph cells stay within 64 bits.
pub open spec fn line_drawn(l: FormattedRichLine, y: int, tile: Rect) -> bool {
    &&& y <= i64::MAX
    &&& (Rect { x0: l.x_offset as i64, y0: y as i64, w: l.w, h: l.h }).overlaps_spec(&tile)
    &&& l.x_offset + cells_width(l.chars@) <= i64::MAX
    &&& i64::MIN <= y - tile.y0
    &&& y - tile.y0 + max_base(l.chars@) <= i64::MAX
}

/// The color of pixel (px, py) of a tile over `cur` once the lines that meet
/// the tile are drawn, each at its offset and below the lines before it.
pub open spec fn tile_text_pixel(cur: Color, lines: Seq<FormattedRichLine>, tile: Rect, px: int, py: int) -> Color
    decreases lines.len(),
{
    if lines.len() == 0 {
        cur
    } else {
        let l = lines.last();
        let y = lines_height(lines.drop_last()) as int;
        let prev = tile_text_pixel(cur, lines.drop_last(), tile, px, py);
        if line_drawn(l, y, tile) {
            rich_pixel(prev, l.chars@, l.x_offset as int, y - tile.y0, max_base(l.chars@), px, py)
        } else {
            prev
        }
    }
}

/// The color of pixel (px, py) of a tile over `cur` once the cursor before
/// character `prelude_len + cursor` is drawn: a `CURSOR_W`-wide box in the
/// inverse of the background, at the cursor's place less the tile's origin.
pub open spec fn cursor_pixel(cur: Color, r: TextRenderer, cursor: usize, tile: Rect, px: int, py: int) -> Color {
    let index = r.prelude_len + cursor;
    if index <= lines_count(r.formatted.lines@) {
        let p = r.formatted.index_to_xy_spec(index);
        let cx = p.0 - tile.x0;
        let cy = p.1 - tile.y0;
        if i64::MIN <= cx <= i64::MAX && i64::MIN <= cy <= i64::MAX {
            rect_pixel(
                cur,
                Rect { x0: cx as i64, y0: cy as i64, w: CURSOR_W, h: p.2 as u32 },
                r.bg_color.invert_spec(),
                false,
                px,
                py,
            )
        } else {
            cur
        }
    } else {
        cur
    }
}

/// The color of pixel (px, py) of the tile `tile` of a text box: the
/// background, and on a tile at the left edge the lines, then the cursor when
/// visible, then the shadow cursor.
pub open spec fn render_pixel(r: TextRenderer, tile: Rect, px: int, py: int) -> Color {
    if tile.x0 != 0 {
        r.bg_color
    } else {
        let t = tile_text_pixel(r.bg_color, r.formatted.lines@, tile, px, py);
        let c = if r.cursor_visible { cursor_pixel(t, r, r.cursor, tile, px, py) } else { t };
        match r.shadow_cursor {
            Some(s) => cursor_pixel(c, r, s, tile, px, py),
            None => c,
        }
    }
}

/// `a + b`, or the largest `u32` when that does not fit.
pub open spec fn sat_add(a: u32, b: u32) -> u32 {
    if a as int + b as int > u32::MAX {
        u32::MAX
    } else {
        (a + b) as u32
    }
}

impl TextRenderer {
    /// Height of the cursor below the last line: that of the last character.
    pub open spec fn cursor_h_spec(&self) -> u32 {
        let lines = self.formatted.lines@;
        if lines.len() > 0 && lines.last().chars@.len() > 0 {
            lines.last().chars@.last().font.char_h
        } else {
            0
        }
    }

    /// The content's size: the text's, and room for the cursor at its right.
    pub fn shape(&self) -> (r: (u32, u32))
        ensures
            r == (sat_add(self.formatted.w, CURSOR_W), self.formatted.h),
    {
        let w = if self.formatted.w > u32::MAX - CURSOR_W {
            u32::MAX
        } else {
            self.formatted.w + CURSOR_W
        };
        (w, self.formatted.h)
    }

    /// Tiles are horizontal bands as wide as the content, at least `MIN_TILE_W`.
    pub fn tile_shape(&self) -> (r: (u32, u32))
        ensures
            r == (
                if sat_add(self.formatted.w, CURSOR_W) > MIN_TILE_W {
                    sat_add(self.formatted.w, CURSOR_W)
                } else {
                    MIN_TILE_W
                },
                TILE_H,
            ),
    {
        let (w, _) = self.shape();
        (if w > MIN_TILE_W { w } else { MIN_TILE_W }, TILE_H)
    }

    fn cursor_h(&self) -> (h: u32)
        ensures
            h == self.cursor_h_spec(),
    {
        let n = self.formatted.lines.len();
        if n > 0 {
            let last = &self.formatted.lines[n - 1];
            let m = last.chars.len();
            if m > 0 {
                return last.chars[m - 1].font.char_h;
            }
        }
        0
    }

    /// Identity of the pixels of `tile_rect`: a tile beside the text depends
    /// on its size and the background alone; one over the text also on its
    /// place, the text, the cursors and the background.
    pub fn content_id(&self, tile_rect: &Rect) -> (r: u64)
        ensures
            r == if !tile_rect.overlaps_spec(
                &Rect { x0: 0, y0: 0, w: self.formatted.w, h: sat_add(self.formatted.h, self.cursor_h_spec()) },
            ) {
                hash_words(
                    seq![
                        tile_rect.w as u64,
                        tile_rect.h as u64,
                        self.bg_color.r as u64,
                        self.bg_color.g as u64,
                        self.bg_color.b as u64,
                        self.bg_color.a as u64,
                    ],
                )
            } else {
                hash_words(
                    seq![
                        tile_rect.x0 as u64,
                        tile_rect.y0 as u64,
                        tile_rect.w as u64,
                        tile_rect.h as u64,
                        self.formatted_id,
                        self.cursor as u64,
                        if self.cursor_visible { 1u64 } else { 0u64 },
                        if self.shadow_cursor is Some { 1u64 } else { 0u64 },
                        match self.shadow_cursor { Some(c) => c as u64, None => 0u64 },
                        self.bg_color.r as u64,
                        self.bg_color.g as u64,
                        self.bg_color.b as u64,
                        self.bg_color.a as u64,
                    ],
                )
            },
    {
        let ch = self.cursor_h();
        let h = if self.formatted.h > u32::MAX - ch {
            u32::MAX
        } else {
            self.formatted.h + ch
        };
        let text_rect = Rect { x0: 0, y0: 0, w: self.formatted.w, h };
        let bg = self.bg_color;
        if tile_rect.intersection(&text_rect).is_none() {
            let words = [tile_rect.w as u64, tile_rect.h as u64, bg.r as u64, bg.g as u64, bg.b as u64, bg.a as u64];
            let r = compute_hash_words(&words);
            assert(words@ =~= seq![
                tile_rect.w as u64,
                tile_rect.h as u64,
                bg.r as u64,
                bg.g as u64,
                bg.b as u64,
                bg.a as u64,
            ]);
            r
        } else {
            let (has_shadow, shadow) = match self.shadow_cursor {
                Some(c) => (1u64, c as u64),
                None => (0u64, 0u64),
            };
            let words = [
                tile_rect.x0 as u64,
                tile_rect.y0 as u64,
                tile_rect.w as u64,
                tile_rect.h as u64,
                self.formatted_id,
                self.cursor as u64,
                if self.cursor_visible { 1u64 } else { 0u64 },
                has_shadow,
                shadow,
                bg.r as u64,
                bg.g as u64,
                bg.b as u64,
                bg.a as u64,
            ];
            let r = compute_hash_words(&words);
            assert(words@ =~= seq![
                tile_rect.x0 as u64,
                tile_rect.y0 as u64,
                tile_rect.w as u64,
                tile_rect.h as u64,
                self.formatted_id,
                self.cursor as u64,
                if self.cursor_visible { 1u64 } else { 0u64 },
                if self.shadow_cursor is Some { 1u64 } else { 0u64 },
                match self.shadow_cursor { Some(c) => c as u64, None => 0u64 },
                bg.r as u64,
                bg.g as u64,
                bg.b as u64,
                bg.a as u64,
            ]);
            r
        }
    }

    /// The renderer's text can be drawn: its layout is consistent and every
    /// font is well formed.
    pub open spec fn ready(&self) -> bool {
        &&& self.formatted.wf()
        &&& forall|k: int, i: int|
            0 <= k < self.formatted.lines@.len() && 0 <= i < self.formatted.lines@[k].chars@.len()
                ==> (#[trigger] self.formatted.lines@[k].chars@[i]).font.wf()
    }

    /// Draws the part `tile_rect` of the text box into `dst`: the background,
    /// the lines that meet the tile, and the cursor and shadow cursor.
    pub fn render(&self, dst: &mut Framebuffer, tile_rect: &Rect)
        requires
            old(dst).wf(),
            self.ready(),
        ensures
            final(dst).wf(),
            final(dst).w == old(dst).w && final(dst).h == old(dst).h,
            forall|px: int, py: int| in_bounds(final(dst).w, final(dst).h, px, py) ==> #[trigger] final(dst).pixel(px, py)
                == render_pixel(*self, *tile_rect, px, py),
    {
        dst.fill(self.bg_color);
        let ox = tile_rect.x0;
        let oy = tile_rect.y0;
        if ox != 0 {
            return;
        }
        let ghost lines = self.formatted.lines@;
        let ghost bg_fb = *dst;
        let n = self.formatted.lines.len();
        let mut y: i128 = 0;
        let mut k: usize = 0;
        assert(lines.subrange(0, 0) =~= Seq::<FormattedRichLine>::empty());
        while k < n
            invariant
                dst.wf(),
                dst.w == old(dst).w && dst.h == old(dst).h,
                lines == self.formatted.lines@,
                n == lines.len(),
                k <= n,
                0 <= y <= k * 0xffff_ffffi128,
                y == lines_height(lines.subrange(0, k as int)),
                self.ready(),
                oy == tile_rect.y0,
                forall|px: int, py: int| in_bounds(dst.w, dst.h, px, py) ==> #[trigger] dst.pixel(px, py) == tile_text_pixel(
                    self.bg_color,
                    lines.subrange(0, k as int),
                    *tile_rect,
                    px,
                    py,
                ),
            decreases n - k,
        {
            let line = &self.formatted.lines[k];
            proof {
                let sub = lines.subrange(0, k + 1);
                assert(sub.drop_last() =~= lines.subrange(0, k as int));
                assert(sub.last() == lines[k as int]);
            }
            let line_rect = Rect { x0: line.x_offset as i64, y0: y as i64, w: line.w, h: line.h };
            if y <= i64::MAX as i128 && tile_rect.intersection(&line_rect).is_some() {
                let x0 = line.x_offset as i64;
                let y0 = y - oy as i128;
                let (cells, base) = line_extent(&line.chars);
                if x0 as u128 + cells <= i64::MAX as u128 && i64::MIN as i128 <= y0 && y0 + base as i128
                    <= i64::MAX as i128 {
                    assert forall|i: int| 0 <= i < line.chars@.len() implies (#[trigger] line.chars@[i]).font.wf() by {
                        assert(self.formatted.lines@[k as int].chars@[i].font.wf());
                    }
                    draw_rich_slice(dst, line.chars.as_slice(), x0, y0 as i64);
                }
            }
            y = y + line.h as i128;
            k = k + 1;
        }
        assert(lines.subrange(0, n as int) =~= lines);
        let ghost text_fb = *dst;
        if self.cursor_visible {
            self.draw_cursor(dst, self.cursor, ox, oy);
        }
        let ghost cursor_fb = *dst;
        if let Some(shadow) = self.shadow_cursor {
            self.draw_cursor(dst, shadow, ox, oy);
        }
        proof {
            assert forall|px: int, py: int| in_bounds(dst.w, dst.h, px, py) implies #[trigger] dst.pixel(px, py)
                == render_pixel(*self, *tile_rect, px, py) by {
                assert(text_fb.pixel(px, py) == tile_text_pixel(self.bg_color, lines, *tile_rect, px, py));
                if self.cursor_visible {
                    assert(cursor_fb.pixel(px, py) == cursor_pixel(text_fb.pixel(px, py), *self, self.cursor, *tile_rect, px, py));
                }
            }
        }
    }

    /// Draws a cursor before character `prelude_len + cursor`, in the inverse
    /// of the background; nothing when that index lies past the text.
    fn draw_cursor(&self, dst: &mut Framebuffer, cursor: usize, ox: i64, oy: i64)
        requires
            old(dst).wf(),
            self.formatted.wf(),
        ensures
            final(dst).wf(),
            final(dst).w == old(dst).w && final(dst).h == old(dst).h,
            forall|px: int, py: int| in_bounds(final(dst).w, final(dst).h, px, py) ==> #[trigger] final(dst).pixel(px, py)
                == cursor_pixel(old(dst).pixel(px, py), *self, cursor, Rect { x0: ox, y0: oy, w: 0, h: 0 }, px, py),
    {
        if cursor > usize::MAX - self.prelude_len {
            return;
        }
        let index = self.prelude_len + cursor;
        if index > self.formatted.total_len() {
            return;
        }
        let (x, y, h) = self.formatted.index_to_xy(index);
        let cx = x as i128 - ox as i128;
        let cy = y as i128 - oy as i128;
        if i64::MIN as i128 <= cx && cx <= i64::MAX as i128 && i64::MIN as i128 <= cy && cy <= i64::MAX as i128 {
            let rect = Rect { x0: cx as i64, y0: cy as i64, w: CURSOR_W, h };
            draw_rect(dst, &rect, self.bg_color.invert(), false);
        }
    }
}

/// The characters a text box shows: its prelude, if any, then its text.
pub open spec fn frame_text(text: &RichText, prelude: Option<(&RichText, u64)>) -> Seq<RichChar> {
    match prelude {
        Some((p, _)) => p.text() + text.text(),
        None => text.text(),
    }
}

/// Width at which a text box of width `w` lays its text out: room is kept for
/// the cursor.
pub open spec fn frame_width(w: u32) -> u32 {
    if w >= CURSOR_W {
        (w - CURSOR_W) as u32
    } else {
        0
    }
}

pub open spec fn justif_code(j: TextJustification) -> u64 {
    match j {
        TextJustification::Left => 0,
        TextJustification::Center => 1,
        TextJustification::Right => 2,
    }
}

/// Identity of what a text box shows: its text's, combined with its prelude's.
pub open spec fn frame_text_id(text_id: u64, prelude: Option<(&RichText, u64)>) -> u64 {
    match prelude {
        Some((_, pid)) => hash_words(seq![pid, text_id]),
        None => text_id,
    }
}

/// Identity of the layout a text box shows.
pub open spec fn frame_layout_id(text_id: u64, prelude: Option<(&RichText, u64)>, w: u32, justif: TextJustification) -> u64 {
    hash_words(seq![frame_text_id(text_id, prelude), w as u64, justif_code(justif)])
}

/// Runs one frame of a text box showing `text` (identified by `text_id`)
/// after an optional prelude in `dst_rect` of `fb`.
///
/// The prelude and the text are laid out at the box's width less the cursor's,
/// the frame's decisions are taken (see `text_box_update`), and the layout is
/// composited through `cache` with the scroll offsets of `state` (see
/// `dynamic_canvas`). It returns false, changing nothing, when the layout's
/// height does not fit in 32 bits or a font is malformed.
pub fn text_box_frame(
    fb: &mut Framebuffer,
    cache: &mut TileCache,
    time_ms: u64,
    dst_rect: &Rect,
    text: &RichText,
    text_id: u64,
    prelude: Option<(&RichText, u64)>,
    state: &mut TextBoxState,
    bg_color: Color,
    pointer: (i64, i64),
    left_click: bool,
    cursor_changed: bool,
    cursor_enabled: bool,
    autoscroll: bool,
    in_scrollbar: (bool, bool),
    delta: (i64, i64),
) -> (ok: bool)
    requires
        old(fb).wf(),
        old(cache).wf(),
        text.inv(),
        prelude matches Some((p, _)) ==> p.inv(),
    ensures
        final(fb).wf(),
        final(fb).w == old(fb).w && final(fb).h == old(fb).h,
        final(cache).wf(),
        ok <==> lines_height_bound(frame_text(text, prelude), frame_width(dst_rect.w) as nat) && forall|i: int|
            0 <= i < frame_text(text, prelude).len() ==> (#[trigger] frame_text(text, prelude)[i]).font.wf(),
        !ok ==> *final(fb) == *old(fb) && *final(cache) == *old(cache) && *final(state) == *old(state),
        ok ==> {
            let s = frame_text(text, prelude);
            let h = bounds_height(s, line_bounds(s, frame_width(dst_rect.w) as nat)) as int;
            let scrolled = if autoscroll && old(state).content_id != Some(
                frame_layout_id(text_id, prelude, dst_rect.w, old(state).justif),
            ) {
                clamp_spec(h - dst_rect.h, h, dst_rect.h as int)
            } else {
                old(state).scroll_offsets.1 as int
            };
            &&& final(state).scroll_offsets.0 == clamp_spec(
                old(state).scroll_offsets.0 + if old(state).scroll_dragging.0 && in_scrollbar.0 { delta.0 as int } else { 0 },
                sat_add(frame_width(dst_rect.w), CURSOR_W) as int,
                dst_rect.w as int,
            )
            &&& final(state).scroll_offsets.1 == clamp_spec(
                scrolled + if old(state).scroll_dragging.1 && in_scrollbar.1 { delta.1 as int } else { 0 },
                h,
                dst_rect.h as int,
            )
            &&& autoscroll ==> final(state).content_id == Some(frame_layout_id(text_id, prelude, dst_rect.w, old(state).justif))
            &&& final(state).justif == old(state).justif
        },
{
    let (rich, prelude_len, rich_id) = match prelude {
        Some((p, pid)) => {
            let mut r = p.copy();
            r.concat(text.copy());
            let words = [pid, text_id];
            let id = compute_hash_words(&words);
            assert(words@ =~= seq![pid, text_id]);
            (r, p.len(), id)
        },
        None => (text.copy(), 0, text_id),
    };
    assert(rich.text() == frame_text(text, prelude));
    if !rich.fonts_ok() {
        return false;
    }
    let width = if dst_rect.w >= CURSOR_W {
        dst_rect.w - CURSOR_W
    } else {
        0
    };
    let formatted = match format_rich_lines_checked(&rich, width, state.justif) {
        Some(f) => f,
        None => {
            return false;
        },
    };
    let code: u64 = match state.justif {
        TextJustification::Left => 0,
        TextJustification::Center => 1,
        TextJustification::Right => 2,
    };
    let words = [rich_id, dst_rect.w as u64, code];
    let formatted_id = compute_hash_words(&words);
    assert(words@ =~= seq![rich_id, dst_rect.w as u64, code]);
    let ghost s = rich.text();
    let shadow = text_box_update(
        state,
        &formatted,
        formatted_id,
        dst_rect,
        pointer,
        left_click,
        time_ms,
        cursor_changed,
        cursor_enabled,
        autoscroll,
        prelude_len,
    );
    let renderer = TextRenderer {
        formatted,
        formatted_id,
        bg_color,
        cursor: state.cursor,
        shadow_cursor: shadow,
        prelude_len,
        cursor_visible: state.cursor_visible,
    };
    proof {
        let lines = renderer.formatted.lines@;
        assert forall|k: int, i: int|
            0 <= k < lines.len() && 0 <= i < lines[k].chars@.len() implies (#[trigger] lines[k].chars@[i]).font.wf() by {
            assert(lines_chars(lines)[k] == lines[k].chars@);
            lemma_wrap_chars(s, width as nat, k, i);
        }
    }
    let shape = renderer.shape();
    let tile_shape = renderer.tile_shape();
    let id_fn = |t: Rect| -> (r: u64) { renderer.content_id(&t) };
    let render_fn = |t: &Rect| -> (tile: Framebuffer)
        requires
            renderer.ready(),
        {
            assert(t.w as u128 * t.h as u128 <= 0xffff_ffffu128 * 0xffff_ffffu128) by (nonlinear_arith)
                requires t.w <= 0xffff_ffffu128, t.h <= 0xffff_ffffu128;
            if t.w as u128 * t.h as u128 <= usize::MAX as u128 {
                let mut tile = Framebuffer::new(t.w, t.h);
                renderer.render(&mut tile, t);
                tile
            } else {
                Framebuffer::new(0, 0)
            }
        };
    let mut offsets = state.scroll_offsets;
    dynamic_canvas(
        fb,
        cache,
        time_ms,
        dst_rect,
        shape,
        tile_shape,
        &id_fn,
        &render_fn,
        &mut offsets,
        state.scroll_dragging,
        in_scrollbar,
        delta,
        bg_color,
    );
    state.scroll_offsets = offsets;
    true
}

} // verus!
