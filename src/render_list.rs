use vstd::prelude::*;

use crate::canvas::{canvas_done, canvas_pixel, clamp_spec, dynamic_canvas};
use crate::color::Color;
use crate::draw::{cells_width, draw_rect, draw_rich_slice, lemma_cells_nonneg, max_base, rect_pixel, rich_pixel};
use crate::framebuffer::{in_bounds, Framebuffer};
use crate::geometry::Rect;
use crate::hash::{compute_hash_words, hash_words};
use crate::layout::{
    char_at, height_before, lemma_prefix_step, lines_count, lines_height, underline_view, underlines,
    FormattedRichLine, FormattedRichText,
};
use crate::rich_text::RichChar;
use crate::tile_cache::{CacheEntry, TileCache};

verus! {

/// One drawable item of a laid-out page: a colored box or a block of text
/// placed at `origin`.
pub enum RenderItem {
    Block { rect: Rect, color: Option<Color> },
    Text { formatted: FormattedRichText, origin: (i64, i64) },
}

impl RenderItem {
    pub open spec fn rect_spec(&self) -> Rect {
        match self {
            RenderItem::Block { rect, .. } => *rect,
            RenderItem::Text { formatted, origin } => Rect { x0: origin.0, y0: origin.1, w: formatted.w, h: formatted.h },
        }
    }

    /// The box the item covers.
    pub fn get_rect(&self) -> (r: Rect)
        ensures
            r == self.rect_spec(),
    {
        match self {
            RenderItem::Block { rect, .. } => *rect,
            RenderItem::Text { formatted, origin } => Rect { x0: origin.0, y0: origin.1, w: formatted.w, h: formatted.h },
        }
    }
}

/// Every text of the list is a consistent layout.
pub open spec fn texts_wf(list: Seq<RenderItem>) -> bool {
    forall|k: int| 0 <= k < list.len() ==> (#[trigger] list[k] matches RenderItem::Text { formatted, .. } ==> formatted.wf())
}

/// Every font of the layout is well formed.
pub open spec fn layout_fonts_wf(formatted: FormattedRichText) -> bool {
    forall|l: int, i: int| 0 <= l < formatted.lines@.len() && 0 <= i < formatted.lines@[l].chars@.len()
        ==> (#[trigger] formatted.lines@[l].chars@[i]).font.wf()
}

/// Every font of every text of the list is well formed.
pub open spec fn fonts_wf(list: Seq<RenderItem>) -> bool {
    forall|k: int| 0 <= k < list.len() ==> match #[trigger] list[k] {
        RenderItem::Text { formatted, .. } => layout_fonts_wf(formatted),
        _ => true,
    }
}

/// The page's box: that of the root, the last item of the list.
pub fn get_render_rect(render_list: &[RenderItem]) -> (r: Rect)
    requires
        render_list@.len() > 0,
    ensures
        r == render_list@.last().rect_spec(),
{
    render_list[render_list.len() - 1].get_rect()
}

/// The color of pixel (px, py) over `cur` once `lines` are drawn from
/// `origin`: each line at its justification offset, below the lines before it.
pub open spec fn text_pixel(cur: Color, lines: Seq<FormattedRichLine>, origin: (int, int), px: int, py: int) -> Color
    decreases lines.len(),
{
    if lines.len() == 0 {
        cur
    } else {
        let l = lines.last();
        rich_pixel(
            text_pixel(cur, lines.drop_last(), origin, px, py),
            l.chars@,
            origin.0 + l.x_offset,
            origin.1 + lines_height(lines.drop_last()),
            max_base(l.chars@),
            px,
            py,
        )
    }
}

/// Every line drawn from `origin` keeps its glyph cells inside the 64-bit plane.
pub open spec fn text_fits(lines: Seq<FormattedRichLine>, origin: (int, int)) -> bool {
    &&& i64::MIN <= origin.0 && i64::MIN <= origin.1
    &&& forall|k: int| 0 <= k < lines.len() ==> {
        &&& origin.0 + (#[trigger] lines[k]).x_offset + cells_width(lines[k].chars@) <= i64::MAX
        &&& origin.1 + height_before(lines, k) + max_base(lines[k].chars@) <= i64::MAX
    }
}

/// Whether `text_fits` holds.
#[verifier::loop_isolation(false)]
pub fn check_text_fits(formatted: &FormattedRichText, origin: (i64, i64)) -> (r: bool)
    ensures
        r == text_fits(formatted.lines@, (origin.0 as int, origin.1 as int)),
{
    let lines = &formatted.lines;
    let n = lines.len();
    let mut y: i128 = origin.1 as i128;
    let mut k: usize = 0;
    assert(lines@.subrange(0, 0) =~= Seq::<FormattedRichLine>::empty());
    while k < n
        invariant
            n == lines@.len(),
            k <= n,
            y == origin.1 + height_before(lines@, k as int),
            y <= i64::MAX + k * 0xffff_ffffi128,
            i64::MIN <= y,
            forall|j: int| 0 <= j < k ==> {
                &&& origin.0 + (#[trigger] lines@[j]).x_offset + cells_width(lines@[j].chars@) <= i64::MAX
                &&& origin.1 + height_before(lines@, j) + max_base(lines@[j].chars@) <= i64::MAX
            },
        decreases n - k,
    {
        let line = &lines[k];
        let m = line.chars.len();
        let mut cells: u128 = 0;
        let mut base: u32 = 0;
        let mut i: usize = 0;
        while i < m
            invariant
                m == line.chars@.len(),
                i <= m,
                cells == cells_width(line.chars@.subrange(0, i as int)),
                base == max_base(line.chars@.subrange(0, i as int)),
                cells <= i * 0xffff_ffffu128,
            decreases m - i,
        {
            assert(line.chars@.subrange(0, i + 1).drop_last() =~= line.chars@.subrange(0, i as int));
            cells = cells + line.chars[i].font.char_w as u128;
            if line.chars[i].font.base_y > base {
                base = line.chars[i].font.base_y;
            }
            i = i + 1;
        }
        assert(line.chars@.subrange(0, m as int) =~= line.chars@);
        if !(origin.0 as i128 + line.x_offset as i128 + cells as i128 <= i64::MAX as i128 && y + base as i128
            <= i64::MAX as i128) {
            assert(text_fits(lines@, (origin.0 as int, origin.1 as int)) ==> {
                &&& origin.0 + lines@[k as int].x_offset + cells_width(lines@[k as int].chars@) <= i64::MAX
                &&& origin.1 + height_before(lines@, k as int) + max_base(lines@[k as int].chars@) <= i64::MAX
            });
            return false;
        }
        proof {
            lemma_prefix_step(lines@, k as int);
        }
        y = y + line.h as i128;
        k = k + 1;
    }
    true
}

/// Draws the lines of `formatted` with the layout's top-left corner at `origin`.
pub fn render_rich_text(dst: &mut Framebuffer, origin: (i64, i64), formatted: &FormattedRichText)
    requires
        old(dst).wf(),
        layout_fonts_wf(*formatted),
        text_fits(formatted.lines@, (origin.0 as int, origin.1 as int)),
    ensures
        final(dst).wf(),
        final(dst).w == old(dst).w && final(dst).h == old(dst).h,
        forall|px: int, py: int| in_bounds(final(dst).w, final(dst).h, px, py) ==> #[trigger] final(dst).pixel(px, py)
            == text_pixel(old(dst).pixel(px, py), formatted.lines@, (origin.0 as int, origin.1 as int), px, py),
{
    let ghost o = (origin.0 as int, origin.1 as int);
    let ghost lines = formatted.lines@;
    let n = formatted.lines.len();
    let mut y: i64 = origin.1;
    let mut k: usize = 0;
    assert(lines.subrange(0, 0) =~= Seq::<FormattedRichLine>::empty());
    while k < n
        invariant
            dst.wf(),
            dst.w == old(dst).w && dst.h == old(dst).h,
            lines == formatted.lines@,
            n == lines.len(),
            k <= n,
            layout_fonts_wf(*formatted),
            text_fits(lines, o),
            o == (origin.0 as int, origin.1 as int),
            k < n ==> y == origin.1 + height_before(lines, k as int),
            forall|px: int, py: int| in_bounds(dst.w, dst.h, px, py) ==> #[trigger] dst.pixel(px, py) == text_pixel(
                old(dst).pixel(px, py),
                lines.subrange(0, k as int),
                o,
                px,
                py,
            ),
        decreases n - k,
    {
        let line = &formatted.lines[k];
        proof {
            lemma_prefix_step(lines, k as int);
            assert(lines.subrange(0, k + 1).drop_last() =~= lines.subrange(0, k as int));
            assert(lines.subrange(0, k + 1).last() == lines[k as int]);
            assert forall|i: int| 0 <= i < line.chars@.len() implies (#[trigger] line.chars@[i]).font.wf() by {
                assert(formatted.lines@[k as int].chars@[i].font.wf());
            }
            assert(origin.0 + lines[k as int].x_offset + cells_width(lines[k as int].chars@) <= i64::MAX);
            lemma_cells_nonneg(lines[k as int].chars@);
        }
        let x0 = origin.0 + line.x_offset as i64;
        draw_rich_slice(dst, line.chars.as_slice(), x0, y);
        if k + 1 < n {
            proof {
                assert(origin.1 + height_before(lines, k + 1) + max_base(lines[k + 1].chars@) <= i64::MAX);
                lemma_max_base_nonneg(lines[k + 1].chars@);
            }
            y = y + line.h as i64;
        }
        k = k + 1;
    }
    assert(lines.subrange(0, n as int) =~= lines);
}

proof fn lemma_max_base_nonneg(s: Seq<RichChar>)
    ensures
        max_base(s) >= 0,
    decreases s.len(),
{
    if s.len() > 0 {
        lemma_max_base_nonneg(s.drop_last());
    }
}

/// A shift of (dx, dy) pixels stays within 64 bits.
pub open spec fn shift_fits(dx: int, dy: int) -> bool {
    i64::MIN <= dx <= i64::MAX && i64::MIN <= dy <= i64::MAX
}

/// The color of pixel (px, py) of the tile `src` over `cur` once `item` is
/// drawn: a colored box as a plain fill, a text that meets the tile and fits
/// the 64-bit plane line by line; an item whose shift leaves 64 bits is skipped.
pub open spec fn item_pixel(cur: Color, item: RenderItem, src: Rect, px: int, py: int) -> Color {
    match item {
        RenderItem::Block { rect, color } => match color {
            Some(c) => if shift_fits(rect.x0 - src.x0, rect.y0 - src.y0) {
                rect_pixel(
                    cur,
                    Rect { x0: (rect.x0 - src.x0) as i64, y0: (rect.y0 - src.y0) as i64, w: rect.w, h: rect.h },
                    c,
                    false,
                    px,
                    py,
                )
            } else {
                cur
            },
            None => cur,
        },
        RenderItem::Text { formatted, origin } => {
            let d = (origin.0 - src.x0, origin.1 - src.y0);
            if (Rect { x0: origin.0, y0: origin.1, w: formatted.w, h: formatted.h }).overlaps_spec(&src)
                && shift_fits(d.0, d.1) && text_fits(formatted.lines@, d) {
                text_pixel(cur, formatted.lines@, d, px, py)
            } else {
                cur
            }
        },
    }
}

/// The color of pixel (px, py) of the tile `src` over `cur` once the items of
/// `list` are drawn from the last to the first, so that the first comes on top.
pub open spec fn html_pixel(cur: Color, list: Seq<RenderItem>, src: Rect, px: int, py: int) -> Color
    decreases list.len(),
{
    if list.len() == 0 {
        cur
    } else {
        item_pixel(html_pixel(cur, list.drop_first(), src, px, py), list[0], src, px, py)
    }
}

/// Draws the part `src_rect` of the page into `dst`, from the last item (the
/// root) to the first, so that inner items come on top. Tiles are horizontal
/// bands: a tile not starting at the page's left edge is left as it is.
pub fn render_html(dst: &mut Framebuffer, render_list: &[RenderItem], src_rect: &Rect)
    requires
        old(dst).wf(),
        fonts_wf(render_list@),
    ensures
        final(dst).wf(),
        final(dst).w == old(dst).w && final(dst).h == old(dst).h,
        forall|px: int, py: int| in_bounds(final(dst).w, final(dst).h, px, py) ==> #[trigger] final(dst).pixel(px, py)
            == if src_rect.x0 == 0 {
            html_pixel(old(dst).pixel(px, py), render_list@, *src_rect, px, py)
        } else {
            old(dst).pixel(px, py)
        },
{
    if src_rect.x0 != 0 {
        return;
    }
    let ghost list = render_list@;
    let n = render_list.len();
    let mut k: usize = n;
    assert(list.subrange(n as int, n as int) =~= Seq::<RenderItem>::empty());
    while k > 0
        invariant
            dst.wf(),
            dst.w == old(dst).w && dst.h == old(dst).h,
            list == render_list@,
            n == list.len(),
            k <= n,
            fonts_wf(render_list@),
            forall|px: int, py: int| in_bounds(dst.w, dst.h, px, py) ==> #[trigger] dst.pixel(px, py) == html_pixel(
                old(dst).pixel(px, py),
                list.subrange(k as int, n as int),
                *src_rect,
                px,
                py,
            ),
        decreases k,
    {
        k = k - 1;
        proof {
            assert(list.subrange(k as int, n as int).drop_first() =~= list.subrange(k + 1, n as int));
            assert(list.subrange(k as int, n as int)[0] == list[k as int]);
        }
        match &render_list[k] {
            RenderItem::Text { formatted, origin } => {
                let (x0, y0) = *origin;
                let draw_box = Rect { x0, y0, w: formatted.w, h: formatted.h };
                let dx = x0 as i128 - src_rect.x0 as i128;
                let dy = y0 as i128 - src_rect.y0 as i128;
                if draw_box.intersection(src_rect).is_some() && i64::MIN as i128 <= dx && dx <= i64::MAX as i128
                    && i64::MIN as i128 <= dy && dy <= i64::MAX as i128 {
                    assert(layout_fonts_wf(*formatted));
                    if check_text_fits(formatted, (dx as i64, dy as i64)) {
                        render_rich_text(dst, (dx as i64, dy as i64), formatted);
                    }
                }
            },
            RenderItem::Block { rect, color } => {
                if let Some(color) = color {
                    let dx = rect.x0 as i128 - src_rect.x0 as i128;
                    let dy = rect.y0 as i128 - src_rect.y0 as i128;
                    if i64::MIN as i128 <= dx && dx <= i64::MAX as i128 && i64::MIN as i128 <= dy && dy
                        <= i64::MAX as i128 {
                        let offset_rect = Rect { x0: dx as i64, y0: dy as i64, w: rect.w, h: rect.h };
                        draw_rect(dst, &offset_rect, *color, false);
                    }
                }
            },
        }
    }
    assert(list.subrange(0, n as int) =~= list);
}

/// Whether the point (x, y) of the page lies over a character of item `item`
/// that carries a registered link.
pub open spec fn link_hit(item: RenderItem, x: int, y: int) -> bool {
    match item {
        RenderItem::Text { formatted, origin } => match formatted.xy_to_index_spec(x - origin.0, y - origin.1) {
            Some(i) => match char_at(formatted.lines@, i).link_id {
                Some(id) => formatted.links().contains_key(id.0),
                None => false,
            },
            None => false,
        },
        _ => false,
    }
}

/// The link id carried by the character of a text at (x, y) of the page.
pub open spec fn hit_id(formatted: FormattedRichText, origin: (i64, i64), x: int, y: int) -> u64 {
    match formatted.xy_to_index_spec(x - origin.0, y - origin.1) {
        Some(i) => match char_at(formatted.lines@, i).link_id {
            Some(id) => id.0,
            None => 0,
        },
        None => 0,
    }
}

/// The first item, from `k` on, whose link lies under (x, y).
pub open spec fn first_link_hit(list: Seq<RenderItem>, k: int, x: int, y: int) -> Option<int>
    decreases list.len() - k,
{
    if k < 0 || k >= list.len() {
        None
    } else if link_hit(list[k], x, y) {
        Some(k)
    } else {
        first_link_hit(list, k + 1, x, y)
    }
}

/// The link under the point (x, y) of the page, searched in list order: the
/// item holding it, its URL, and its underlines in the text's coordinates.
pub fn hovered_link(render_list: &[RenderItem], x: i64, y: i64) -> (r: Option<(usize, &str, Vec<(i64, i64, i64)>)>)
    requires
        texts_wf(render_list@),
    ensures
        r matches Some((j, _, _)) ==> j < render_list@.len(),
        match first_link_hit(render_list@, 0, x as int, y as int) {
            Some(k) => r matches Some((j, url, ul)) && j == k && match render_list@[k] {
                RenderItem::Text { formatted, origin } => url@ == formatted.links()[hit_id(
                    formatted,
                    origin,
                    x as int,
                    y as int,
                )].1 && underline_view(ul@) == underlines(formatted.lines@, hit_id(formatted, origin, x as int, y as int)),
                _ => false,
            },
            None => r is None,
        },
{
    let n = render_list.len();
    let mut k: usize = 0;
    while k < n
        invariant
            n == render_list@.len(),
            k <= n,
            texts_wf(render_list@),
            first_link_hit(render_list@, 0, x as int, y as int) == first_link_hit(render_list@, k as int, x as int, y as int),
        decreases n - k,
    {
        match &render_list[k] {
            RenderItem::Text { formatted, origin } => {
                assert(formatted.wf());
                let (x0, y0) = *origin;
                let xt = x as i128 - x0 as i128;
                let yt = y as i128 - y0 as i128;
                if formatted.has_link() && i64::MIN as i128 <= xt && xt <= i64::MAX as i128 && i64::MIN as i128 <= yt
                    && yt <= i64::MAX as i128 {
                    match formatted.xy_to_index((xt as i64, yt as i64)) {
                        Some(index) => {
                            match formatted.get_link(index) {
                                Some((url, ul)) => {
                                    return Some((k, url, ul));
                                },
                                None => {},
                            }
                        },
                        None => {},
                    }
                } else if !(i64::MIN as i128 <= xt && xt <= i64::MAX as i128 && i64::MIN as i128 <= yt && yt
                    <= i64::MAX as i128) {
                    assert(xt < 0 || xt >= formatted.w || yt < 0 || yt >= formatted.h);
                } else {
                    assert(forall|id: u64| !formatted.links().contains_key(id));
                }
            },
            RenderItem::Block { .. } => {},
        }
        k = k + 1;
    }
    None
}

/// Identity of a page tile: its size alone outside the page, else its place
/// and the page's identity.
pub open spec fn html_tile_id(tile_rect: Rect, page: Rect, list_id: u64) -> u64 {
    if !tile_rect.overlaps_spec(&page) {
        hash_words(seq![tile_rect.w as u64, tile_rect.h as u64])
    } else {
        hash_words(seq![tile_rect.x0 as u64, tile_rect.y0 as u64, tile_rect.w as u64, tile_rect.h as u64, list_id])
    }
}

fn html_tile_id_exec(tile_rect: &Rect, page: &Rect, list_id: u64) -> (r: u64)
    ensures
        r == html_tile_id(*tile_rect, *page, list_id),
{
    if tile_rect.intersection(page).is_none() {
        let words = [tile_rect.w as u64, tile_rect.h as u64];
        let r = compute_hash_words(&words);
        assert(words@ =~= seq![tile_rect.w as u64, tile_rect.h as u64]);
        r
    } else {
        let words = [tile_rect.x0 as u64, tile_rect.y0 as u64, tile_rect.w as u64, tile_rect.h as u64, list_id];
        let r = compute_hash_words(&words);
        assert(words@ =~= seq![tile_rect.x0 as u64, tile_rect.y0 as u64, tile_rect.w as u64, tile_rect.h as u64, list_id]);
        r
    }
}

/// A white page tile with the part `tile_rect` of the page drawn on it.
fn html_tile(render_list: &[RenderItem], tile_rect: &Rect) -> (t: Framebuffer)
    requires
        fonts_wf(render_list@),
        tile_rect.w as int * tile_rect.h as int <= usize::MAX,
    ensures
        t.wf(),
{
    let mut t = Framebuffer::new(tile_rect.w, tile_rect.h);
    t.fill(Color::rgba(255, 255, 255, 255));
    render_html(&mut t, render_list, tile_rect);
    t
}

/// The color of a pixel over `cur` once the underlines (y, x0, x1) of `ul` are
/// drawn in blue, one pixel high from x0 to x1, shifted by `shift`.
pub open spec fn underline_pixel(cur: Color, ul: Seq<(int, int, int)>, shift: (int, int), px: int, py: int) -> Color
    decreases ul.len(),
{
    if ul.len() == 0 {
        cur
    } else {
        let u = ul.last();
        let prev = underline_pixel(cur, ul.drop_last(), shift, px, py);
        let fx = u.1 + shift.0;
        let fy = u.0 + shift.1;
        let w = u.2 - u.1 + 1;
        if i64::MIN <= fx <= i64::MAX && i64::MIN <= fy <= i64::MAX && 0 <= w <= u32::MAX {
            rect_pixel(
                prev,
                Rect { x0: fx as i64, y0: fy as i64, w: w as u32, h: 1 },
                Color { r: 0, g: 0, b: 255, a: 255 },
                false,
                px,
                py,
            )
        } else {
            prev
        }
    }
}

/// The underlines of the link under the pointer, if any, with the shift that
/// places the text's coordinates in the destination buffer.
pub open spec fn hovered_underlines(list: Seq<RenderItem>, dst: Rect, offsets: (i64, i64), pointer: (i64, i64)) -> Option<
    (Seq<(int, int, int)>, (int, int)),
> {
    let xc = pointer.0 - dst.x0 + offsets.0;
    let yc = pointer.1 - dst.y0 + offsets.1;
    if dst.contains_spec(pointer.0 as int, pointer.1 as int) {
        match first_link_hit(list, 0, xc, yc) {
            Some(k) => match list[k] {
                RenderItem::Text { formatted, origin } => Some(
                    (
                        underlines(formatted.lines@, hit_id(formatted, origin, xc, yc)),
                        (origin.0 + dst.x0 - offsets.0, origin.1 + dst.y0 - offsets.1),
                    ),
                ),
                _ => None,
            },
            None => None,
        }
    } else {
        None
    }
}

/// Width of the page tiles: the page's, at least 300 pixels.
pub open spec fn page_tile_w(list: Seq<RenderItem>) -> u32 {
    if list.last().rect_spec().w > 300 {
        list.last().rect_spec().w
    } else {
        300
    }
}

/// What `html_canvas` leaves: `mid` is `old_fb` with the page tiles stored
/// under `ids` copied in, and `fb` is `mid` with the hovered link underlined.
pub open spec fn html_drawn(
    old_fb: Framebuffer,
    mid: Framebuffer,
    fb: Framebuffer,
    cache: Map<u64, CacheEntry>,
    ids: Seq<u64>,
    list: Seq<RenderItem>,
    dst: Rect,
    offsets: (i64, i64),
    pointer: (i64, i64),
) -> bool {
    &&& mid.w == fb.w && mid.h == fb.h
    &&& forall|k: int| 0 <= k < ids.len() ==> cache.contains_key(#[trigger] ids[k])
    &&& forall|px: int, py: int| in_bounds(mid.w, mid.h, px, py) ==> #[trigger] mid.pixel(px, py) == canvas_pixel(
        old_fb.pixel(px, py),
        cache,
        ids,
        dst,
        offsets,
        (page_tile_w(list), 300),
        px,
        py,
    )
    &&& forall|px: int, py: int| in_bounds(fb.w, fb.h, px, py) ==> #[trigger] fb.pixel(px, py) == match hovered_underlines(
        list,
        dst,
        offsets,
        pointer,
    ) {
        Some((ul, shift)) => underline_pixel(mid.pixel(px, py), ul, shift, px, py),
        None => mid.pixel(px, py),
    }
}

/// Shows the page `render_list` (identified by `list_id`) scrolled in
/// `dst_rect`, and underlines in blue the link under the pointer, whose URL
/// it returns.
pub fn html_canvas<'a>(
    fb: &mut Framebuffer,
    cache: &mut TileCache,
    time: u64,
    render_list: &'a [RenderItem],
    list_id: u64,
    dst_rect: &Rect,
    offsets: &mut (i64, i64),
    dragging: (bool, bool),
    in_scrollbar: (bool, bool),
    delta: (i64, i64),
    pointer: (i64, i64),
) -> (r: Option<&'a str>)
    requires
        old(fb).wf(),
        old(cache).wf(),
        render_list@.len() > 0,
        texts_wf(render_list@),
        fonts_wf(render_list@),
    ensures
        final(fb).wf(),
        final(fb).w == old(fb).w && final(fb).h == old(fb).h,
        final(cache).wf(),
        final(offsets).0 == clamp_spec(
            old(offsets).0 + if dragging.0 && in_scrollbar.0 { delta.0 as int } else { 0 },
            render_list@.last().rect_spec().w as int,
            dst_rect.w as int,
        ),
        final(offsets).1 == clamp_spec(
            old(offsets).1 + if dragging.1 && in_scrollbar.1 { delta.1 as int } else { 0 },
            render_list@.last().rect_spec().h as int,
            dst_rect.h as int,
        ),
        !dst_rect.contains_spec(pointer.0 as int, pointer.1 as int) ==> r is None,
        dst_rect.contains_spec(pointer.0 as int, pointer.1 as int) ==> match first_link_hit(
            render_list@,
            0,
            pointer.0 - dst_rect.x0 + final(offsets).0,
            pointer.1 - dst_rect.y0 + final(offsets).1,
        ) {
            Some(k) => r matches Some(url) && match render_list@[k] {
                RenderItem::Text { formatted, origin } => url@ == formatted.links()[hit_id(
                    formatted,
                    origin,
                    pointer.0 - dst_rect.x0 + final(offsets).0,
                    pointer.1 - dst_rect.y0 + final(offsets).1,
                )].1,
                _ => false,
            },
            None => r is None,
        },
        exists|mid: Framebuffer, ids: Seq<u64>|
            #[trigger] html_drawn(
                *old(fb),
                mid,
                *final(fb),
                final(cache)@,
                ids,
                render_list@,
                *dst_rect,
                *final(offsets),
                pointer,
            ),
{
    let ghost old_fb = *fb;
    let page = get_render_rect(render_list);
    let tile_w = if page.w > 300 { page.w } else { 300 };
    let id_of = |tile_rect: Rect| -> (r: u64) { html_tile_id_exec(&tile_rect, &page, list_id) };
    let render = |tile_rect: &Rect| -> (t: Framebuffer)
        requires
            fonts_wf(render_list@),
        {
            assert(tile_rect.w as u128 * tile_rect.h as u128 <= 0xffff_ffffu128 * 0xffff_ffffu128) by (nonlinear_arith)
                requires tile_rect.w <= 0xffff_ffffu128, tile_rect.h <= 0xffff_ffffu128;
            if tile_rect.w as u128 * tile_rect.h as u128 <= usize::MAX as u128 {
                html_tile(render_list, tile_rect)
            } else {
                Framebuffer::new(0, 0)
            }
        };
    dynamic_canvas(
        fb,
        cache,
        time,
        dst_rect,
        (page.w, page.h),
        (tile_w, 300),
        &id_of,
        &render,
        offsets,
        dragging,
        in_scrollbar,
        delta,
        Color::rgba(255, 255, 255, 255),
    );
    let ghost mid = *fb;
    let ghost content = Rect { x0: 0, y0: 0, w: page.w, h: page.h };
    let ghost ids = if tile_w as int * 300 > usize::MAX {
        Seq::<u64>::empty()
    } else {
        choose|ids: Seq<u64>|
        #[trigger] canvas_done(
            old_fb,
            mid,
            cache@,
            ids,
            &id_of,
            *dst_rect,
            *offsets,
            (tile_w, 300u32),
            content,
            Color { r: 255, g: 255, b: 255, a: 255 },
        )
    };
    if !dst_rect.check_contains_point(pointer.0, pointer.1) {
        assert(html_drawn(old_fb, mid, *fb, cache@, ids, render_list@, *dst_rect, *offsets, pointer));
        return None;
    }
    let (ox, oy) = *offsets;
    let xc = pointer.0 as i128 - dst_rect.x0 as i128 + ox as i128;
    let yc = pointer.1 as i128 - dst_rect.y0 as i128 + oy as i128;
    // The pointer is over the viewport and the offsets lie within the page.
    assert(0 <= xc < 0x2_0000_0000 && 0 <= yc < 0x2_0000_0000);
    match hovered_link(render_list, xc as i64, yc as i64) {
        Some((k, url, underlines)) => {
            let origin = match &render_list[k] {
                RenderItem::Text { origin, .. } => *origin,
                RenderItem::Block { .. } => (0, 0),
            };
            let n = underlines.len();
            let ghost shift = (origin.0 + dst_rect.x0 - ox, origin.1 + dst_rect.y0 - oy);
            let ghost ulv = underline_view(underlines@);
            let mut i: usize = 0;
            assert(ulv.subrange(0, 0) =~= Seq::<(int, int, int)>::empty());
            while i < n
                invariant
                    fb.wf(),
                    fb.w == old(fb).w && fb.h == old(fb).h,
                    mid.w == fb.w && mid.h == fb.h,
                    n == underlines@.len(),
                    ulv == underline_view(underlines@),
                    shift == (origin.0 + dst_rect.x0 - ox, origin.1 + dst_rect.y0 - oy),
                    i <= n,
                    forall|px: int, py: int| in_bounds(fb.w, fb.h, px, py) ==> #[trigger] fb.pixel(px, py) == underline_pixel(
                        mid.pixel(px, py),
                        ulv.subrange(0, i as int),
                        shift,
                        px,
                        py,
                    ),
                decreases n - i,
            {
                proof {
                    assert(ulv.subrange(0, i + 1).drop_last() =~= ulv.subrange(0, i as int));
                    assert(ulv.subrange(0, i + 1).last() == ulv[i as int]);
                }
                let (y_ul, x0_ul, x1_ul) = underlines[i];
                let fx = x0_ul as i128 + origin.0 as i128 + dst_rect.x0 as i128 - ox as i128;
                let fy = y_ul as i128 + origin.1 as i128 + dst_rect.y0 as i128 - oy as i128;
                let w = x1_ul as i128 - x0_ul as i128 + 1;
                if i64::MIN as i128 <= fx && fx <= i64::MAX as i128 && i64::MIN as i128 <= fy && fy <= i64::MAX as i128
                    && 0 <= w && w <= u32::MAX as i128 {
                    let line = Rect { x0: fx as i64, y0: fy as i64, w: w as u32, h: 1 };
                    draw_rect(fb, &line, Color::rgba(0, 0, 255, 255), false);
                }
                i = i + 1;
            }
            assert(ulv.subrange(0, n as int) =~= ulv);
            assert(html_drawn(old_fb, mid, *fb, cache@, ids, render_list@, *dst_rect, *offsets, pointer));
            Some(url)
        },
        None => {
            assert(html_drawn(old_fb, mid, *fb, cache@, ids, render_list@, *dst_rect, *offsets, pointer));
            None
        },
    }
}

} // verus!
