use vstd::prelude::*;
use vstd::arithmetic::div_mod::lemma_fundamental_div_mod_converse;

use crate::color::Color;
use crate::framebuffer::{in_bounds, Framebuffer};
use crate::geometry::Rect;
use crate::hash::{compute_hash_words, hash_words};
use crate::tile_cache::{fetch_hit, CacheEntry, TileCache};

verus! {

/// `offset` brought into [0, content - view], or to 0 when the content fits.
pub open spec fn clamp_spec(offset: int, content: int, view: int) -> int {
    let max = if content > view { content - view } else { 0 };
    if offset < 0 {
        0
    } else if offset > max {
        max
    } else {
        offset
    }
}

/// The scroll offset along one axis, kept within the content.
pub fn clamp_scroll(offset: i64, content: u32, view: u32) -> (r: i64)
    ensures
        r == clamp_spec(offset as int, content as int, view as int),
{
    let max: i64 = if content > view {
        (content - view) as i64
    } else {
        0
    };
    if offset < 0 {
        0
    } else if offset > max {
        max
    } else {
        offset
    }
}

/// New scroll offsets after a pointer move of `delta`: an axis follows the
/// pointer while a drag is active on it and the pointer is over its scrollbar;
/// both offsets are then clamped to the content.
pub fn update_scroll(
    offsets: &mut (i64, i64),
    dragging: (bool, bool),
    in_scrollbar: (bool, bool),
    delta: (i64, i64),
    content: (u32, u32),
    view: (u32, u32),
)
    ensures
        final(offsets).0 == clamp_spec(
            old(offsets).0 + if dragging.0 && in_scrollbar.0 { delta.0 as int } else { 0 },
            content.0 as int,
            view.0 as int,
        ),
        final(offsets).1 == clamp_spec(
            old(offsets).1 + if dragging.1 && in_scrollbar.1 { delta.1 as int } else { 0 },
            content.1 as int,
            view.1 as int,
        ),
{
    let x = offsets.0 as i128 + if dragging.0 && in_scrollbar.0 { delta.0 as i128 } else { 0 };
    let y = offsets.1 as i128 + if dragging.1 && in_scrollbar.1 { delta.1 as i128 } else { 0 };
    let xc = if x < 0 { 0 } else if x > i64::MAX as i128 { i64::MAX } else { x as i64 };
    let yc = if y < 0 { 0 } else if y > i64::MAX as i128 { i64::MAX } else { y as i64 };
    offsets.0 = clamp_scroll(xc, content.0, view.0);
    offsets.1 = clamp_scroll(yc, content.1, view.1);
}

/// Number of tiles of size `tile` along one axis that meet the window
/// [offset, offset + view).
pub open spec fn tile_count(offset: int, view: int, tile: int) -> int {
    if view <= 0 {
        0
    } else {
        (offset + view - 1) / tile - offset / tile + 1
    }
}

/// The tile in row `i` and column `j` of the tiles meeting the window.
pub open spec fn grid_tile(offsets: (i64, i64), tile_w: u32, tile_h: u32, i: int, j: int) -> Rect {
    Rect {
        x0: ((offsets.0 as int / tile_w as int + j) * tile_w) as i64,
        y0: ((offsets.1 as int / tile_h as int + i) * tile_h) as i64,
        w: tile_w,
        h: tile_h,
    }
}

/// Tile `k`, row by row, of the tiles meeting a window `view_w` pixels wide.
pub open spec fn visible_tile(offsets: (i64, i64), view_w: u32, tile_w: u32, tile_h: u32, k: int) -> Rect {
    let nx = tile_count(offsets.0 as int, view_w as int, tile_w as int);
    grid_tile(offsets, tile_w, tile_h, k / nx, k % nx)
}

/// The tiles of the content's tile grid that meet the window of `view_w` by
/// `view_h` pixels at `offsets`, row by row.
pub fn visible_tiles(view_w: u32, view_h: u32, offsets: (i64, i64), tile_w: u32, tile_h: u32) -> (r: Vec<Rect>)
    requires
        tile_w > 0,
        tile_h > 0,
        offsets.0 >= 0,
        offsets.1 >= 0,
        offsets.0 + view_w <= i64::MAX,
        offsets.1 + view_h <= i64::MAX,
    ensures
        forall|k: int| 0 <= k < r@.len() ==> (#[trigger] r@[k]).w == tile_w && r@[k].h == tile_h,
        forall|k: int| 0 <= k < r@.len() ==> #[trigger] r@[k] == visible_tile(offsets, view_w, tile_w, tile_h, k),
        r@.len() == tile_count(offsets.0 as int, view_w as int, tile_w as int) * tile_count(
            offsets.1 as int,
            view_h as int,
            tile_h as int,
        ),
        forall|i: int, j: int|
            0 <= i < tile_count(offsets.1 as int, view_h as int, tile_h as int) && 0 <= j < tile_count(
                offsets.0 as int,
                view_w as int,
                tile_w as int,
            ) ==> r@[i * tile_count(offsets.0 as int, view_w as int, tile_w as int) + j] == grid_tile(
                offsets,
                tile_w,
                tile_h,
                i,
                j,
            ),
{
    let mut r: Vec<Rect> = Vec::new();
    if view_w == 0 || view_h == 0 {
        assert(tile_count(offsets.0 as int, view_w as int, tile_w as int) * tile_count(
            offsets.1 as int,
            view_h as int,
            tile_h as int,
        ) == 0) by (nonlinear_arith)
            requires
                view_w == 0 || view_h == 0,
                tile_count(offsets.0 as int, view_w as int, tile_w as int) == 0 || tile_count(
                    offsets.1 as int,
                    view_h as int,
                    tile_h as int,
                ) == 0;
        return r;
    }
    let (ox, oy) = offsets;
    let fx = ox / tile_w as i64;
    let lx = (ox + view_w as i64 - 1) / tile_w as i64;
    let fy = oy / tile_h as i64;
    let ly = (oy + view_h as i64 - 1) / tile_h as i64;
    let ghost nx = tile_count(ox as int, view_w as int, tile_w as int);
    let ghost ny = tile_count(oy as int, view_h as int, tile_h as int);
    proof {
        assert(fx <= lx) by (nonlinear_arith)
            requires fx == ox as int / tile_w as int, lx == (ox as int + view_w - 1) / tile_w as int, tile_w > 0, view_w > 0, ox >= 0;
        assert(fy <= ly) by (nonlinear_arith)
            requires fy == oy as int / tile_h as int, ly == (oy as int + view_h - 1) / tile_h as int, tile_h > 0, view_h > 0, oy >= 0;
        assert(lx * tile_w <= ox + view_w - 1) by (nonlinear_arith)
            requires lx == (ox as int + view_w - 1) / tile_w as int, tile_w > 0, ox + view_w - 1 >= 0;
        assert(ly * tile_h <= oy + view_h - 1) by (nonlinear_arith)
            requires ly == (oy as int + view_h - 1) / tile_h as int, tile_h > 0, oy + view_h - 1 >= 0;
        assert(lx >= 0 && ly >= 0) by (nonlinear_arith)
            requires lx == (ox as int + view_w - 1) / tile_w as int, ly == (oy as int + view_h - 1) / tile_h as int, tile_w > 0, tile_h > 0, ox >= 0, oy >= 0, view_w > 0, view_h > 0;
        assert(lx <= lx * tile_w && ly <= ly * tile_h) by (nonlinear_arith)
            requires tile_w > 0, tile_h > 0, lx >= 0, ly >= 0;
        assert(fx >= 0 && fy >= 0) by (nonlinear_arith)
            requires fx == ox as int / tile_w as int, fy == oy as int / tile_h as int, tile_w > 0, tile_h > 0, ox >= 0, oy >= 0;
    }
    let mut ty: i64 = fy;
    while ty <= ly
        invariant
            fy <= ty <= ly + 1,
            0 <= fx <= lx,
            0 <= fy <= ly,
            nx == lx - fx + 1,
            ny == ly - fy + 1,
            fx == ox as int / tile_w as int,
            fy == oy as int / tile_h as int,
            ox == offsets.0 && oy == offsets.1,
            lx * tile_w <= i64::MAX,
            ly * tile_h <= i64::MAX,
            lx < i64::MAX,
            ly < i64::MAX,
            tile_w > 0,
            tile_h > 0,
            r@.len() == (ty - fy) * nx,
            forall|k: int| 0 <= k < r@.len() ==> #[trigger] r@[k] == grid_tile(offsets, tile_w, tile_h, k / nx, k % nx),
        decreases ly + 1 - ty,
    {
        let mut tx: i64 = fx;
        while tx <= lx
            invariant
                fy <= ty <= ly,
                fx <= tx <= lx + 1,
                0 <= fx <= lx,
                0 <= fy,
                lx < i64::MAX,
                ly < i64::MAX,
                nx == lx - fx + 1,
                fx == ox as int / tile_w as int,
                fy == oy as int / tile_h as int,
                ox == offsets.0 && oy == offsets.1,
                lx * tile_w <= i64::MAX,
                ly * tile_h <= i64::MAX,
                tile_w > 0,
                tile_h > 0,
                r@.len() == (ty - fy) * nx + (tx - fx),
                forall|k: int| 0 <= k < r@.len() ==> #[trigger] r@[k] == grid_tile(offsets, tile_w, tile_h, k / nx, k % nx),
            decreases lx + 1 - tx,
        {
            proof {
                assert(tx * tile_w <= lx * tile_w) by (nonlinear_arith)
                    requires tx <= lx, tile_w > 0;
                assert(ty * tile_h <= ly * tile_h) by (nonlinear_arith)
                    requires ty <= ly, tile_h > 0;
                assert(tx * tile_w >= 0 && ty * tile_h >= 0) by (nonlinear_arith)
                    requires tx >= 0, ty >= 0;
                lemma_fundamental_div_mod_converse(r@.len() as int, nx, ty - fy, tx - fx);
            }
            let rect = Rect { x0: tx * tile_w as i64, y0: ty * tile_h as i64, w: tile_w, h: tile_h };
            let ghost len = r@.len() as int;
            assert((offsets.0 as int / tile_w as int + (tx - fx)) * tile_w == tx * tile_w);
            assert((offsets.1 as int / tile_h as int + (ty - fy)) * tile_h == ty * tile_h);
            assert(rect == grid_tile(offsets, tile_w, tile_h, ty - fy, tx - fx));
            assert(len / nx == ty - fy && len % nx == tx - fx);
            r.push(rect);
            assert(r@[len] == grid_tile(offsets, tile_w, tile_h, len / nx, len % nx));
            tx = tx + 1;
        }
        proof {
            assert((ty - fy) * nx + nx == (ty + 1 - fy) * nx) by (nonlinear_arith);
        }
        ty = ty + 1;
    }
    proof {
        assert forall|i: int, j: int| 0 <= i < ny && 0 <= j < nx implies r@[i * nx + j] == grid_tile(offsets, tile_w, tile_h, i, j) by {
            assert(0 <= i * nx + j < ny * nx) by (nonlinear_arith)
                requires 0 <= i < ny, 0 <= j < nx;
            lemma_fundamental_div_mod_converse(i * nx + j, nx, i, j);
        }
        assert(nx * ny == ny * nx) by (nonlinear_arith);
    }
    r
}

/// Content point shown at destination pixel (px, py) of `viewport`.
pub open spec fn content_point(viewport: Rect, offsets: (i64, i64), px: int, py: int) -> (int, int) {
    (px - viewport.x0 + offsets.0, py - viewport.y0 + offsets.1)
}

/// The color of destination pixel (px, py) once `tile`, rendered for the
/// content rectangle `tile_rect`, is copied into `viewport` scrolled by
/// `offsets`: pixels of the viewport that show a point of the tile take the
/// tile's color, the others keep theirs.
pub open spec fn blit_pixel(cur: Color, tile: &Framebuffer, tile_rect: Rect, viewport: Rect, offsets: (i64, i64), px: int, py: int) -> Color {
    let (cx, cy) = content_point(viewport, offsets, px, py);
    let (tx, ty) = (cx - tile_rect.x0, cy - tile_rect.y0);
    if viewport.contains_spec(px, py) && in_bounds(tile.w, tile.h, tx, ty) {
        tile.pixel(tx, ty)
    } else {
        cur
    }
}

/// Copies the part of `tile` that shows in `viewport` into `dst`.
pub fn blit_tile(dst: &mut Framebuffer, tile: &Framebuffer, tile_rect: &Rect, viewport: &Rect, offsets: (i64, i64))
    requires
        old(dst).wf(),
        tile.wf(),
    ensures
        final(dst).wf(),
        final(dst).w == old(dst).w && final(dst).h == old(dst).h,
        forall|px: int, py: int| in_bounds(final(dst).w, final(dst).h, px, py) ==> #[trigger] final(dst).pixel(px, py)
            == blit_pixel(old(dst).pixel(px, py), tile, *tile_rect, *viewport, offsets, px, py),
{
    let ghost old_dst = *dst;
    // Destination of tile pixel (tx, ty): viewport origin + tile origin + (tx, ty) - offsets.
    let bx = viewport.x0 as i128 + tile_rect.x0 as i128 - offsets.0 as i128;
    let by = viewport.y0 as i128 + tile_rect.y0 as i128 - offsets.1 as i128;
    let mut ty: u32 = 0;
    while ty < tile.h
        invariant
            dst.wf(),
            tile.wf(),
            dst.w == old_dst.w && dst.h == old_dst.h,
            ty <= tile.h,
            bx == viewport.x0 + tile_rect.x0 - offsets.0,
            by == viewport.y0 + tile_rect.y0 - offsets.1,
            forall|px: int, py: int| in_bounds(dst.w, dst.h, px, py) ==> #[trigger] dst.pixel(px, py) == if py - by < ty {
                blit_pixel(old_dst.pixel(px, py), tile, *tile_rect, *viewport, offsets, px, py)
            } else {
                old_dst.pixel(px, py)
            },
        decreases tile.h - ty,
    {
        let py = by + ty as i128;
        let mut tx: u32 = 0;
        while tx < tile.w
            invariant
                dst.wf(),
                tile.wf(),
                dst.w == old_dst.w && dst.h == old_dst.h,
                tx <= tile.w,
                ty < tile.h,
                py == by + ty,
                bx == viewport.x0 + tile_rect.x0 - offsets.0,
                by == viewport.y0 + tile_rect.y0 - offsets.1,
                forall|px: int, qy: int| in_bounds(dst.w, dst.h, px, qy) ==> #[trigger] dst.pixel(px, qy) == if qy < py || (qy == py && px - bx < tx) {
                    blit_pixel(old_dst.pixel(px, qy), tile, *tile_rect, *viewport, offsets, px, qy)
                } else {
                    old_dst.pixel(px, qy)
                },
            decreases tile.w - tx,
        {
            let px = bx + tx as i128;
            let inside_view = viewport.x0 as i128 <= px && px < viewport.x0 as i128 + viewport.w as i128
                && viewport.y0 as i128 <= py && py < viewport.y0 as i128 + viewport.h as i128;
            if inside_view && 0 <= px && px < dst.w as i128 && 0 <= py && py < dst.h as i128 {
                let c = tile.get_pixel(tx as i64, ty as i64).unwrap();
                dst.set_pixel(px as i64, py as i64, c);
            }
            tx = tx + 1;
        }
        ty = ty + 1;
    }
}

/// A tile of `w` by `h` pixels, filled with `color` when it lies outside the
/// content, drawn by `render` otherwise.
fn make_tile<G: Fn(&Rect) -> Framebuffer>(render: &G, tile_rect: &Rect, outside: bool, color: Color) -> (t: Framebuffer)
    requires
        tile_rect.w as int * tile_rect.h as int <= usize::MAX,
        forall|r: &Rect| render.requires((r,)),
    ensures
        t.wf(),
        t.w == tile_rect.w && t.h == tile_rect.h,
{
    if outside {
        let mut t = Framebuffer::new(tile_rect.w, tile_rect.h);
        t.fill(color);
        t
    } else {
        let t = render(tile_rect);
        if t.w == tile_rect.w && t.h == tile_rect.h && t.pixels.len() as u128 == t.w as u128 * t.h as u128 {
            t
        } else {
            // A tile of the wrong shape is replaced by a blank one.
            let mut blank = Framebuffer::new(tile_rect.w, tile_rect.h);
            blank.fill(color);
            blank
        }
    }
}

/// `id` identifies `tile`: the placeholder identity for a tile outside the
/// content, else an identity `content_id` gives for it.
pub open spec fn tile_id_ok<F: Fn(Rect) -> u64>(content_id: &F, tile: Rect, content: Rect, placeholder_color: Color, id: u64) -> bool {
    if tile.overlaps_spec(&content) {
        content_id.ensures((tile,), id)
    } else {
        id == placeholder_id_spec(tile.w, tile.h, placeholder_color)
    }
}

/// The color of pixel (px, py) over `cur` once the tiles stored under `ids`
/// are copied, in order, for the visible tiles of the same rank.
pub open spec fn canvas_pixel(
    cur: Color,
    cache: Map<u64, CacheEntry>,
    ids: Seq<u64>,
    viewport: Rect,
    offsets: (i64, i64),
    tile_shape: (u32, u32),
    px: int,
    py: int,
) -> Color
    decreases ids.len(),
{
    if ids.len() == 0 {
        cur
    } else {
        blit_pixel(
            canvas_pixel(cur, cache, ids.drop_last(), viewport, offsets, tile_shape, px, py),
            &cache[ids.last()].tile,
            visible_tile(offsets, viewport.w, tile_shape.0, tile_shape.1, ids.len() - 1),
            viewport,
            offsets,
            px,
            py,
        )
    }
}

/// A composite is done: `ids` names, for every visible tile in order, the
/// cached tile of its identity, and `fb` is `old_fb` with those tiles copied in.
pub open spec fn canvas_done<F: Fn(Rect) -> u64>(
    old_fb: Framebuffer,
    fb: Framebuffer,
    cache: Map<u64, CacheEntry>,
    ids: Seq<u64>,
    content_id: &F,
    viewport: Rect,
    offsets: (i64, i64),
    tile_shape: (u32, u32),
    content: Rect,
    placeholder_color: Color,
) -> bool {
    &&& ids.len() == tile_count(offsets.0 as int, viewport.w as int, tile_shape.0 as int) * tile_count(
        offsets.1 as int,
        viewport.h as int,
        tile_shape.1 as int,
    )
    &&& forall|k: int| 0 <= k < ids.len() ==> cache.contains_key(#[trigger] ids[k]) && tile_id_ok(
        content_id,
        visible_tile(offsets, viewport.w, tile_shape.0, tile_shape.1, k),
        content,
        placeholder_color,
        ids[k],
    )
    &&& forall|px: int, py: int| in_bounds(fb.w, fb.h, px, py) ==> #[trigger] fb.pixel(px, py) == canvas_pixel(
        old_fb.pixel(px, py),
        cache,
        ids,
        viewport,
        offsets,
        tile_shape,
        px,
        py,
    )
}

proof fn lemma_canvas_pixel_stable(
    cur: Color,
    c1: Map<u64, CacheEntry>,
    c2: Map<u64, CacheEntry>,
    ids: Seq<u64>,
    viewport: Rect,
    offsets: (i64, i64),
    tile_shape: (u32, u32),
    px: int,
    py: int,
)
    requires
        forall|k: int| 0 <= k < ids.len() ==> c1[#[trigger] ids[k]].tile == c2[ids[k]].tile,
    ensures
        canvas_pixel(cur, c1, ids, viewport, offsets, tile_shape, px, py) == canvas_pixel(
            cur,
            c2,
            ids,
            viewport,
            offsets,
            tile_shape,
            px,
            py,
        ),
    decreases ids.len(),
{
    if ids.len() > 0 {
        assert(c1[ids[ids.len() - 1]].tile == c2[ids[ids.len() - 1]].tile);
        lemma_canvas_pixel_stable(cur, c1, c2, ids.drop_last(), viewport, offsets, tile_shape, px, py);
    }
}

/// Composites a scrollable view of a content into `viewport` of `fb`.
///
/// The scroll offsets first follow the pointer (see `update_scroll`) and are
/// clamped to the content. Then every tile of the content's grid that shows
/// in the viewport is fetched from `cache` by its content identity, rendered
/// only on a miss, and copied into place. A tile lying outside the content is
/// a flat fill of `placeholder_color`, identified by its size and that color.
/// A tile shape that is empty, or too large to allocate, draws nothing.
pub fn dynamic_canvas<F: Fn(Rect) -> u64, G: Fn(&Rect) -> Framebuffer>(
    fb: &mut Framebuffer,
    cache: &mut TileCache,
    time: u64,
    viewport: &Rect,
    content_shape: (u32, u32),
    tile_shape: (u32, u32),
    content_id: &F,
    render: &G,
    offsets: &mut (i64, i64),
    dragging: (bool, bool),
    in_scrollbar: (bool, bool),
    delta: (i64, i64),
    placeholder_color: Color,
)
    requires
        old(fb).wf(),
        old(cache).wf(),
        forall|r: Rect| content_id.requires((r,)),
        forall|r: &Rect| render.requires((r,)),
    ensures
        final(fb).wf(),
        final(fb).w == old(fb).w && final(fb).h == old(fb).h,
        final(cache).wf(),
        final(offsets).0 == clamp_spec(
            old(offsets).0 + if dragging.0 && in_scrollbar.0 { delta.0 as int } else { 0 },
            content_shape.0 as int,
            viewport.w as int,
        ),
        final(offsets).1 == clamp_spec(
            old(offsets).1 + if dragging.1 && in_scrollbar.1 { delta.1 as int } else { 0 },
            content_shape.1 as int,
            viewport.h as int,
        ),
        !(tile_shape.0 > 0 && tile_shape.1 > 0 && tile_shape.0 as int * tile_shape.1 as int <= usize::MAX)
            ==> *final(fb) == *old(fb) && *final(cache) == *old(cache),
        tile_shape.0 > 0 && tile_shape.1 > 0 && tile_shape.0 as int * tile_shape.1 as int <= usize::MAX
            ==> exists|ids: Seq<u64>|
            #[trigger] canvas_done(
                *old(fb),
                *final(fb),
                final(cache)@,
                ids,
                content_id,
                *viewport,
                *final(offsets),
                tile_shape,
                Rect { x0: 0, y0: 0, w: content_shape.0, h: content_shape.1 },
                placeholder_color,
            ),
{
    update_scroll(offsets, dragging, in_scrollbar, delta, content_shape, (viewport.w, viewport.h));
    let (tw, th) = tile_shape;
    assert(tw as u128 * th as u128 <= 0xffff_ffffu128 * 0xffff_ffffu128) by (nonlinear_arith)
        requires tw <= 0xffff_ffffu128, th <= 0xffff_ffffu128;
    if tw == 0 || th == 0 || tw as u128 * th as u128 > usize::MAX as u128 {
        return;
    }
    let offs = *offsets;
    let tiles = visible_tiles(viewport.w, viewport.h, offs, tw, th);
    let content_rect = Rect { x0: 0, y0: 0, w: content_shape.0, h: content_shape.1 };
    let n = tiles.len();
    let ghost old_fb = *fb;
    let ghost mut ids: Seq<u64> = seq![];
    let mut i: usize = 0;
    while i < n
        invariant
            n == tiles@.len(),
            i <= n,
            fb.wf(),
            fb.w == old_fb.w && fb.h == old_fb.h,
            cache.wf(),
            *offsets == offs,
            tile_shape == (tw, th),
            content_rect == (Rect { x0: 0, y0: 0, w: content_shape.0, h: content_shape.1 }),
            forall|k: int| 0 <= k < tiles@.len() ==> (#[trigger] tiles@[k]).w == tw && tiles@[k].h == th,
            forall|k: int| 0 <= k < tiles@.len() ==> #[trigger] tiles@[k] == visible_tile(offs, viewport.w, tw, th, k),
            tw as int * th as int <= usize::MAX,
            forall|r: Rect| content_id.requires((r,)),
            forall|r: &Rect| render.requires((r,)),
            ids.len() == i,
            forall|k: int| 0 <= k < ids.len() ==> cache@.contains_key(#[trigger] ids[k]) && tile_id_ok(
                content_id,
                visible_tile(offs, viewport.w, tw, th, k),
                content_rect,
                placeholder_color,
                ids[k],
            ),
            forall|px: int, py: int| in_bounds(fb.w, fb.h, px, py) ==> #[trigger] fb.pixel(px, py) == canvas_pixel(
                old_fb.pixel(px, py),
                cache@,
                ids,
                *viewport,
                offs,
                tile_shape,
                px,
                py,
            ),
        decreases n - i,
    {
        let tile_rect = tiles[i];
        let outside = tile_rect.intersection(&content_rect).is_none();
        let id = if outside {
            placeholder_id(tw, th, placeholder_color)
        } else {
            content_id(tile_rect)
        };
        let compute = || -> (t: Framebuffer)
            requires
                tile_rect.w as int * tile_rect.h as int <= usize::MAX,
            ensures
                t.wf(),
            {
                let t = make_tile(render, &tile_rect, outside, placeholder_color);
                t
            };
        let ghost before = cache@;
        let ghost fb_before = *fb;
        let tile = cache.fetch_or_create(id, time, compute);
        blit_tile(fb, tile, &tile_rect, viewport, offs);
        let ghost after = cache@;
        proof {
            assert forall|j: u64| before.contains_key(j) implies after.contains_key(j) && #[trigger] after[j].tile
                == before[j].tile by {
                if before.contains_key(id) {
                    assert(fetch_hit(before, after, id, time));
                    assert(after.dom().contains(j));
                }
            }
        }
        proof {
            let new_ids = ids.push(id);
            assert(new_ids.drop_last() =~= ids);
            assert forall|px: int, py: int| in_bounds(fb.w, fb.h, px, py) implies #[trigger] fb.pixel(px, py)
                == canvas_pixel(old_fb.pixel(px, py), after, new_ids, *viewport, offs, tile_shape, px, py) by {
                lemma_canvas_pixel_stable(old_fb.pixel(px, py), before, after, ids, *viewport, offs, tile_shape, px, py);
                assert(fb_before.pixel(px, py) == canvas_pixel(old_fb.pixel(px, py), before, ids, *viewport, offs, tile_shape, px, py));
            }
            assert forall|k: int| 0 <= k < new_ids.len() implies after.contains_key(#[trigger] new_ids[k]) && tile_id_ok(
                content_id,
                visible_tile(offs, viewport.w, tw, th, k),
                content_rect,
                placeholder_color,
                new_ids[k],
            ) by {
                if k < ids.len() {
                    assert(new_ids[k] == ids[k]);
                    assert(before.contains_key(ids[k]));
                } else {
                    assert(tiles@[i as int] == visible_tile(offs, viewport.w, tw, th, k));
                }
            }
            ids = new_ids;
        }
        i = i + 1;
    }
    proof {
        let nx = tile_count(offs.0 as int, viewport.w as int, tw as int);
        let ny = tile_count(offs.1 as int, viewport.h as int, th as int);
        assert(canvas_done(old_fb, *fb, cache@, ids, content_id, *viewport, offs, tile_shape, content_rect, placeholder_color));
    }
}

/// Identity of a tile lying outside the content: it depends on the tile's
/// size and the fill color alone.
pub open spec fn placeholder_id_spec(w: u32, h: u32, color: Color) -> u64 {
    hash_words(seq![w as u64, h as u64, color.r as u64, color.g as u64, color.b as u64, color.a as u64])
}

pub fn placeholder_id(w: u32, h: u32, color: Color) -> (r: u64)
    ensures
        r == placeholder_id_spec(w, h, color),
{
    let words = [w as u64, h as u64, color.r as u64, color.g as u64, color.b as u64, color.a as u64];
    let r = compute_hash_words(&words);
    assert(words@ =~= seq![w as u64, h as u64, color.r as u64, color.g as u64, color.b as u64, color.a as u64]);
    r
}

} // verus!
