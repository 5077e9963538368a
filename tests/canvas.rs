use std::cell::Cell;

use applib::canvas::{blit_tile, clamp_scroll, dynamic_canvas, placeholder_id, update_scroll, visible_tiles};
use applib::color::Color;
use applib::framebuffer::Framebuffer;
use applib::geometry::Rect;
use applib::tile_cache::TileCache;

fn filled(w: u32, h: u32, c: Color) -> Framebuffer {
    let mut fb = Framebuffer::new(w, h);
    fb.fill(c);
    fb
}

#[test]
fn scenario_scroll_at_end_of_content() {
    assert_eq!(clamp_scroll(450, 500, 50), 450);
    assert_eq!(clamp_scroll(600, 500, 50), 450);
    let tiles = visible_tiles(100, 50, (0, 450), 100, 200);
    assert_eq!(tiles, vec![Rect { x0: 0, y0: 400, w: 100, h: 200 }]);
}

#[test]
fn clamp_scroll_bounds() {
    assert_eq!(clamp_scroll(-5, 500, 50), 0);
    assert_eq!(clamp_scroll(30, 40, 50), 0);
    assert_eq!(clamp_scroll(7, 500, 50), 7);
}

#[test]
fn visible_tiles_span_rows_and_columns() {
    let tiles = visible_tiles(100, 100, (150, 150), 100, 100);
    assert_eq!(
        tiles,
        vec![
            Rect { x0: 100, y0: 100, w: 100, h: 100 },
            Rect { x0: 200, y0: 100, w: 100, h: 100 },
            Rect { x0: 100, y0: 200, w: 100, h: 100 },
            Rect { x0: 200, y0: 200, w: 100, h: 100 },
        ]
    );
    assert!(visible_tiles(0, 100, (0, 0), 10, 10).is_empty());
}

#[test]
fn drag_moves_and_clamps() {
    let mut offsets = (0i64, 100i64);
    update_scroll(&mut offsets, (false, true), (false, true), (5, 30), (100, 500), (100, 50));
    assert_eq!(offsets, (0, 130));
    update_scroll(&mut offsets, (false, true), (false, false), (0, 30), (100, 500), (100, 50));
    assert_eq!(offsets, (0, 130));
    update_scroll(&mut offsets, (false, true), (false, true), (0, 1000), (100, 500), (100, 50));
    assert_eq!(offsets, (0, 450));
    update_scroll(&mut offsets, (false, true), (false, true), (0, -1000), (100, 500), (100, 50));
    assert_eq!(offsets, (0, 0));
}

#[test]
fn fetch_twice_computes_once() {
    let mut cache = TileCache::new();
    let calls = Cell::new(0);
    let red = Color::rgba(255, 0, 0, 255);
    let first = cache
        .fetch_or_create(42, 1, || {
            calls.set(calls.get() + 1);
            filled(2, 2, red)
        })
        .pixels
        .clone();
    let second = cache
        .fetch_or_create(42, 2, || {
            calls.set(calls.get() + 1);
            filled(2, 2, Color::rgba(0, 0, 255, 255))
        })
        .pixels
        .clone();
    assert_eq!(calls.get(), 1);
    assert_eq!(first, second);
    assert_eq!(cache.len(), 1);
}

#[test]
fn new_hash_creates_new_entry() {
    let mut cache = TileCache::new();
    cache.fetch_or_create(1, 1, || filled(1, 1, Color::rgba(1, 1, 1, 1)));
    cache.fetch_or_create(2, 2, || filled(1, 1, Color::rgba(2, 2, 2, 2)));
    assert_eq!(cache.len(), 2);
    assert!(cache.contains(1) && cache.contains(2));
}

#[test]
fn evict_drops_least_recent() {
    let mut cache = TileCache::new();
    for id in 0..4u64 {
        cache.fetch_or_create(id, 10 + id, || filled(1, 1, Color::rgba(0, 0, 0, 255)));
    }
    // Touch tile 0 again: tile 1 becomes the least recently used.
    cache.fetch_or_create(0, 20, || filled(1, 1, Color::rgba(9, 9, 9, 9)));
    cache.evict(2);
    assert_eq!(cache.len(), 2);
    assert!(cache.contains(0));
    assert!(cache.contains(3));
    assert!(!cache.contains(1));
    assert!(!cache.contains(2));
    cache.evict(5);
    assert_eq!(cache.len(), 2);
}

#[test]
fn blit_copies_visible_part() {
    let mut dst = filled(4, 4, Color::rgba(0, 0, 0, 255));
    let tile = filled(3, 3, Color::rgba(255, 0, 0, 255));
    let viewport = Rect { x0: 1, y0: 1, w: 2, h: 2 };
    blit_tile(&mut dst, &tile, &Rect { x0: 0, y0: 0, w: 3, h: 3 }, &viewport, (2, 2));
    // Content point (2, 2) of the tile shows at destination (1, 1) only.
    assert_eq!(dst.get_pixel(1, 1), Some(Color::rgba(255, 0, 0, 255)));
    assert_eq!(dst.get_pixel(2, 1), Some(Color::rgba(0, 0, 0, 255)));
    assert_eq!(dst.get_pixel(0, 0), Some(Color::rgba(0, 0, 0, 255)));
}

#[test]
fn canvas_renders_content_and_placeholder() {
    let mut fb = filled(4, 4, Color::rgba(0, 0, 0, 255));
    let mut cache = TileCache::new();
    let renders = Cell::new(0);
    let green = Color::rgba(0, 255, 0, 255);
    let grey = Color::rgba(50, 50, 50, 255);
    let id = |r: Rect| (r.y0 as u64) + 1000;
    let render = |r: &Rect| {
        renders.set(renders.get() + 1);
        filled(r.w, r.h, green)
    };
    let mut offsets = (0i64, 0i64);
    // Content of 4 by 2 pixels, tiles of 4 by 2: the second row of tiles is outside.
    dynamic_canvas(
        &mut fb, &mut cache, 1, &Rect { x0: 0, y0: 0, w: 4, h: 4 }, (4, 2), (4, 2), &id, &render,
        &mut offsets, (false, false), (false, false), (0, 0), grey,
    );
    assert_eq!(renders.get(), 1);
    assert_eq!(fb.get_pixel(0, 0), Some(green));
    assert_eq!(fb.get_pixel(3, 3), Some(grey));
    assert!(cache.contains(placeholder_id(4, 2, grey)));
    dynamic_canvas(
        &mut fb, &mut cache, 2, &Rect { x0: 0, y0: 0, w: 4, h: 4 }, (4, 2), (4, 2), &id, &render,
        &mut offsets, (false, false), (false, false), (0, 0), grey,
    );
    assert_eq!(renders.get(), 1);
    assert_eq!(cache.len(), 2);
}
