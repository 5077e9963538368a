use applib::color::Color;
use applib::font::Font;
use applib::framebuffer::Framebuffer;
use applib::geometry::Rect;
use applib::layout::{format_rich_lines, TextJustification};
use applib::rich_text::RichText;
use applib::text_box::{text_box_frame, text_box_update, TextBoxState, TextRenderer, MIN_TILE_W, TILE_H};
use applib::tile_cache::TileCache;

fn font_10x20() -> &'static Font {
    let font = Font::new(String::from("Box-20"), 20, vec![0u8; 95 * 10 * 20], 95, 20, 10, 16).unwrap();
    Box::leak(Box::new(font))
}

#[test]
fn new_state_defaults() {
    let s = TextBoxState::new();
    assert!(s.content_id.is_none());
    assert_eq!(s.scroll_offsets, (0, 0));
    assert_eq!(s.cursor, 0);
    assert!(s.cursor_visible);
    assert_eq!(s.justif, TextJustification::Left);
}

#[test]
fn click_moves_cursor_and_hover_gives_shadow() {
    let font = font_10x20();
    let text = RichText::from_str("abcd", Color::rgba(0, 0, 0, 255), font, None);
    let f = format_rich_lines(&text, 100, TextJustification::Left);
    let dst = Rect { x0: 10, y0: 10, w: 100, h: 50 };
    let mut s = TextBoxState::new();
    // Pointer over "c" (x 25 in the text), no click.
    let shadow = text_box_update(&mut s, &f, 7, &dst, (35, 15), false, 5000, false, true, false, 0);
    assert_eq!(shadow, Some(2));
    assert_eq!(s.cursor, 0);
    let shadow = text_box_update(&mut s, &f, 7, &dst, (35, 15), true, 5000, false, true, false, 0);
    assert_eq!(shadow, None);
    assert_eq!(s.cursor, 2);
    assert!(s.cursor_visible);
    assert_eq!(s.last_blink_t, 5);
    // With a prelude of 1 character the cursor counts from after it.
    let shadow = text_box_update(&mut s, &f, 7, &dst, (35, 15), false, 5000, false, true, false, 1);
    assert_eq!(shadow, Some(1));
    // The prelude itself cannot take the cursor.
    let shadow = text_box_update(&mut s, &f, 7, &dst, (11, 15), true, 5000, false, true, false, 1);
    assert_eq!(shadow, None);
    assert_eq!(s.cursor, 2);
}

#[test]
fn cursor_blinks_after_period() {
    let font = font_10x20();
    let text = RichText::from_str("a", Color::rgba(0, 0, 0, 255), font, None);
    let f = format_rich_lines(&text, 100, TextJustification::Left);
    let dst = Rect { x0: 0, y0: 0, w: 100, h: 50 };
    let mut s = TextBoxState::new();
    text_box_update(&mut s, &f, 1, &dst, (500, 500), false, 1000, false, true, false, 0);
    assert!(s.cursor_visible);
    text_box_update(&mut s, &f, 1, &dst, (500, 500), false, 2500, false, true, false, 0);
    assert!(!s.cursor_visible);
    assert_eq!(s.last_blink_t, 2);
    text_box_update(&mut s, &f, 1, &dst, (500, 500), false, 2500, false, false, false, 0);
    assert!(!s.cursor_visible);
}

#[test]
fn autoscroll_jumps_to_end_once() {
    let font = font_10x20();
    let text = RichText::from_str("a\nb\nc\nd\ne", Color::rgba(0, 0, 0, 255), font, None);
    let f = format_rich_lines(&text, 100, TextJustification::Left);
    assert_eq!(f.h, 100);
    let dst = Rect { x0: 0, y0: 0, w: 100, h: 50 };
    let mut s = TextBoxState::new();
    text_box_update(&mut s, &f, 9, &dst, (500, 500), false, 0, false, true, true, 0);
    assert_eq!(s.scroll_offsets, (0, 50));
    assert_eq!(s.content_id, Some(9));
    // A text shorter than the box stays at its top.
    let short_text = RichText::from_str("a", Color::rgba(0, 0, 0, 255), font, None);
    let short = format_rich_lines(&short_text, 100, TextJustification::Left);
    let mut s2 = TextBoxState::new();
    text_box_update(&mut s2, &short, 4, &dst, (500, 500), false, 0, false, true, true, 0);
    assert_eq!(s2.scroll_offsets, (0, 0));
    s.scroll_offsets = (0, 3);
    text_box_update(&mut s, &f, 9, &dst, (500, 500), false, 0, false, true, true, 0);
    assert_eq!(s.scroll_offsets, (0, 3));
}

#[test]
fn renderer_shapes_and_ids() {
    let font = font_10x20();
    let text = RichText::from_str("ab", Color::rgba(0, 0, 0, 255), font, None);
    let f = format_rich_lines(&text, 300, TextJustification::Left);
    let bg = Color::rgba(10, 10, 10, 255);
    let r = TextRenderer {
        formatted: f,
        formatted_id: 5,
        bg_color: bg,
        cursor: 1,
        shadow_cursor: None,
        prelude_len: 0,
        cursor_visible: true,
    };
    assert_eq!(r.shape(), (302, 20));
    assert_eq!(r.tile_shape(), (302, TILE_H));
    let inside = Rect { x0: 0, y0: 0, w: 302, h: 200 };
    let beyond1 = Rect { x0: 0, y0: 200, w: 302, h: 200 };
    let beyond2 = Rect { x0: 0, y0: 400, w: 302, h: 200 };
    assert_eq!(r.content_id(&beyond1), r.content_id(&beyond2));
    assert_ne!(r.content_id(&inside), r.content_id(&beyond1));
    let narrow = format_rich_lines(&text, 50, TextJustification::Left);
    let r2 = TextRenderer { formatted: narrow, ..r };
    assert_eq!(r2.tile_shape(), (MIN_TILE_W, TILE_H));
}

#[test]
fn renderer_draws_background_and_cursor() {
    let font = font_10x20();
    let text = RichText::from_str("ab", Color::rgba(0, 0, 0, 255), font, None);
    let f = format_rich_lines(&text, 100, TextJustification::Left);
    let bg = Color::rgba(10, 20, 30, 255);
    let r = TextRenderer {
        formatted: f,
        formatted_id: 5,
        bg_color: bg,
        cursor: 1,
        shadow_cursor: None,
        prelude_len: 0,
        cursor_visible: true,
    };
    let mut fb = Framebuffer::new(102, 200);
    r.render(&mut fb, &Rect { x0: 0, y0: 0, w: 102, h: 200 });
    assert_eq!(fb.get_pixel(50, 50), Some(bg));
    // The cursor before "b" covers x 10..12 over the line's height.
    assert_eq!(fb.get_pixel(10, 5), Some(bg.invert()));
    assert_eq!(fb.get_pixel(11, 19), Some(bg.invert()));
    assert_eq!(fb.get_pixel(12, 5), Some(bg));
}

#[test]
fn scenario_text_box_scrolled_to_end() {
    let font = font_10x20();
    // 25 lines of 20 pixels: 500 pixels of text in a 100x50 box.
    let body = vec!["a"; 25].join("\n");
    let text = RichText::from_str(&body, Color::rgba(0, 0, 0, 255), font, None);
    let dst = Rect { x0: 0, y0: 0, w: 100, h: 50 };
    let mut fb = Framebuffer::new(100, 50);
    let mut cache = TileCache::new();
    let mut state = TextBoxState::new();
    state.scroll_offsets = (0, 450);
    let bg = Color::rgba(1, 2, 3, 255);
    let ok = text_box_frame(
        &mut fb, &mut cache, 0, &dst, &text, 11, None, &mut state, bg, (500, 500), false, false, false, false,
        (false, false), (0, 0),
    );
    assert!(ok);
    assert_eq!(state.scroll_offsets, (0, 450));
    // One tile, the band starting at y = 400, covers rows 450..500.
    assert_eq!(cache.len(), 1);
    assert_eq!(fb.get_pixel(50, 10), Some(bg));
    // An offset past the end is clamped.
    state.scroll_offsets = (0, 600);
    text_box_frame(
        &mut fb, &mut cache, 0, &dst, &text, 11, None, &mut state, bg, (500, 500), false, false, false, false,
        (false, false), (0, 0),
    );
    assert_eq!(state.scroll_offsets, (0, 450));
    assert_eq!(cache.len(), 1);
}

#[test]
fn text_box_frame_with_prelude_autoscrolls() {
    let font = font_10x20();
    let prelude = RichText::from_str(">>> ", Color::rgba(0, 0, 0, 255), font, None);
    let body = vec!["x"; 10].join("\n");
    let text = RichText::from_str(&body, Color::rgba(0, 0, 0, 255), font, None);
    let dst = Rect { x0: 0, y0: 0, w: 100, h: 50 };
    let mut fb = Framebuffer::new(100, 50);
    let mut cache = TileCache::new();
    let mut state = TextBoxState::new();
    let ok = text_box_frame(
        &mut fb, &mut cache, 0, &dst, &text, 3, Some((&prelude, 4)), &mut state, Color::rgba(0, 0, 0, 255),
        (500, 500), false, false, true, true, (false, false), (0, 0),
    );
    assert!(ok);
    // 10 lines of 20 pixels: the end shows.
    assert_eq!(state.scroll_offsets, (0, 150));
    assert!(state.content_id.is_some());
}
