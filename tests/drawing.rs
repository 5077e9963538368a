use applib::color::{blend_colors, Color};
use applib::draw::{compute_text_bbox, draw_char, draw_line_in_rect, draw_rect, draw_rich_slice, draw_str};
use applib::font::{get_font, Font, FontFamily, FontRegistry};
use applib::framebuffer::Framebuffer;
use applib::geometry::Rect;
use applib::hash::compute_hash;
use applib::layout::TextJustification;
use applib::rich_text::RichChar;
use applib::stylesheet::{StyleSheetText, TextSizes};

/// A 2x2 font whose glyph for 'A' (index 33) has its top-left pixel set.
fn tiny_font(size: u32) -> Font {
    let nb = 95usize;
    let (w, h) = (2usize, 2usize);
    let mut bitmap = vec![0u8; nb * w * h];
    bitmap[33 * w] = 200;
    Font::new(format!("Tiny-{}", size), size, bitmap, nb, h as u32, w as u32, 1).unwrap()
}

fn black_fb(w: u32, h: u32) -> Framebuffer {
    let mut fb = Framebuffer::new(w, h);
    fb.fill(Color::rgba(0, 0, 0, 255));
    fb
}

#[test]
fn font_rejects_bad_bitmap() {
    assert!(Font::new(String::from("x"), 10, vec![0u8; 5], 1, 2, 2, 1).is_none());
    assert!(Font::new(String::from("x"), 10, vec![0u8; 4], 1, 2, 2, 3).is_none());
    assert!(Font::new(String::from("x"), 10, vec![0u8; 4], 1, 2, 2, 1).is_some());
}

#[test]
fn glyph_lookup_substitutes_space() {
    let font = tiny_font(10);
    assert_eq!(Font::glyph_index('A'), 33);
    assert_eq!(Font::glyph_index('\n'), 0);
    assert_eq!(Font::glyph_index('é'), 0);
    assert_eq!(font.coverage('A', 0, 0), 200);
    assert_eq!(font.coverage('A', 1, 0), 0);
    assert_eq!(font.coverage('\u{7f}', 0, 0), 0);
}

#[test]
fn family_sizes_and_lookup() {
    let family = FontFamily::from_font_data(String::from("Tiny"), vec![tiny_font(14), tiny_font(12), tiny_font(14)]);
    assert_eq!(family.get_available_sizes(), vec![12, 14]);
    assert_eq!(family.get_size(12).unwrap().size, 12);
    assert!(family.get_size(16).is_none());
    let registry = FontRegistry { families: vec![family] };
    assert_eq!(get_font(&registry, "Tiny", 14).unwrap().size, 14);
    assert!(get_font(&registry, "Tiny", 20).is_none());
    assert!(get_font(&registry, "Other", 14).is_none());
    assert!(get_font(&registry, "Tiny", 12).is_some());
}

#[test]
fn blend_exact_values() {
    let c = blend_colors(Color::rgba(255, 0, 0, 128), Color::rgba(0, 0, 255, 255));
    assert_eq!(c, Color::rgba(128, 0, 127, 255));
    assert_eq!(Color::rgba(10, 20, 30, 40).invert(), Color::rgba(245, 235, 225, 40));
}

#[test]
fn draw_char_paints_covered_pixels() {
    let font = tiny_font(10);
    let mut fb = black_fb(4, 4);
    draw_char(&mut fb, 'A', 1, 1, &font, Color::rgba(255, 255, 255, 255), false);
    assert_eq!(fb.get_pixel(1, 1), Some(Color::rgba(255, 255, 255, 200)));
    assert_eq!(fb.get_pixel(2, 1), Some(Color::rgba(0, 0, 0, 255)));
    let mut fb = black_fb(4, 4);
    draw_char(&mut fb, 'A', 1, 1, &font, Color::rgba(255, 255, 255, 255), true);
    assert_eq!(fb.get_pixel(1, 1), Some(Color::rgba(200, 200, 200, 255)));
    // Partly outside the buffer: nothing breaks.
    draw_char(&mut fb, 'A', -1, 3, &font, Color::rgba(255, 255, 255, 255), true);
    assert_eq!(fb.get_pixel(0, 3), Some(Color::rgba(0, 0, 0, 255)));
}

#[test]
fn draw_str_places_cells_side_by_side() {
    let font = tiny_font(10);
    let mut fb = black_fb(6, 2);
    draw_str(&mut fb, "AA", 1, 0, &font, Color::rgba(255, 255, 255, 255), Some(Color::rgba(0, 0, 255, 255)));
    assert_eq!(fb.get_pixel(1, 0), Some(Color::rgba(200, 200, 255, 255)));
    assert_eq!(fb.get_pixel(3, 0), Some(Color::rgba(200, 200, 255, 255)));
    assert_eq!(fb.get_pixel(2, 0), Some(Color::rgba(0, 0, 255, 255)));
    assert_eq!(fb.get_pixel(5, 0), Some(Color::rgba(0, 0, 0, 255)));
}

#[test]
fn draw_line_in_rect_returns_extent() {
    let font = tiny_font(10);
    let mut fb = black_fb(20, 10);
    let rect = Rect { x0: 0, y0: 0, w: 20, h: 6 };
    // pad_y = (6 - 2) / 2 = 2, pad_x = 2 + (2 - 1) = 3.
    assert_eq!(draw_line_in_rect(&mut fb, "AA", &rect, &font, Color::rgba(255, 255, 255, 255), TextJustification::Left), (3, 7));
    assert_eq!(fb.get_pixel(3, 2), Some(Color::rgba(200, 200, 200, 255)));
    assert_eq!(draw_line_in_rect(&mut fb, "AA", &rect, &font, Color::rgba(255, 255, 255, 255), TextJustification::Center), (8, 12));
    assert_eq!(draw_line_in_rect(&mut fb, "AA", &rect, &font, Color::rgba(255, 255, 255, 255), TextJustification::Right), (13, 17));
}

#[test]
fn draw_rich_slice_aligns_baselines() {
    let small: &'static Font = Box::leak(Box::new(tiny_font(10)));
    let bitmap = {
        let mut b = vec![0u8; 95 * 2 * 4];
        b[33 * 2] = 255;
        b
    };
    let tall: &'static Font = Box::leak(Box::new(Font::new(String::from("Tall"), 12, bitmap, 95, 4, 2, 3).unwrap()));
    let white = Color::rgba(255, 255, 255, 255);
    let chars = [
        RichChar { c: 'A', color: white, font: small, link_id: None },
        RichChar { c: 'A', color: white, font: tall, link_id: None },
    ];
    let mut fb = black_fb(6, 6);
    draw_rich_slice(&mut fb, &chars, 0, 0);
    // The small glyph is lowered by 3 - 1 = 2 pixels.
    assert_eq!(fb.get_pixel(0, 2), Some(Color::rgba(200, 200, 200, 255)));
    assert_eq!(fb.get_pixel(2, 0), Some(white));
    assert_eq!(fb.get_pixel(0, 0), Some(Color::rgba(0, 0, 0, 255)));
}

#[test]
fn text_bbox_and_rect_fill() {
    let font = tiny_font(10);
    assert_eq!(compute_text_bbox("abc", &font), (6, 2));
    let mut fb = black_fb(3, 3);
    draw_rect(&mut fb, &Rect { x0: 1, y0: 1, w: 5, h: 5 }, Color::rgba(1, 2, 3, 255), false);
    assert_eq!(fb.get_pixel(2, 2), Some(Color::rgba(1, 2, 3, 255)));
    assert_eq!(fb.get_pixel(0, 0), Some(Color::rgba(0, 0, 0, 255)));
    assert_eq!(fb.get_pixel(3, 0), None);
}

#[test]
fn framebuffer_out_of_bounds_is_ignored() {
    let mut fb = black_fb(2, 2);
    fb.set_pixel(5, 5, Color::rgba(9, 9, 9, 9));
    fb.set_pixel(-1, 0, Color::rgba(9, 9, 9, 9));
    assert_eq!(fb.get_pixel(-1, 0), None);
    assert_eq!(fb.shape(), (2, 2));
    fb.set_pixel(1, 0, Color::rgba(9, 9, 9, 9));
    assert_eq!(fb.get_pixel(1, 0), Some(Color::rgba(9, 9, 9, 9)));
}

#[test]
fn rect_intersection_and_contains() {
    let a = Rect { x0: 0, y0: 0, w: 10, h: 10 };
    let b = Rect { x0: 5, y0: 8, w: 10, h: 10 };
    assert_eq!(a.intersection(&b), Some(Rect { x0: 5, y0: 8, w: 5, h: 2 }));
    assert_eq!(a.intersection(&Rect { x0: 10, y0: 0, w: 3, h: 3 }), None);
    assert!(a.check_contains_point(9, 9));
    assert!(!a.check_contains_point(10, 9));
    assert_eq!(a.center(), (5, 5));
}

#[test]
fn hash_is_fnv1a() {
    assert_eq!(compute_hash(""), 0xcbf29ce484222325);
    assert_eq!(compute_hash("a"), 0xaf63dc4c8601ec8c);
    assert_ne!(compute_hash("http://x"), compute_hash("http://y"));
}

#[test]
fn stylesheet_text_keeps_family() {
    let t = StyleSheetText::new("NotoSansMono", TextSizes { small: 12, medium: 16, large: 20 });
    assert_eq!(t.font_family(), "NotoSansMono");
    assert_eq!(t.sizes.medium, 16);
}
