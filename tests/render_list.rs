use applib::color::Color;
use applib::font::Font;
use applib::framebuffer::Framebuffer;
use applib::geometry::Rect;
use applib::layout::{format_rich_lines, TextJustification};
use applib::render_list::{check_text_fits, get_render_rect, hovered_link, html_canvas, render_html, render_rich_text, RenderItem};
use applib::rich_text::RichText;
use applib::tile_cache::TileCache;

fn font_10x20() -> &'static Font {
    let font = Font::new(String::from("Page-20"), 20, vec![0u8; 95 * 10 * 20], 95, 20, 10, 16).unwrap();
    Box::leak(Box::new(font))
}

fn page() -> Vec<RenderItem> {
    let font = font_10x20();
    let mut text = RichText::new();
    text.add_part("ab", Color::rgba(0, 0, 0, 255), font, Some("http://h"));
    text.add_part("cd", Color::rgba(0, 0, 0, 255), font, None);
    let formatted = format_rich_lines(&text, 100, TextJustification::Left);
    vec![
        RenderItem::Text { formatted, origin: (5, 5) },
        RenderItem::Block { rect: Rect { x0: 0, y0: 0, w: 200, h: 100 }, color: Some(Color::rgba(9, 9, 9, 255)) },
    ]
}

#[test]
fn rects_of_items_and_page() {
    let list = page();
    assert_eq!(list[0].get_rect(), Rect { x0: 5, y0: 5, w: 100, h: 20 });
    assert_eq!(get_render_rect(&list), Rect { x0: 0, y0: 0, w: 200, h: 100 });
}

#[test]
fn render_html_draws_blocks_and_skips_side_tiles() {
    let list = page();
    let mut fb = Framebuffer::new(10, 10);
    render_html(&mut fb, &list, &Rect { x0: 0, y0: 50, w: 10, h: 10 });
    assert_eq!(fb.get_pixel(3, 3), Some(Color::rgba(9, 9, 9, 255)));
    let mut fb = Framebuffer::new(10, 10);
    render_html(&mut fb, &list, &Rect { x0: 10, y0: 0, w: 10, h: 10 });
    assert_eq!(fb.get_pixel(3, 3), Some(Color::rgba(0, 0, 0, 0)));
}

#[test]
fn hovered_link_finds_text_link() {
    let list = page();
    let (k, url, underlines) = hovered_link(&list, 7, 10).unwrap();
    assert_eq!(k, 0);
    assert_eq!(url, "http://h");
    assert_eq!(underlines, vec![(18, 0, 20)]);
    // Over "c": no link.
    assert!(hovered_link(&list, 30, 10).is_none());
    // Beside the text.
    assert!(hovered_link(&list, 150, 50).is_none());
}

#[test]
fn html_canvas_underlines_hovered_link() {
    let list = page();
    let mut fb = Framebuffer::new(200, 100);
    let mut cache = TileCache::new();
    let mut offsets = (0i64, 0i64);
    let dst = Rect { x0: 0, y0: 0, w: 200, h: 100 };
    let hovered = html_canvas(
        &mut fb, &mut cache, 1, &list, 77, &dst, &mut offsets, (false, false), (false, false), (0, 0), (7, 10),
    );
    assert_eq!(hovered, Some("http://h"));
    assert_eq!(fb.get_pixel(5, 23), Some(Color::rgba(0, 0, 255, 255)));
    assert_eq!(fb.get_pixel(150, 50), Some(Color::rgba(9, 9, 9, 255)));
    let away = html_canvas(
        &mut fb, &mut cache, 2, &list, 77, &dst, &mut offsets, (false, false), (false, false), (0, 0), (500, 10),
    );
    assert_eq!(away, None);
}

#[test]
fn render_rich_text_places_glyphs() {
    let mut bitmap = vec![0u8; 95 * 2 * 2];
    bitmap[33 * 2] = 200;
    let font: &'static Font = Box::leak(Box::new(Font::new(String::from("Tiny"), 2, bitmap, 95, 2, 2, 1).unwrap()));
    let text = RichText::from_str("A\nA", Color::rgba(255, 255, 255, 255), font, None);
    let f = format_rich_lines(&text, 10, TextJustification::Left);
    assert!(check_text_fits(&f, (1, 1)));
    assert!(!check_text_fits(&f, (i64::MAX, 0)));
    let mut fb = Framebuffer::new(6, 6);
    fb.fill(Color::rgba(0, 0, 0, 255));
    render_rich_text(&mut fb, (1, 1), &f);
    assert_eq!(fb.get_pixel(1, 1), Some(Color::rgba(200, 200, 200, 255)));
    // Second line, two pixels lower.
    assert_eq!(fb.get_pixel(1, 3), Some(Color::rgba(200, 200, 200, 255)));
    assert_eq!(fb.get_pixel(2, 1), Some(Color::rgba(0, 0, 0, 255)));
}
