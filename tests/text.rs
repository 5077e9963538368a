use applib::color::Color;
use applib::font::Font;
use applib::layout::{format_rich_lines, TextJustification};
use applib::rich_text::RichText;

fn font_10x20() -> &'static Font {
    let bitmap = vec![0u8; 95 * 10 * 20];
    let font = Font::new(String::from("Test-20"), 20, bitmap, 95, 20, 10, 16).unwrap();
    Box::leak(Box::new(font))
}

fn white() -> Color {
    Color::rgba(255, 255, 255, 255)
}

#[test]
fn scenario_two_lines_with_newline() {
    let font = font_10x20();
    let text = RichText::from_str("AB\nC", white(), font, None);
    let f = format_rich_lines(&text, 25, TextJustification::Left);
    assert_eq!(f.lines.len(), 2);
    assert_eq!(f.lines[0].to_string(), "AB\n");
    assert_eq!(f.lines[0].w, 20);
    assert_eq!(f.lines[0].h, 20);
    assert_eq!(f.lines[1].to_string(), "C");
    assert_eq!(f.lines[1].w, 10);
    assert_eq!(f.lines[1].h, 20);
    assert_eq!(f.h, 40);
    assert_eq!(f.w, 25);
}

#[test]
fn wrap_keeps_lines_within_width() {
    let font = font_10x20();
    let text = RichText::from_str("ABCDEFG", white(), font, None);
    let f = format_rich_lines(&text, 25, TextJustification::Left);
    let lines: Vec<String> = f.lines.iter().map(|l| l.to_string()).collect();
    assert_eq!(lines, vec!["AB", "CD", "EF", "G"]);
    for l in f.lines.iter() {
        assert!(l.w <= 25);
    }
    assert_eq!(f.h, 80);
}

#[test]
fn wide_glyph_gets_its_own_line() {
    let font = font_10x20();
    let text = RichText::from_str("ABC", white(), font, None);
    let f = format_rich_lines(&text, 5, TextJustification::Left);
    assert_eq!(f.lines.len(), 3);
    for l in f.lines.iter() {
        assert_eq!(l.chars.len(), 1);
        assert_eq!(l.w, 10);
        assert_eq!(l.x_offset, 0);
    }
}

#[test]
fn empty_buffer_has_no_lines() {
    let font = font_10x20();
    let text = RichText::from_str("", white(), font, None);
    let f = format_rich_lines(&text, 100, TextJustification::Center);
    assert_eq!(f.lines.len(), 0);
    assert_eq!(f.h, 0);
    assert_eq!(f.index_to_xy(0), (0, 0, 0));
    assert_eq!(f.xy_to_index((0, 0)), None);
}

#[test]
fn justification_offsets() {
    let font = font_10x20();
    let text = RichText::from_str("AB", white(), font, None);
    let left = format_rich_lines(&text, 25, TextJustification::Left);
    let center = format_rich_lines(&text, 25, TextJustification::Center);
    let right = format_rich_lines(&text, 25, TextJustification::Right);
    assert_eq!(left.lines[0].x_offset, 0);
    assert_eq!(center.lines[0].x_offset, 2);
    assert_eq!(right.lines[0].x_offset, 5);
}

#[test]
fn index_to_xy_positions() {
    let font = font_10x20();
    let text = RichText::from_str("AB\nC", white(), font, None);
    let f = format_rich_lines(&text, 25, TextJustification::Left);
    assert_eq!(f.index_to_xy(0), (0, 0, 20));
    assert_eq!(f.index_to_xy(1), (10, 0, 20));
    assert_eq!(f.index_to_xy(3), (0, 20, 20));
    assert_eq!(f.index_to_xy(4), (10, 20, 20));
}

#[test]
fn index_to_xy_after_trailing_newline() {
    let font = font_10x20();
    let text = RichText::from_str("AB\n", white(), font, None);
    let left = format_rich_lines(&text, 25, TextJustification::Left);
    let center = format_rich_lines(&text, 25, TextJustification::Center);
    let right = format_rich_lines(&text, 25, TextJustification::Right);
    assert_eq!(left.index_to_xy(3), (0, 20, 20));
    assert_eq!(center.index_to_xy(3), (12, 20, 20));
    assert_eq!(right.index_to_xy(3), (25, 20, 20));
}

#[test]
fn xy_to_index_hits_and_misses() {
    let font = font_10x20();
    let text = RichText::from_str("AB\nC", white(), font, None);
    let f = format_rich_lines(&text, 25, TextJustification::Left);
    assert_eq!(f.xy_to_index((0, 0)), Some(0));
    assert_eq!(f.xy_to_index((15, 5)), Some(1));
    assert_eq!(f.xy_to_index((5, 25)), Some(3));
    assert_eq!(f.xy_to_index((22, 0)), None);
    assert_eq!(f.xy_to_index((15, 25)), None);
    assert_eq!(f.xy_to_index((25, 0)), None);
    assert_eq!(f.xy_to_index((0, 40)), None);
    assert_eq!(f.xy_to_index((-1, 0)), None);
}

#[test]
fn round_trip_at_line_starts() {
    let font = font_10x20();
    let text = RichText::from_str("ABCDE\nFG", white(), font, None);
    for justif in [TextJustification::Left, TextJustification::Center, TextJustification::Right] {
        let f = format_rich_lines(&text, 25, justif);
        let mut start = 0;
        for line in f.lines.iter() {
            let (x, y, _) = f.index_to_xy(start);
            assert_eq!(f.xy_to_index((x, y)), Some(start));
            start += line.chars.len();
        }
    }
}

#[test]
fn link_counts_follow_edits() {
    let font = font_10x20();
    let mut text = RichText::new();
    text.add_part("link", white(), font, Some("http://x"));
    text.add_part("txt", white(), font, None);
    assert_eq!(text.len(), 7);
    assert_eq!(text.as_string(), "linktxt");
    text.remove(0);
    text.remove(0);
    text.remove(0);
    // One tagged character is left: the link stays registered.
    let f = format_rich_lines(&text, 1000, TextJustification::Left);
    assert!(f.has_link());
    let (url, _) = f.get_link(0).unwrap();
    assert_eq!(url, "http://x");
    text.remove(0);
    let f = format_rich_lines(&text, 1000, TextJustification::Left);
    assert!(!f.has_link());
    for i in 0..text.len() {
        assert!(f.get_link(i).is_none());
    }
    assert_eq!(text.as_string(), "txt");
}

#[test]
fn scenario_removing_a_link_empties_registry() {
    let font = font_10x20();
    let mut text = RichText::new();
    text.add_part("link", white(), font, Some("http://x"));
    text.add_part("txt", white(), font, None);
    for _ in 0.."link".len() {
        text.remove(0);
    }
    let f = format_rich_lines(&text, 1000, TextJustification::Left);
    assert!(!f.has_link());
    for i in 0..text.len() {
        assert!(f.get_link(i).is_none());
    }
}

#[test]
fn get_link_underlines_each_line() {
    let font = font_10x20();
    let mut text = RichText::new();
    text.add_part("ab", white(), font, None);
    text.add_part("cdef", white(), font, Some("http://y"));
    // Width 40: "abcd" / "ef".
    let f = format_rich_lines(&text, 40, TextJustification::Left);
    assert_eq!(f.lines.len(), 2);
    assert!(f.get_link(0).is_none());
    let (url, underlines) = f.get_link(3).unwrap();
    assert_eq!(url, "http://y");
    assert_eq!(underlines, vec![(18, 20, 40), (38, 0, 20)]);
}

#[test]
fn same_url_collapses_to_one_entry() {
    let font = font_10x20();
    let mut text = RichText::new();
    text.add_part("a", white(), font, Some("http://z"));
    text.add_part("b", white(), font, Some("http://z"));
    text.remove(0);
    let f = format_rich_lines(&text, 1000, TextJustification::Left);
    assert!(f.has_link());
    text.remove(0);
    let f = format_rich_lines(&text, 1000, TextJustification::Left);
    assert!(!f.has_link());
}

#[test]
fn insert_adds_unlinked_char() {
    let font = font_10x20();
    let mut text = RichText::from_str("ac", white(), font, Some("http://q"));
    text.insert(1, 'b', white(), font);
    assert_eq!(text.as_string(), "abc");
    let f = format_rich_lines(&text, 1000, TextJustification::Left);
    assert!(f.get_link(1).is_none());
    assert!(f.get_link(2).is_some());
    assert_eq!(f.get_char(1).c, 'b');
}

#[test]
fn concat_merges_registries() {
    let font = font_10x20();
    let mut a = RichText::from_str("xy", white(), font, Some("http://m"));
    let b = RichText::from_str("z", white(), font, Some("http://m"));
    a.concat(b);
    assert_eq!(a.as_string(), "xyz");
    a.remove(0);
    a.remove(0);
    let f = format_rich_lines(&a, 1000, TextJustification::Left);
    assert!(f.has_link());
    a.remove(0);
    let f = format_rich_lines(&a, 1000, TextJustification::Left);
    assert!(!f.has_link());
}

#[test]
fn concat_with_empty_changes_nothing() {
    let font = font_10x20();
    let mut a = RichText::new();
    a.add_part("ab\ncd", white(), font, Some("http://e"));
    let before = format_rich_lines(&a, 25, TextJustification::Center);
    a.concat(RichText::new());
    let after = format_rich_lines(&a, 25, TextJustification::Center);
    assert_eq!(a.as_string(), "ab\ncd");
    assert_eq!(before.lines.len(), after.lines.len());
    for (l1, l2) in before.lines.iter().zip(after.lines.iter()) {
        assert_eq!(l1.to_string(), l2.to_string());
        assert_eq!((l1.w, l1.h, l1.base_y, l1.x_offset), (l2.w, l2.h, l2.base_y, l2.x_offset));
    }
    assert_eq!(before.h, after.h);
    assert_eq!(before.get_link(0).unwrap().0, after.get_link(0).unwrap().0);
}

#[test]
fn clear_empties_text_and_links() {
    let font = font_10x20();
    let mut a = RichText::from_str("abc", white(), font, Some("http://c"));
    a.clear();
    assert!(a.is_empty());
    assert_eq!(a.len(), 0);
    let f = format_rich_lines(&a, 100, TextJustification::Left);
    assert!(!f.has_link());
}

#[test]
fn mixed_fonts_align_baselines() {
    let small = {
        let f = Font::new(String::from("Small"), 10, vec![0u8; 95 * 5 * 10], 95, 10, 5, 8).unwrap();
        Box::leak(Box::new(f))
    };
    let big = font_10x20();
    let mut text = RichText::new();
    text.add_part("a", white(), small, None);
    text.add_part("B", white(), big, None);
    let f = format_rich_lines(&text, 100, TextJustification::Left);
    assert_eq!(f.lines.len(), 1);
    assert_eq!(f.lines[0].w, 15);
    assert_eq!(f.lines[0].h, 20);
    assert_eq!(f.lines[0].base_y, 16);
    // A cursor takes the height of the character after it, or of the last one at the end.
    assert_eq!(f.index_to_xy(0), (0, 0, 10));
    assert_eq!(f.index_to_xy(1), (5, 0, 20));
    assert_eq!(f.index_to_xy(2), (15, 0, 20));
}

#[test]
fn round_trip_inside_a_line_gives_previous_index() {
    // A cursor's left edge is the right edge of the character before it.
    let font = font_10x20();
    let text = RichText::from_str("AB", white(), font, None);
    let f = format_rich_lines(&text, 100, TextJustification::Left);
    let (x, y, _) = f.index_to_xy(1);
    assert_eq!((x, y), (10, 0));
    assert_eq!(f.xy_to_index((x, y)), Some(0));
}

#[test]
fn xy_to_index_left_of_centered_line() {
    let font = font_10x20();
    let text = RichText::from_str("AB", white(), font, None);
    let f = format_rich_lines(&text, 100, TextJustification::Center);
    assert_eq!(f.lines[0].x_offset, 40);
    assert_eq!(f.xy_to_index((5, 5)), Some(0));
    assert_eq!(f.xy_to_index((55, 5)), Some(1));
    assert_eq!(f.xy_to_index((65, 5)), None);
}
