use termide_logic::geometry::Rect;
use termide_logic::hover_popup::{
    wrap_text, Hover, HoverContents, HoverPopup, HoverStyle, LanguageString, MarkedString, MarkupContent,
    MarkupKind,
};

fn markup(value: &str) -> Hover {
    Hover {
        contents: HoverContents::Markup(MarkupContent { kind: MarkupKind::Markdown, value: value.to_string() }),
        range: None,
    }
}

#[test]
fn test_from_hover_markup() {
    let hover = markup("# Function\n\nThis is a test function.");
    let popup = HoverPopup::from_hover(hover);
    assert!(popup.is_some());
    let popup = popup.unwrap();
    assert!(!popup.is_empty());
    assert_eq!(popup.lines().len(), 3);
}

#[test]
fn test_from_hover_empty() {
    let hover = markup("   ");
    let popup = HoverPopup::from_hover(hover);
    assert!(popup.is_none());
}

#[test]
fn test_scroll() {
    let value = (0..20).map(|i| format!("Line {}", i)).collect::<Vec<_>>().join("\n");
    let mut popup = HoverPopup::from_hover(markup(&value)).unwrap();
    assert_eq!(popup.scroll_offset(), 0);

    popup.scroll_down(5);
    assert_eq!(popup.scroll_offset(), 5);

    popup.scroll_up(3);
    assert_eq!(popup.scroll_offset(), 2);

    popup.scroll_up(10);
    assert_eq!(popup.scroll_offset(), 0);
}

#[test]
fn scroll_down_stops_at_last_page() {
    let value = (0..20).map(|i| format!("Line {}", i)).collect::<Vec<_>>().join("\n");
    let mut popup = HoverPopup::from_hover(markup(&value)).unwrap();
    popup.scroll_down(100);
    assert_eq!(popup.scroll_offset(), 5);
}

#[test]
fn array_and_language_strings() {
    let hover = Hover {
        contents: HoverContents::Array(vec![
            MarkedString::String("  ".to_string()),
            MarkedString::LanguageString(LanguageString { language: "rust".to_string(), value: "fn f()".to_string() }),
            MarkedString::String("doc".to_string()),
        ]),
        range: None,
    };
    let popup = HoverPopup::from_hover(hover).unwrap();
    assert_eq!(popup.lines(), &vec!["```rust", "fn f()", "```", "", "doc"]);
    let empty = Hover { contents: HoverContents::Array(vec![]), range: None };
    assert!(HoverPopup::from_hover(empty).is_none());
    let blank_code = Hover {
        contents: HoverContents::Scalar(MarkedString::LanguageString(LanguageString {
            language: "rust".to_string(),
            value: " \n ".to_string(),
        })),
        range: None,
    };
    assert!(HoverPopup::from_hover(blank_code).is_none());
}

#[test]
fn wrap_long_lines() {
    let text = "alpha beta gamma delta";
    assert_eq!(wrap_text(text, 11), vec!["alpha beta", "gamma delta"]);
    assert_eq!(wrap_text("  aa bb cc", 6), vec!["  aa", "  bb", "  cc"]);
    assert_eq!(wrap_text("short\n\nx  ", 10), vec!["short", "", "x"]);
    assert_eq!(wrap_text("averyveryverylongword tail", 5), vec!["averyveryverylongword", "tail"]);
}

#[test]
fn render_places_popup_below_click() {
    let popup = HoverPopup::from_hover(markup("hello")).unwrap();
    let area = Rect::new(0, 0, 100, 40);
    let layout = popup.render(area, area, 10, 5).unwrap();
    assert_eq!(layout.rect, Rect::new(10, 6, 20, 1));
    // 20 background cells, then the 5 characters of the line
    assert_eq!(layout.cells.len(), 25);
    assert_eq!(layout.cells[20].ch, 'h');
    assert_eq!(layout.cells[20].x, 11);
    assert_eq!(layout.cells[20].style, HoverStyle::Background);
    // too small an area renders nothing
    assert!(popup.render(Rect::new(0, 0, 10, 10), area, 0, 0).is_none());
}

#[test]
fn render_flips_above_and_marks_scroll() {
    let value = (0..20).map(|i| format!("   code {}", i)).collect::<Vec<_>>().join("\n");
    let mut popup = HoverPopup::from_hover(markup(&value)).unwrap();
    popup.scroll_down(1);
    let area = Rect::new(0, 0, 60, 20);
    let layout = popup.render(area, area, 5, 18).unwrap();
    assert_eq!(layout.rect.height, 15);
    assert_eq!(layout.rect.y, 3);
    assert!(layout.cells.iter().any(|c| c.ch == '▲'));
    assert!(layout.cells.iter().any(|c| c.ch == '▼'));
    assert!(layout.cells.iter().any(|c| c.style == HoverStyle::Code));
}

#[test]
fn popup_stays_inside_area_near_edges() {
    let value = (0..30).map(|i| format!("entry number {}", i)).collect::<Vec<_>>().join("\n");
    let popup = HoverPopup::from_hover(markup(&value)).unwrap();
    let area = Rect::new(3, 2, 50, 25);
    for &(cx, cy) in &[(0u16, 0u16), (52, 26), (49, 1), (4, 24), (30, 12)] {
        let layout = popup.render(area, area, cx, cy).unwrap();
        let r = layout.rect;
        assert!(r.x >= area.x + 1 && r.x + r.width + 1 <= area.x + area.width);
        assert!(r.y >= area.y + 1 && r.y + r.height + 1 <= area.y + area.height);
        assert!(r.width >= 20 && r.width <= 80);
        assert!(r.height >= 1 && r.height <= 15);
        for c in &layout.cells {
            assert!(c.x >= r.x && c.x < r.x + r.width);
            assert!(c.y >= r.y && c.y < r.y + r.height);
        }
    }
}

#[test]
fn wrapping_keeps_every_word() {
    let text = "  one two three four five six seven eight nine ten\nshort line\n\n   eleven twelve";
    let words_in = |lines: &[&str]| -> Vec<String> {
        lines.iter().flat_map(|l| l.split_whitespace().map(|w| w.to_string())).collect()
    };
    let original: Vec<&str> = text.lines().collect();
    let wrapped = wrap_text(text, 12);
    let wrapped_refs: Vec<&str> = wrapped.iter().map(|s| s.as_str()).collect();
    assert_eq!(words_in(&wrapped_refs), words_in(&original));
    assert_eq!(wrapped[0], "  one two");
    assert_eq!(wrapped[1], "  three four");
}

#[test]
fn wide_characters_take_two_columns() {
    // 30 CJK characters are 60 columns wide: the popup is 62 wide
    let line: String = std::iter::repeat('漢').take(30).collect();
    let popup = HoverPopup::from_hover(markup(&line)).unwrap();
    assert_eq!(popup.content_width(), 60);
    let area = Rect::new(0, 0, 100, 10);
    let layout = popup.render(area, area, 0, 0).unwrap();
    assert_eq!(layout.rect.width, 62);
    let text_cells: Vec<_> = layout.cells.iter().filter(|c| c.ch == '漢').collect();
    assert_eq!(text_cells.len(), 30);
    assert_eq!(text_cells[1].x, text_cells[0].x + 2);
    // wrapping measures display width too: 30 wide characters do not fit in 50
    let words = std::iter::repeat("漢漢漢漢漢").take(6).collect::<Vec<_>>().join(" ");
    let wrapped = wrap_text(&words, 50);
    assert_eq!(wrapped.len(), 2);
}

#[test]
fn scrolling_down_and_up_returns() {
    let value = (0..40).map(|i| format!("Line {}", i)).collect::<Vec<_>>().join("\n");
    let mut popup = HoverPopup::from_hover(markup(&value)).unwrap();
    popup.scroll_down(7);
    popup.scroll_down(4);
    popup.scroll_up(4);
    assert_eq!(popup.scroll_offset(), 7);
    popup.scroll_up(3);
    popup.scroll_down(3);
    assert_eq!(popup.scroll_offset(), 7);
    // the last page stops scrolling: 40 lines, 15 shown
    popup.scroll_down(30);
    assert_eq!(popup.scroll_offset(), 25);
    popup.scroll_up(30);
    assert_eq!(popup.scroll_offset(), 0);
}

#[test]
fn wrapped_pieces_fit_and_are_full() {
    let text = "    lorem ipsum dolor sit amet consectetur adipiscing elit sed do eiusmod tempor incididunt";
    let max = 24;
    let pieces = wrap_text(text, max);
    assert!(pieces.len() > 1);
    for (i, p) in pieces.iter().enumerate() {
        assert!(p.starts_with("    "));
        let words: Vec<&str> = p.split_whitespace().collect();
        let width = 4 + words.iter().map(|w| w.len()).sum::<usize>() + words.len() - 1;
        assert!(width <= max || words.len() == 1);
        if let Some(next) = pieces.get(i + 1) {
            let first = next.split_whitespace().next().unwrap();
            assert!(width + 1 + first.len() > max);
        }
    }
}
