use termide_logic::color_popup::{extract_hex_color_at_col, hex_color_in_spans, ColorPreview};
use termide_logic::selection_style::{Color, Style};
use termide_logic::geometry::Rect;

#[test]
fn test_extract_6digit() {
    let (r, g, b, hex) = extract_hex_color_at_col("color: #aabbcc;", 7).unwrap();
    assert_eq!((r, g, b), (0xaa, 0xbb, 0xcc));
    assert_eq!(hex, "#aabbcc");
}

#[test]
fn test_extract_3digit() {
    let (r, g, b, hex) = extract_hex_color_at_col("color: #abc;", 9).unwrap();
    assert_eq!((r, g, b), (0xaa, 0xbb, 0xcc));
    assert_eq!(hex, "#abc");
}

#[test]
fn test_no_match_outside() {
    // col=0 is on 'c', not the hex color
    assert!(extract_hex_color_at_col("color: #abc;", 0).is_none());
}

#[test]
fn test_match_at_boundary() {
    // col on '#' itself
    let result = extract_hex_color_at_col("#ff0000", 0);
    assert!(result.is_some());
    let (r, g, b, _) = result.unwrap();
    assert_eq!((r, g, b), (0xff, 0x00, 0x00));
}

#[test]
fn test_no_match_plain_text() {
    assert!(extract_hex_color_at_col("hello world", 3).is_none());
}

#[test]
fn columns_count_graphemes() {
    // "é" written as 'e' and a combining accent is one column
    let text = "e\u{301} #123456";
    let (r, g, b, hex) = extract_hex_color_at_col(text, 2).unwrap();
    assert_eq!((r, g, b), (0x12, 0x34, 0x56));
    assert_eq!(hex, "#123456");
    assert!(extract_hex_color_at_col(text, 9).is_none());
    assert!(extract_hex_color_at_col("#abcd", 1).is_none());
}

#[test]
fn spans_given_directly() {
    let text = "x #0f0 #00ff00";
    let spans = vec![(2usize, 6usize), (7usize, 14usize)];
    assert_eq!(hex_color_in_spans(text, &spans, 8), Some((0, 0xff, 0, "#00ff00".to_string())));
    assert_eq!(hex_color_in_spans(text, &spans, 3), Some((0, 0xff, 0, "#0f0".to_string())));
    assert_eq!(hex_color_in_spans(text, &spans, 6), None);
}

#[test]
fn preview_layout() {
    let p = ColorPreview { r: 1, g: 2, b: 3, hex: "#abc".to_string(), screen_row: 10, screen_col: 10 };
    let area = Rect::new(0, 0, 40, 20);
    let cells = p.layout(area, area);
    // 3 rows of 11 cells
    assert_eq!(cells.len(), 33);
    assert_eq!((cells[0].x, cells[0].y, cells[0].ch), (8, 7, '┌'));
    let border = Style { fg: Some(Color::DarkGray), bg: Some(Color::Black), bold: false };
    assert_eq!(cells[0].style, border);
    let swatch = Style { fg: Some(Color::Rgb(1, 2, 3)), bg: Some(Color::Rgb(1, 2, 3)), bold: false };
    let swatches: Vec<_> = cells.iter().filter(|c| c.style == swatch).collect();
    assert_eq!(swatches.len(), 2);
    assert_eq!(swatches[0].ch, '█');
    let text: String = cells.iter().filter(|c| c.y == 8).map(|c| c.ch).collect();
    assert_eq!(text, "│ ██ #abc │");
    // near the top the popup goes below the click
    let p2 = ColorPreview { screen_row: 1, ..p };
    assert_eq!(p2.layout(area, area)[0].y, 2);
    // too narrow a panel shows nothing
    assert!(p2.layout(Rect::new(0, 0, 5, 20), area).is_empty());
}

#[test]
fn preview_stays_inside_panel() {
    let panel = Rect::new(5, 3, 30, 10);
    let buf = Rect::new(0, 0, 80, 24);
    for &(row, col) in &[(3u16, 5u16), (12, 34), (0, 0), (40, 79), (8, 20)] {
        let p = ColorPreview { r: 0, g: 0, b: 0, hex: "#a1b2c3".to_string(), screen_row: row, screen_col: col };
        let cells = p.layout(panel, buf);
        assert_eq!(cells.len(), 3 * 14);
        for c in &cells {
            assert!(c.x >= panel.x && c.x < panel.x + panel.width);
            assert!(c.y >= panel.y && c.y < panel.y + panel.height);
        }
    }
}

#[test]
fn render_example_below_click() {
    let p = ColorPreview { r: 0x11, g: 0x22, b: 0x33, hex: "#123".to_string(), screen_row: 6, screen_col: 4 };
    let buf = Rect::new(0, 0, 30, 20);
    let panel = Rect::new(2, 5, 20, 10);
    let cells = p.render(panel, buf).unwrap();
    let at = |x: u16, y: u16| cells.iter().find(|c| c.x == x && c.y == y).copied();
    assert_eq!(at(2, 7).unwrap().ch, '┌');
    assert_eq!(at(12, 7).unwrap().ch, '┐');
    assert_eq!(at(2, 9).unwrap().ch, '└');
    assert_eq!(at(12, 9).unwrap().ch, '┘');
    let row: String = (2..=12).map(|x| at(x, 8).unwrap().ch).collect();
    assert_eq!(row, "│ ██ #123 │");
    let swatch = Style { fg: Some(Color::Rgb(0x11, 0x22, 0x33)), bg: Some(Color::Rgb(0x11, 0x22, 0x33)), bold: false };
    assert_eq!(at(4, 8).unwrap().style, swatch);
    assert_eq!(at(7, 8).unwrap().style, Style { fg: Some(Color::White), bg: Some(Color::Black), bold: false });
    assert!(cells.iter().all(|c| (2..=12).contains(&c.x) && (7..=9).contains(&c.y)));
    assert_eq!(cells.len(), 33);
}

#[test]
fn render_refuses_overflowing_positions() {
    let p = ColorPreview { r: 0, g: 0, b: 0, hex: "#123".to_string(), screen_row: 0, screen_col: 0 };
    assert!(p.render(Rect::new(0, u16::MAX - 1, 20, 1), Rect::new(0, 0, 10, 10)).is_some());
    // a panel reaching past the last row: its bottom does not fit in u16
    let past_end = Rect { x: 0, y: u16::MAX - 2, width: 20, height: 3 };
    assert!(p.render(past_end, Rect::new(0, 0, 10, 10)).is_none());
}
