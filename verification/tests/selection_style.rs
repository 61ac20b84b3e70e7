use termide_logic::selection_style::{
    button_style, cursor_style, item_style, item_style_colored, Color, SelectionColors, SelectionState,
};

#[test]
fn test_selection_state() {
    let state = SelectionState::new(true, true);
    assert!(state.is_active());

    let state = SelectionState::new(true, false);
    assert!(!state.is_active());

    let state = SelectionState::new(false, true);
    assert!(!state.is_active());
}

#[test]
fn test_item_style_selected_focused() {
    let colors = SelectionColors::default();
    let state = SelectionState::new(true, true);
    let style = item_style(state, &colors);
    assert_eq!(style.fg, Some(colors.selection_fg));
    assert_eq!(style.bg, Some(colors.selection_bg));
}

#[test]
fn test_item_style_selected_unfocused() {
    let colors = SelectionColors::default();
    let state = SelectionState::new(true, false);
    let style = item_style(state, &colors);
    assert_eq!(style.fg, Some(colors.selected_unfocused));
    assert_eq!(style.bg, None);
}

#[test]
fn test_item_style_not_selected() {
    let colors = SelectionColors::default();
    let state = SelectionState::new(false, false);
    let style = item_style(state, &colors);
    assert_eq!(style.fg, Some(colors.fg));
    assert_eq!(style.bg, None);
}

#[test]
fn other_styles() {
    let colors = SelectionColors::default();
    let active = SelectionState::new(true, true);
    let s = item_style_colored(active, Color::Green, &colors);
    assert_eq!((s.fg, s.bg, s.bold), (Some(Color::Black), Some(Color::Green), true));
    let s = item_style_colored(SelectionState::new(true, false), Color::Green, &colors);
    assert_eq!((s.fg, s.bg, s.bold), (Some(Color::Green), None, false));
    let s = cursor_style(true, &colors);
    assert_eq!((s.fg, s.bg, s.bold), (Some(Color::Black), Some(Color::White), true));
    let s = button_style(false, &colors);
    assert_eq!((s.fg, s.bg, s.bold), (Some(Color::White), None, false));
    assert!(item_style(active, &colors).bold);
}
