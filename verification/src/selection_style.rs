//! Selection styling utilities.
//!
//! Provides consistent styling for selected/unselected items across panels.

use vstd::prelude::*;

verus! {

/// A terminal color: one of the named ANSI colors, an RGB color, or an
/// index into the terminal's palette.
#[derive(Debug, Clone, Copy, PartialEq, Eq, Structural)]
pub enum Color {
    Reset,
    Black,
    Red,
    Green,
    Yellow,
    Blue,
    Magenta,
    Cyan,
    Gray,
    DarkGray,
    LightRed,
    LightGreen,
    LightYellow,
    LightBlue,
    LightMagenta,
    LightCyan,
    White,
    Rgb(u8, u8, u8),
    Indexed(u8),
}

/// A text style: foreground and background colors (unset colors keep what
/// is already there) and whether the text is bold.
#[derive(Debug, Clone, Copy, PartialEq, Eq, Structural)]
pub struct Style {
    pub fg: Option<Color>,
    pub bg: Option<Color>,
    pub bold: bool,
}

/// Selection state for an item.
#[derive(Debug, Clone, Copy, PartialEq, Eq, Structural, Default)]
pub struct SelectionState {
    /// Whether the item is selected (cursor is on it).
    pub selected: bool,
    /// Whether the panel is focused.
    pub focused: bool,
}

impl SelectionState {
    /// Create a new selection state.
    pub fn new(selected: bool, focused: bool) -> (res: Self)
        ensures
            res == (SelectionState { selected, focused }),
    {
        Self { selected, focused }
    }

    /// Item is selected and panel is focused.
    pub fn is_active(&self) -> (res: bool)
        ensures
            res == (self.selected && self.focused),
    {
        self.selected && self.focused
    }
}

/// Theme colors for selection styling.
#[derive(Debug, Clone, Copy, PartialEq, Eq, Structural)]
pub struct SelectionColors {
    /// Foreground color for normal items.
    pub fg: Color,
    /// Background color for panel.
    pub bg: Color,
    /// Foreground color when selected and focused.
    pub selection_fg: Color,
    /// Background color when selected and focused.
    pub selection_bg: Color,
    /// Color for selected but unfocused items.
    pub selected_unfocused: Color,
}

impl Default for SelectionColors {
    fn default() -> (res: Self)
        ensures
            res == (SelectionColors {
                fg: Color::White,
                bg: Color::Black,
                selection_fg: Color::Black,
                selection_bg: Color::White,
                selected_unfocused: Color::Yellow,
            }),
    {
        Self {
            fg: Color::White,
            bg: Color::Black,
            selection_fg: Color::Black,
            selection_bg: Color::White,
            selected_unfocused: Color::Yellow,
        }
    }
}

/// Inverted colors in bold.
pub open spec fn highlighted(fg: Color, bg: Color) -> Style {
    Style { fg: Some(fg), bg: Some(bg), bold: true }
}

/// Only a foreground color.
pub open spec fn plain(fg: Color) -> Style {
    Style { fg: Some(fg), bg: None, bold: false }
}

/// The style of an item in a selection state.
pub open spec fn item_style_spec(state: SelectionState, colors: SelectionColors) -> Style {
    if state.selected && state.focused {
        highlighted(colors.selection_fg, colors.selection_bg)
    } else if state.selected {
        plain(colors.selected_unfocused)
    } else {
        plain(colors.fg)
    }
}

/// The style of an item with its own foreground color.
pub open spec fn item_style_colored_spec(state: SelectionState, base_fg: Color, colors: SelectionColors) -> Style {
    if state.selected && state.focused {
        highlighted(colors.bg, base_fg)
    } else {
        plain(base_fg)
    }
}

/// Compute style for an item based on selection state.
///
/// Pattern used across panels:
/// - Selected + focused: inverted colors (fg=bg, bg=custom) + BOLD
/// - Selected + unfocused: custom foreground
/// - Not selected: normal foreground
pub fn item_style(state: SelectionState, colors: &SelectionColors) -> (res: Style)
    ensures
        res == item_style_spec(state, *colors),
{
    if state.selected && state.focused {
        Style { fg: Some(colors.selection_fg), bg: Some(colors.selection_bg), bold: true }
    } else if state.selected {
        Style { fg: Some(colors.selected_unfocused), bg: None, bold: false }
    } else {
        Style { fg: Some(colors.fg), bg: None, bold: false }
    }
}

/// Compute style for an item with custom foreground color.
///
/// Like `item_style` but allows specifying a custom base foreground color
/// (e.g., for colored git status indicators).
pub fn item_style_colored(state: SelectionState, base_fg: Color, colors: &SelectionColors) -> (res: Style)
    ensures
        res == item_style_colored_spec(state, base_fg, *colors),
{
    if state.selected && state.focused {
        Style { fg: Some(colors.bg), bg: Some(base_fg), bold: true }
    } else {
        Style { fg: Some(base_fg), bg: None, bold: false }
    }
}

/// Style for inverted cursor (used in dropdown menus).
pub fn cursor_style(is_cursor: bool, colors: &SelectionColors) -> (res: Style)
    ensures
        res == (if is_cursor {
            highlighted(colors.bg, colors.fg)
        } else {
            plain(colors.fg)
        }),
{
    if is_cursor {
        Style { fg: Some(colors.bg), bg: Some(colors.fg), bold: true }
    } else {
        Style { fg: Some(colors.fg), bg: None, bold: false }
    }
}

/// Style for buttons (selected vs normal).
pub fn button_style(is_selected: bool, colors: &SelectionColors) -> (res: Style)
    ensures
        res == (if is_selected {
            highlighted(colors.bg, colors.fg)
        } else {
            plain(colors.fg)
        }),
{
    if is_selected {
        Style { fg: Some(colors.bg), bg: Some(colors.fg), bold: true }
    } else {
        Style { fg: Some(colors.fg), bg: None, bold: false }
    }
}

/// Only an active item (selected in a focused panel) is highlighted, in
/// bold and with a background, whether it has its own foreground or not;
/// any other item gets a foreground color alone.
pub proof fn lemma_only_active_items_highlighted(state: SelectionState, base_fg: Color, colors: SelectionColors)
    ensures
        item_style_spec(state, colors).bold <==> state.selected && state.focused,
        item_style_spec(state, colors).bg is Some <==> state.selected && state.focused,
        item_style_colored_spec(state, base_fg, colors).bold <==> state.selected && state.focused,
        item_style_colored_spec(state, base_fg, colors).bg is Some <==> state.selected
            && state.focused,
        item_style_spec(state, colors).fg is Some,
        item_style_colored_spec(state, base_fg, colors).fg is Some,
{
}

} // verus!
