//! Verified core logic of the termide panels and helpers.

pub mod text;
pub mod stash;
pub mod protocol;
pub mod unicode;
pub mod hover_popup;
pub mod geometry;
pub mod color_popup;
pub mod click_tracker;
pub mod selection_style;
pub mod filter;
pub mod format;
