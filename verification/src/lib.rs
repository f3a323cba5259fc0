//! Building blocks for terminal user interfaces, verified.
//!
//! - **Selecting text in a panel.** A terminal's own selection spans whole rows
//!   of the screen, across borders and neighbouring panels. Here an application
//!   captures the mouse and selects text within one panel, line by line, never as
//!   a block. A selection is kept as positions in the text, so it survives
//!   resizing, wrapping anew and scrolling, and only what is on screen is ever
//!   wrapped. [`MultiSelectPanel`] bundles it all; [`wrapcache`], [`selection`],
//!   [`wrap`], [`scrollbar`] and [`clipboard`] are its parts, and [`terminal`]
//!   sets a terminal up for it and back.
//! - **Editing text.** [`Editor`] is a single- or multi-line editor with a cursor
//!   and a selection.
//! - **Picking a colour.** [`ColorPicker`] picks a colour by its red, green and
//!   blue channels.
//!
//! The crate computes; it draws nothing and reads no events. Rows to show, cells
//! to highlight, commands to send and escape sequences to write are handed to the
//! application as plain values.
//!
//! Every function states what it computes over a mathematical model: texts are
//! sequences of characters, a panel is a [`panel_model::PanelModel`], and so on.
//! What holds of several functions together is stated by the functions whose
//! names begin with `law_`.

// Imports that only specifications use look unused once those are erased.
#![allow(unused_imports)]

pub mod ansi;
pub mod clipboard;
pub mod editor;
pub mod geometry;
pub mod key;
mod line_ranges;
mod line_rows;
pub mod multiselect;
pub mod panel_model;
pub mod picker;
pub mod posset;
pub mod scrollbar;
pub mod selection;
pub mod style;
mod style_runs;
pub mod terminal;
pub mod text;
pub mod wrap;
pub mod wrapcache;

pub use editor::Editor;
pub use multiselect::MultiSelectPanel;
pub use picker::ColorPicker;
pub use terminal::TerminalGuard;
pub use wrapcache::{PanelWrap, TextPos, WrapMode};
