//! A small modal text editor: its document, cursor, undo history, rendering
//! and key handling, with their contracts.
use vstd::prelude::*;

pub mod app;
pub mod columns;
pub mod context;
pub mod cursor;
pub mod document;
pub mod error;
pub mod grid_lines;
pub mod motion;
pub mod motion_laws;
pub mod render_buffer;
pub mod render_laws;
pub mod screen;
pub mod screen_sync;
pub mod text;
pub mod undo;
pub mod viewport;

verus! {

/// The key that deletes the character before the cursor.
pub const BACKSPACE: char = '\x7F';

/// The key that breaks a line.
pub const ENTER: char = '\r';

/// The key that leaves a mode.
pub const ESC: char = '\x1b';

/// Clears the terminal and moves the terminal's cursor home.
pub const CLEAR_SCREEN: &'static str = "\x1b[2J\x1b[H";

/// Hides the terminal's cursor.
pub const HIDE_CURSOR: &'static str = "\x1b[?25l";

/// Shows the terminal's cursor.
pub const SHOW_CURSOR: &'static str = "\x1b[?25h";

} // verus!
