//! Verified core of a terminal editor for coloured ANSI character art.

pub mod text;
pub mod rgb;
pub mod format_char;
pub mod terminal;
pub mod parser;
pub mod input;
pub mod char_view;
pub mod colours_view;
pub mod image_view;
pub mod editor;
pub mod save_load;
