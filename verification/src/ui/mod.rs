//! Styled terminal output: colors, lines of styled text, and the widgets
//! built from them.

pub mod style;
pub mod palette;
pub mod text;
pub mod widgets;
