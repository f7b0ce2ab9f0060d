//! What the interactive editor keeps beside the sheets: named sheets, the
//! undo history, clipboard and mode flags, font families, and the text of a
//! cell's formula as the editor shows it.
pub mod app_impl;
pub mod fonts;
pub mod utils;
