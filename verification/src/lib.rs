//! Streaming text re-flower: reads a byte stream, recognizes configured
//! delimiter and literal pattern pairs, and re-emits the text with one tab
//! of indentation per open delimiter level, leaving literal regions verbatim.

pub mod cli;
pub mod driver;
pub mod printer;
pub mod sliding_window;
pub mod stream;
