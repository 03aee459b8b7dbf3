//! Reads the path data of an SVG `d` attribute and plans how its length is
//! measured.
//!
//! `parser` turns the text into segments, or says why it is no path data.
//! `path` says for each segment what is to be measured and between which
//! points, as far as that can be told from the command letters alone. The
//! arithmetic on coordinates belongs to the caller: the library holds every
//! parameter as the text that was read and computes with none of them.

pub mod error;
pub mod number;
pub mod parser;
pub mod path;
pub mod text;
