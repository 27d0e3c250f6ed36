//! Packs a tree of text and image files into one text bundle and parses
//! such a bundle back into files.

mod bytes;
pub mod escape;
pub mod path;
pub mod codec;
pub mod decode;
pub mod dirs;
pub mod encode;
pub mod labels;
pub mod laws;
