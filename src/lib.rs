//! Decoding of the binary schematic container: a four-byte magic, a
//! three-byte version marker and a deflate stream whose inflated payload
//! describes a grid of placed blocks with metadata tags.

pub mod error;
pub mod cursor;
pub mod inflater;
pub mod container;
pub mod decoder;
pub mod laws;
