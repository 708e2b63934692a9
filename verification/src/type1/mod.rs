//! Converting Type 1 fonts to the compact font format.
//!
//! Three stages, each of which gives up on any doubt: reading the font
//! program ([`parse`]), running the outline programs of its glyphs
//! ([`interp`]), and writing them anew ([`emit`], [`cff`]).

pub mod arithmetic;
pub mod cff;
pub mod cipher;
pub mod convert;
pub mod crypt;
pub mod emit;
pub mod fixed;
pub mod interp;
pub mod kept;
pub mod lexer;
pub mod number;
pub mod outline;
pub mod parse;
pub mod redrawn;
pub mod standard;
pub mod told;
pub mod zones;
