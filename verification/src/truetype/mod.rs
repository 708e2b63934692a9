//! Minimal TrueType machinery: reading and writing the `cmap` table,
//! neutralising subset tags, and removing hinting.
//!
//! A simple TrueType font resolves each character code through its `cmap`,
//! so a subset has to carry one. Formats 0, 4, 6 and 12 are read; anything
//! else fails the whole font, which is then kept as it is.


pub mod bare;
pub mod cmap;
pub mod hinting;
pub mod laws;
pub mod names;
pub mod readback;
pub mod sfnt;
pub mod subtable;
pub mod unhinted;
