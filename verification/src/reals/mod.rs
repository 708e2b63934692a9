//! Exact restoration of real literals.
//!
//! The object model holds a real in single precision and writes its shortest
//! spelling, so a literal that needs more digits is a different number after
//! a load and a save: `841.91998` comes back as `841.92`. Viewers read reals
//! in double precision, so to them the value moved.
//!
//! The digits are lost when the file is read, so the work is done around the
//! save: [`capture::capture`] reads the input's bytes and records the exact
//! text of every literal that does not survive, keyed by its
//! single-precision bits; [`restore::restore`] puts the text back into the
//! bytes just written and repairs every offset that this moves.
//!
//! A value is restored only where the input maps it unambiguously: not where
//! two different literals share one single-precision value, and not where
//! the shortened form itself occurs in the input.

pub mod capture;
pub mod laws;
pub mod offsets;
pub mod reread;
pub mod restore;
pub mod scan;
