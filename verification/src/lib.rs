//! A reference-counted arena of immutable stack frames, supporting
//! structurally shared persistent stacks: many stack handles may share a
//! common suffix of frames, and a shared suffix is reclaimed exactly when
//! its last owner disappears.

pub mod arena;
pub mod dot;
pub mod driver;
pub mod stack;
