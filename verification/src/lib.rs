//! Structural comparison of JSON-like value trees.
//!
//! [`deep_diff`] walks two [`Value`] trees in lock-step and returns a flat,
//! ordered list of path-addressed [`Difference`] records.
//!
//! The modules, from the ground up: [`number`] holds JSON numbers, [`value`]
//! the value tree and its model, [`path`] the addressing scheme, [`diff`] the
//! comparison itself, and [`laws`] what holds of every comparison.

pub mod diff;
pub mod laws;
pub mod number;
pub mod path;
pub mod value;

pub use diff::{deep_diff, Difference};
pub use number::Number;
pub use value::Value;
