//! The side-by-side view under its own module name.

pub use crate::output::terminal::{format_side_by_side, SideBySideInput};
