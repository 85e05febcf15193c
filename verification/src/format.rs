//! The display format of nodes, also reachable from here.

pub use crate::output::format_node;
