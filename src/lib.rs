//! Directed graphs over single-character vertex labels, read from and
//! written to a compact edge-list text, with vertex deletion that keeps
//! paths across the removed vertex.
use vstd::prelude::*;

pub mod charset;
pub mod graph;
pub mod laws;
pub mod model;
pub mod text;

pub use graph::Graph;
pub use text::ParsingError;
