//! Multi-extraction: how the terms that were extracted for several expressions
//! are printed together, with names for the parts that they share.

pub mod binding;
pub mod dag;
pub mod laws;
pub mod layout;
pub mod line_breaks;
pub mod naming;
pub mod output;
pub mod pieces;
pub mod printed;
pub mod render;
pub mod sharing;
pub mod stats;
pub mod text;
pub mod tokens;
pub mod variants;
