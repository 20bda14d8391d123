//! Folds a JSON document into weighted stacks: one entry per path from the
//! root to a leaf, weighted by the bytes that the leaf takes in minified JSON.
//! The entries are what flamegraph renderers read as folded stacks.
pub mod flamegraph;
pub mod json;
pub mod laws;
pub mod order;
pub mod parse;
pub mod path;
pub mod render;
pub mod stacks;
pub mod weight;
